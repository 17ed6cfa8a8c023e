//! Authoring-side skeleton description: the bone hierarchy, the per-bone
//! channel bundles an animation is authored from, and the bookkeeping that
//! turns authored animations into a populated bank once the host has
//! spawned the bones and handed back their identities.

use vstd::prelude::*;
use crate::interpolation::Line;
use crate::bank::AnimationBank;
use crate::player::{lines_wf, sum_lens, MAX_TIME};

verus! {

/// One authored channel: the segment list for one motion attribute.
#[derive(Debug)]
pub enum Channel {
    Translation(Vec<Line>),
    Rotation(Vec<Line>),
    Scale(Vec<Line>),
}

impl Channel {
    pub open spec fn lines(self) -> Seq<Line> {
        match self {
            Channel::Translation(l) => l@,
            Channel::Rotation(l) => l@,
            Channel::Scale(l) => l@,
        }
    }

    /// Authoring precondition: at least one segment, every segment of
    /// positive length, total duration within `MAX_TIME`.
    pub open spec fn wf(self) -> bool {
        &&& self.lines().len() >= 1
        &&& lines_wf(self.lines())
        &&& sum_lens(self.lines()) <= MAX_TIME
    }
}

/// A node of the authored bone hierarchy. Drawable mesh and material
/// handles and the spatial starting transform are the host renderer's data
/// and stay outside the core.
#[derive(Debug)]
pub struct Bone {
    pub id: usize,
    pub children: Vec<Bone>,
}

/// The ids of a bone subtree in instancing order: the bone itself first,
/// then each child's subtree in order.
pub open spec fn preorder_ids(b: Bone) -> Seq<usize>
    decreases b, 0int,
{
    seq![b.id] + preorder_from(b.children, 0)
}

/// The ids of the child subtrees from index `i` on, in order.
pub open spec fn preorder_from(nodes: Vec<Bone>, i: int) -> Seq<usize>
    decreases nodes, nodes@.len() - i,
{
    if 0 <= i < nodes@.len() {
        preorder_ids(nodes@[i]) + preorder_from(nodes, i + 1)
    } else {
        Seq::<usize>::empty()
    }
}

impl Bone {
    pub fn new(id: usize) -> (r: Bone)
        ensures
            r.id == id,
            r.children@.len() == 0,
    {
        Bone { id, children: Vec::new() }
    }

    /// Record this subtree's bone ids in instancing order, appending to
    /// `record`; the host spawns one entity per recorded id in the same
    /// order.
    #[verifier::loop_isolation(false)]
    pub fn instance_record(&self, record: &mut Vec<usize>)
        ensures
            final(record)@ == old(record)@ + preorder_ids(*self),
        decreases *self,
    {
        record.push(self.id);
        let mut i: usize = 0;
        while i < self.children.len()
            invariant
                0 <= i <= self.children@.len(),
                record@ + preorder_from(self.children, i as int) == old(record)@ + preorder_ids(
                    *self,
                ),
            decreases self.children@.len() - i,
        {
            proof {
                vstd::std_specs::vec::axiom_vec_index_decreases(self.children, i as int);
            }
            let ghost pre = record@;
            self.children[i].instance_record(record);
            proof {
                assert(record@ + preorder_from(self.children, i as int + 1) =~= pre
                    + preorder_from(self.children, i as int));
            }
            i = i + 1;
        }
        proof {
            assert(record@ + preorder_from(self.children, self.children@.len() as int) =~= record@);
        }
    }
}

/// The entity spawned for id `j`, if any: the last record with that id wins,
/// exactly as filling a slot table in record order would.
pub open spec fn last_entity(records: Seq<(usize, u64)>, j: int) -> Option<u64>
    decreases records.len(),
{
    if records.len() == 0 {
        None
    } else if records.last().0 == j {
        Some(records.last().1)
    } else {
        last_entity(records.drop_last(), j)
    }
}

/// The largest recorded id.
pub open spec fn max_id(records: Seq<(usize, u64)>) -> int
    decreases records.len(),
{
    if records.len() == 0 {
        -1
    } else if records.last().0 >= max_id(records.drop_last()) {
        records.last().0 as int
    } else {
        max_id(records.drop_last())
    }
}

/// Turn the (bone id, spawned entity) records of an instanced hierarchy into
/// a dense table indexed by bone id, later writes winning, so channels can
/// be resolved to entities by plain indexing.
pub fn index_records(records: &Vec<(usize, u64)>) -> (r: Vec<Option<u64>>)
    requires
        records@.len() == 0 || max_id(records@) < usize::MAX,
    ensures
        records@.len() == 0 ==> r@.len() == 0,
        records@.len() > 0 ==> r@.len() == max_id(records@) + 1,
        forall|j: int| 0 <= j < r@.len() ==> r@[j] == last_entity(records@, j),
{
    if records.len() == 0 {
        return Vec::new();
    }
    let mut max: usize = 0;
    let mut i: usize = 0;
    while i < records.len()
        invariant
            0 <= i <= records@.len(),
            i == 0 ==> max == 0,
            i > 0 ==> max == if max_id(records@.subrange(0, i as int)) >= 0 {
                max_id(records@.subrange(0, i as int))
            } else {
                0
            },
            max <= usize::MAX,
        decreases records@.len() - i,
    {
        proof {
            lemma_max_id_snoc(records@, i as int);
            lemma_max_id_lt(records@, i as int + 1);
        }
        let id: usize = records[i].0;
        if id > max {
            max = id;
        }
        i = i + 1;
    }
    proof {
        assert(records@.subrange(0, records@.len() as int) =~= records@);
        lemma_max_id_nonneg(records@);
    }
    let mut r: Vec<Option<u64>> = Vec::new();
    let mut j: usize = 0;
    while j < max + 1
        invariant
            0 <= j <= max + 1,
            max < usize::MAX,
            r@.len() == j,
            forall|k: int| 0 <= k < j ==> r@[k] is None,
        decreases max + 1 - j,
    {
        r.push(None);
        j = j + 1;
    }
    proof {
        assert(forall|k: int| 0 <= k < r@.len() ==> r@[k] == last_entity(
            records@.subrange(0, 0),
            k,
        ));
    }
    let mut i: usize = 0;
    while i < records.len()
        invariant
            0 <= i <= records@.len(),
            r@.len() == max + 1,
            max + 1 <= usize::MAX,
            records@.len() > 0 ==> max == max_id(records@),
            forall|k: int| 0 <= k < r@.len() ==> r@[k] == last_entity(
                records@.subrange(0, i as int),
                k,
            ),
        decreases records@.len() - i,
    {
        proof {
            lemma_max_id_ge(records@, i as int);
        }
        let (id, e): (usize, u64) = records[i];
        r[id] = Some(e);
        proof {
            assert(records@.subrange(0, i as int + 1).drop_last() =~= records@.subrange(
                0,
                i as int,
            ));
            assert(records@.subrange(0, i as int + 1).last() == records@[i as int]);
        }
        i = i + 1;
    }
    proof {
        assert(records@.subrange(0, records@.len() as int) =~= records@);
    }
    r
}

proof fn lemma_max_id_snoc(records: Seq<(usize, u64)>, i: int)
    requires
        0 <= i < records.len(),
    ensures
        max_id(records.subrange(0, i + 1)) == if records[i].0 >= max_id(records.subrange(0, i)) {
            records[i].0 as int
        } else {
            max_id(records.subrange(0, i))
        },
{
    assert(records.subrange(0, i + 1).drop_last() =~= records.subrange(0, i));
    assert(records.subrange(0, i + 1).last() == records[i]);
}

proof fn lemma_max_id_nonneg(records: Seq<(usize, u64)>)
    requires
        records.len() > 0,
    ensures
        max_id(records) >= 0,
    decreases records.len(),
{
    if records.len() > 1 {
        lemma_max_id_nonneg(records.drop_last());
    }
}

proof fn lemma_max_id_lt(records: Seq<(usize, u64)>, i: int)
    requires
        0 < i <= records.len(),
    ensures
        max_id(records.subrange(0, i)) <= max_id(records),
    decreases records.len() - i,
{
    if i < records.len() {
        lemma_max_id_snoc(records, i);
        lemma_max_id_lt(records, i + 1);
    } else {
        assert(records.subrange(0, i) =~= records);
    }
}

proof fn lemma_max_id_ge(records: Seq<(usize, u64)>, i: int)
    requires
        0 <= i < records.len(),
    ensures
        records[i].0 <= max_id(records),
    decreases records.len(),
{
    if i == records.len() - 1 {
    } else {
        assert(records.drop_last()[i] == records[i]);
        lemma_max_id_ge(records.drop_last(), i);
    }
}


/// Every authored channel in a list is well formed.
pub open spec fn channels_wf(channels: Seq<(usize, Channel)>) -> bool {
    forall|k: int| 0 <= k < channels.len() ==> (#[trigger] channels[k]).1.wf()
}

/// Every channel's bone id resolves to a spawned entity in the table.
pub open spec fn channels_resolvable(
    channels: Seq<(usize, Channel)>,
    bone_ids: Seq<Option<u64>>,
) -> bool {
    forall|k: int| 0 <= k < channels.len() ==> (#[trigger] channels[k]).0 < bone_ids.len()
        && bone_ids[channels[k].0 as int] is Some
}

/// The entity the table resolves a bone id to (meaningful only where the
/// id resolves).
pub open spec fn entity_of(table: Seq<Option<u64>>, idx: int) -> u64 {
    if 0 <= idx < table.len() {
        match table[idx] {
            Some(e) => e,
            None => 0,
        }
    } else {
        0
    }
}

/// The authoring calls one recorded animation contributes, in order, once
/// its bone ids are resolved through the table.
pub open spec fn entry_calls(
    name: Seq<char>,
    pairs: Seq<(usize, Channel)>,
    table: Seq<Option<u64>>,
) -> Seq<(Seq<char>, u64, Channel)>
    decreases pairs.len(),
{
    if pairs.len() == 0 {
        Seq::<(Seq<char>, u64, Channel)>::empty()
    } else {
        seq![(name, entity_of(table, pairs[0].0 as int), pairs[0].1)] + entry_calls(
            name,
            pairs.subrange(1, pairs.len() as int),
            table,
        )
    }
}

/// All authoring calls of the recorded animations, in recording order.
pub open spec fn resolved_calls(
    entries: Seq<(String, Vec<(usize, Channel)>)>,
    table: Seq<Option<u64>>,
) -> Seq<(Seq<char>, u64, Channel)>
    decreases entries.len(),
{
    if entries.len() == 0 {
        Seq::<(Seq<char>, u64, Channel)>::empty()
    } else {
        entry_calls(entries[0].0@, entries[0].1@, table) + resolved_calls(
            entries.subrange(1, entries.len() as int),
            table,
        )
    }
}

proof fn lemma_entry_calls_snoc(
    name: Seq<char>,
    pairs: Seq<(usize, Channel)>,
    table: Seq<Option<u64>>,
    m: int,
)
    requires
        0 <= m < pairs.len(),
    ensures
        entry_calls(name, pairs.take(m + 1), table) == entry_calls(name, pairs.take(m), table).push(
            (name, entity_of(table, pairs[m].0 as int), pairs[m].1),
        ),
    decreases m,
{
    let call = (name, entity_of(table, pairs[m].0 as int), pairs[m].1);
    if m == 0 {
        assert(pairs.take(1)[0] == pairs[0]);
        assert(pairs.take(1).subrange(1, 1) =~= Seq::<(usize, Channel)>::empty());
        assert(pairs.take(0) =~= Seq::<(usize, Channel)>::empty());
        assert(entry_calls(name, pairs.take(1), table) =~= entry_calls(
            name,
            pairs.take(0),
            table,
        ).push(call));
    } else {
        let tail = pairs.subrange(1, pairs.len() as int);
        assert(pairs.take(m + 1)[0] == pairs[0]);
        assert(pairs.take(m)[0] == pairs[0]);
        assert(pairs.take(m + 1).subrange(1, m + 1) =~= tail.take(m));
        assert(pairs.take(m).subrange(1, m) =~= tail.take(m - 1));
        assert(tail[m - 1] == pairs[m]);
        lemma_entry_calls_snoc(name, tail, table, m - 1);
        assert(seq![(name, entity_of(table, pairs[0].0 as int), pairs[0].1)] + entry_calls(
            name,
            tail.take(m - 1),
            table,
        ).push(call) =~= (seq![(name, entity_of(table, pairs[0].0 as int), pairs[0].1)]
            + entry_calls(name, tail.take(m - 1), table)).push(call));
    }
}

proof fn lemma_resolved_calls_snoc(
    entries: Seq<(String, Vec<(usize, Channel)>)>,
    table: Seq<Option<u64>>,
    i: int,
)
    requires
        0 <= i < entries.len(),
    ensures
        resolved_calls(entries.take(i + 1), table) == resolved_calls(entries.take(i), table)
            + entry_calls(entries[i].0@, entries[i].1@, table),
    decreases i,
{
    if i == 0 {
        assert(entries.take(1)[0] == entries[0]);
        assert(entries.take(1).subrange(1, 1) =~= Seq::<(String, Vec<(usize, Channel)>)>::empty());
        assert(entries.take(0) =~= Seq::<(String, Vec<(usize, Channel)>)>::empty());
        assert(resolved_calls(entries.take(1), table) =~= resolved_calls(entries.take(0), table)
            + entry_calls(entries[0].0@, entries[0].1@, table));
    } else {
        let tail = entries.subrange(1, entries.len() as int);
        assert(entries.take(i + 1)[0] == entries[0]);
        assert(entries.take(i)[0] == entries[0]);
        assert(entries.take(i + 1).subrange(1, i + 1) =~= tail.take(i));
        assert(entries.take(i).subrange(1, i) =~= tail.take(i - 1));
        assert(tail[i - 1] == entries[i]);
        lemma_resolved_calls_snoc(tail, table, i - 1);
        let head = entry_calls(entries[0].0@, entries[0].1@, table);
        assert(head + (resolved_calls(tail.take(i - 1), table) + entry_calls(
            entries[i].0@,
            entries[i].1@,
            table,
        )) =~= (head + resolved_calls(tail.take(i - 1), table)) + entry_calls(
            entries[i].0@,
            entries[i].1@,
            table,
        ));
    }
}

/// The authored description of one skeleton: its bone hierarchy and its
/// named animations, each a list of (bone id, channel) pairs.
#[derive(Debug)]
pub struct Animations {
    pub root: Bone,
    pub animations: Vec<(String, Vec<(usize, Channel)>)>,
}

impl Animations {
    pub fn new(root: Bone) -> (r: Animations)
        ensures
            r.root == root,
            r.animations@.len() == 0,
    {
        Animations { root, animations: Vec::new() }
    }

    /// Record a named animation's channels; a repeated name replaces the
    /// earlier recording wholesale.
    #[verifier::loop_isolation(false)]
    pub fn add_animation(&mut self, name: String, channels: Vec<(usize, Channel)>)
        ensures
            final(self).root == old(self).root,
            (forall|k: int| 0 <= k < old(self).animations@.len() ==> (#[trigger] old(
                self,
            ).animations@[k]).0@ != name@) ==> final(self).animations@ == old(
                self,
            ).animations@.push((name, channels)),
            forall|j: int|
                (0 <= j < old(self).animations@.len() && (#[trigger] old(
                    self,
                ).animations@[j]).0@ == name@ && (forall|k: int| 0 <= k < j ==> (#[trigger] old(
                    self,
                ).animations@[k]).0@ != name@)) ==> final(self).animations@ == old(
                    self,
                ).animations@.update(j, (name, channels)),
    {
        let mut j: usize = 0;
        while j < self.animations.len()
            invariant
                0 <= j <= self.animations@.len(),
                *self == *old(self),
                forall|k: int| 0 <= k < j ==> (#[trigger] self.animations@[k]).0@ != name@,
            decreases self.animations@.len() - j,
        {
            let e = &self.animations[j];
            if e.0 == name {
                self.animations[j] = (name, channels);
                return ;
            }
            j = j + 1;
        }
        self.animations.push((name, channels));
    }

    /// Resolve every recorded channel's bone id through the spawned-entity
    /// table and author the result into a fresh bank: the returned bank is
    /// exactly what feeding every resolved (name, entity, channel) call, in
    /// recording order, to an empty bank's `add_animation` builds. The
    /// first id that does not resolve aborts the whole instancing with an
    /// error, exactly as tearing the half-built instance down again would.
    #[verifier::loop_isolation(false)]
    #[verifier::rlimit(60)]
    pub fn instance(self, bone_ids: &Vec<Option<u64>>) -> (r: Result<AnimationBank, ()>)
        requires
            forall|j: int| 0 <= j < self.animations@.len() ==> channels_wf(
                (#[trigger] self.animations@[j]).1@,
            ),
        ensures
            r is Ok <==> (forall|j: int| 0 <= j < self.animations@.len() ==> channels_resolvable(
                (#[trigger] self.animations@[j]).1@,
                bone_ids@,
            )),
            r matches Ok(bank) ==> bank.wf() && bank.setting_animation is None
                && bank.current_animation is None && bank.complete_animation is None,
            r matches Ok(bank) ==> exists|b0: AnimationBank|
                {
                    &&& #[trigger] crate::bank::authored(
                        b0,
                        resolved_calls(self.animations@, bone_ids@),
                        bank,
                    )
                    &&& b0.animations@.len() == 0
                    &&& b0.setting_animation is None
                    &&& b0.current_animation is None
                    &&& b0.complete_animation is None
                },
    {
        let mut bank = AnimationBank::new();
        let ghost b0 = bank;
        let mut entries = self.animations;
        let ghost orig = entries@;
        let ghost table = bone_ids@;
        while entries.len() > 0
            invariant
                entries@.len() <= orig.len(),
                entries@ == orig.subrange(orig.len() - entries@.len(), orig.len() as int),
                forall|j: int| 0 <= j < orig.len() - entries@.len() ==> channels_resolvable(
                    (#[trigger] orig[j]).1@,
                    table,
                ),
                crate::bank::authored(
                    b0,
                    resolved_calls(orig.take(orig.len() - entries@.len()), table),
                    bank,
                ),
                bank.wf(),
                bank.setting_animation is None,
                bank.current_animation is None,
                bank.complete_animation is None,
            decreases entries@.len(),
        {
            let ghost i = orig.len() - entries@.len();
            let (name, mut channels) = entries.remove(0);
            proof {
                assert(orig.subrange(i, orig.len() as int)[0] == orig[i]);
                assert(orig.subrange(i, orig.len() as int).remove(0) =~= orig.subrange(
                    i + 1,
                    orig.len() as int,
                ));
            }
            let ghost chans = orig[i].1@;
            while channels.len() > 0
                invariant
                    0 <= i < orig.len(),
                    name == orig[i].0,
                    chans == orig[i].1@,
                    channels@.len() <= chans.len(),
                    channels@ == chans.subrange(chans.len() - channels@.len(), chans.len() as int),
                    channels_wf(chans),
                    forall|k: int| 0 <= k < chans.len() - channels@.len() ==> (
                    #[trigger] chans[k]).0 < table.len() && table[chans[k].0 as int] is Some,
                    crate::bank::authored(
                        b0,
                        resolved_calls(orig.take(i), table) + entry_calls(
                            orig[i].0@,
                            chans.take(chans.len() - channels@.len()),
                            table,
                        ),
                        bank,
                    ),
                    bank.wf(),
                    bank.setting_animation is None,
                    bank.current_animation is None,
                    bank.complete_animation is None,
                decreases channels@.len(),
            {
                let ghost m = chans.len() - channels@.len();
                let (idx, ch) = channels.remove(0);
                proof {
                    assert(chans.subrange(m, chans.len() as int)[0] == chans[m]);
                    assert(chans.subrange(m, chans.len() as int).remove(0) =~= chans.subrange(
                        m + 1,
                        chans.len() as int,
                    ));
                }
                if idx >= bone_ids.len() {
                    proof {
                        assert(!channels_resolvable(orig[i].1@, table));
                    }
                    return Err(());
                }
                let e: u64 = match bone_ids[idx] {
                    Some(e) => e,
                    None => {
                        proof {
                            assert(!channels_resolvable(orig[i].1@, table));
                        }
                        return Err(());
                    },
                };
                let ghost gch = ch;
                let ghost pre_bank = bank;
                let ghost cs = resolved_calls(orig.take(i), table) + entry_calls(
                    orig[i].0@,
                    chans.take(m),
                    table,
                );
                bank.add_animation(&name, e, ch);
                proof {
                    assert(e == entity_of(table, chans[m].0 as int));
                    assert(gch == chans[m].1);
                    crate::bank::lemma_authored_snoc(
                        b0,
                        cs,
                        pre_bank,
                        (orig[i].0@, e, gch),
                        bank,
                    );
                    lemma_entry_calls_snoc(orig[i].0@, chans, table, m);
                    assert(cs.push((orig[i].0@, e, gch)) =~= resolved_calls(orig.take(i), table)
                        + entry_calls(orig[i].0@, chans.take(m + 1), table));
                }
            }
            proof {
                assert(chans.take(chans.len() as int) =~= chans);
                assert(channels_resolvable(orig[i].1@, table));
                lemma_resolved_calls_snoc(orig, table, i);
            }
        }
        proof {
            assert(orig.take(orig.len() as int) =~= orig);
            assert(crate::bank::authored(b0, resolved_calls(orig, table), bank));
        }
        Ok(bank)
    }
}

} // verus!