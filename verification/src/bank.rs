//! The animation bank: a per-skeleton registry of named animations, the
//! single pending start request, the single active-playback record with its
//! optional stop deadline, and the one-shot completion notification slot,
//! together with the three per-tick orchestration phases.

use vstd::prelude::*;
use crate::interpolation::Line;
use crate::player::{lines_wf, rig_bones_wf, sum_lens, Channel, Player, Rig, RigBone, MAX_TIME};
use crate::skeleton;

verus! {

/// The channels one animation drives on one bone; any subset of the three
/// attributes may be present. An absent attribute means that attribute's
/// player is killed when the animation starts.
#[derive(Debug)]
pub struct BoneAnimation {
    pub entity: u64,
    pub translation: Option<Channel>,
    pub rotation: Option<Channel>,
    pub scale: Option<Channel>,
}

pub open spec fn chan_wf(ch: Option<Channel>) -> bool {
    match ch {
        Some(c) => c.wf(),
        None => true,
    }
}

impl BoneAnimation {
    pub open spec fn wf(self) -> bool {
        chan_wf(self.translation) && chan_wf(self.rotation) && chan_wf(self.scale)
    }
}

/// A named animation's content: its per-bone channel bundles, kept strictly
/// sorted by bone identity, and its duration, used to compute the stop
/// deadline of a non-looping playback. The duration is the maximum of the
/// member channels' durations (the time the longest-running bone needs).
#[derive(Debug)]
pub struct Animation {
    pub duration: u64,
    pub bones: Vec<BoneAnimation>,
}

pub open spec fn bones_all_wf(bones: Seq<BoneAnimation>) -> bool {
    forall|i: int| 0 <= i < bones.len() ==> (#[trigger] bones[i]).wf()
}

pub open spec fn bones_sorted(bones: Seq<BoneAnimation>) -> bool {
    forall|i: int| 0 <= i && i + 1 < bones.len() ==> (#[trigger] bones[i]).entity < bones[i + 1].entity
}

impl Animation {
    pub open spec fn wf(self) -> bool {
        &&& self.duration <= MAX_TIME
        &&& bones_all_wf(self.bones@)
        &&& bones_sorted(self.bones@)
    }
}

/// The first (and, in a well-formed animation, only) bone entry with the
/// given identity.
pub open spec fn anim_find(bones: Seq<BoneAnimation>, entity: u64) -> Option<BoneAnimation>
    decreases bones.len(),
{
    if bones.len() == 0 {
        None
    } else if bones[0].entity == entity {
        Some(bones[0])
    } else {
        anim_find(bones.subrange(1, bones.len() as int), entity)
    }
}

/// The animation stored under the given name.
pub open spec fn find_anim(entries: Seq<(String, Animation)>, name: Seq<char>) -> Option<Animation>
    decreases entries.len(),
{
    if entries.len() == 0 {
        None
    } else if entries[0].0@ == name {
        Some(entries[0].1)
    } else {
        find_anim(entries.subrange(1, entries.len() as int), name)
    }
}

pub proof fn lemma_find_anim_at(entries: Seq<(String, Animation)>, name: Seq<char>, i: int)
    requires
        0 <= i < entries.len(),
        forall|k: int| 0 <= k < i ==> (#[trigger] entries[k]).0@ != name,
        entries[i].0@ == name,
    ensures
        find_anim(entries, name) == Some(entries[i].1),
    decreases i,
{
    if i > 0 {
        let tail = entries.subrange(1, entries.len() as int);
        assert(forall|k: int| 0 <= k < i - 1 ==> (#[trigger] tail[k]).0@ != name);
        assert(tail[i - 1] == entries[i]);
        lemma_find_anim_at(tail, name, i - 1);
    }
}

pub proof fn lemma_find_anim_none(entries: Seq<(String, Animation)>, name: Seq<char>)
    requires
        forall|k: int| 0 <= k < entries.len() ==> (#[trigger] entries[k]).0@ != name,
    ensures
        find_anim(entries, name) is None,
    decreases entries.len(),
{
    if entries.len() > 0 {
        let tail = entries.subrange(1, entries.len() as int);
        assert(forall|k: int| 0 <= k < tail.len() ==> tail[k] == #[trigger] entries[k + 1]);
        lemma_find_anim_none(tail, name);
    }
}

/// What `find_anim` returns is one of the entries, so it inherits their
/// well-formedness.
pub proof fn lemma_find_anim_wf(entries: Seq<(String, Animation)>, name: Seq<char>)
    requires
        forall|k: int| 0 <= k < entries.len() ==> (#[trigger] entries[k]).1.wf(),
    ensures
        find_anim(entries, name) matches Some(a) ==> a.wf(),
    decreases entries.len(),
{
    if entries.len() > 0 {
        let tail = entries.subrange(1, entries.len() as int);
        assert(forall|k: int| 0 <= k < tail.len() ==> tail[k] == #[trigger] entries[k + 1]);
        lemma_find_anim_wf(tail, name);
    }
}

pub proof fn lemma_find_anim_push(
    entries: Seq<(String, Animation)>,
    e: (String, Animation),
    n: Seq<char>,
)
    ensures
        find_anim(entries.push(e), n) == (match find_anim(entries, n) {
            Some(a) => Some(a),
            None => if e.0@ == n {
                Some(e.1)
            } else {
                None::<Animation>
            },
        }),
    decreases entries.len(),
{
    if entries.len() == 0 {
        assert(entries.push(e)[0] == e);
        assert(entries.push(e).subrange(1, 1) =~= Seq::<(String, Animation)>::empty());
        assert(find_anim(entries.push(e).subrange(1, 1), n) is None);
    } else {
        let len = entries.len() as int;
        assert(entries.push(e)[0] == entries[0]);
        assert(entries.push(e).subrange(1, len + 1) =~= entries.subrange(1, len).push(e));
        lemma_find_anim_push(entries.subrange(1, len), e, n);
    }
}

pub proof fn lemma_find_anim_update(
    entries: Seq<(String, Animation)>,
    j: int,
    a2: Animation,
    n: Seq<char>,
)
    requires
        0 <= j < entries.len(),
        forall|k: int| 0 <= k < j ==> (#[trigger] entries[k]).0@ != entries[j].0@,
    ensures
        n != entries[j].0@ ==> find_anim(entries.update(j, (entries[j].0, a2)), n) == find_anim(
            entries,
            n,
        ),
        find_anim(entries.update(j, (entries[j].0, a2)), entries[j].0@) == Some(a2),
    decreases j,
{
    let len = entries.len() as int;
    let upd = entries.update(j, (entries[j].0, a2));
    if j == 0 {
        assert(upd[0] == (entries[0].0, a2));
        assert(upd.subrange(1, len) =~= entries.subrange(1, len));
    } else {
        assert(upd[0] == entries[0]);
        let tail = entries.subrange(1, len);
        assert(upd.subrange(1, len) =~= tail.update(j - 1, (tail[j - 1].0, a2)));
        assert(forall|k: int| 0 <= k < j - 1 ==> (#[trigger] tail[k]).0@ != tail[j - 1].0@);
        lemma_find_anim_update(tail, j - 1, a2, n);
    }
}

pub proof fn lemma_anim_find_at(bones: Seq<BoneAnimation>, entity: u64, i: int)
    requires
        0 <= i < bones.len(),
        forall|k: int| 0 <= k < i ==> (#[trigger] bones[k]).entity != entity,
        bones[i].entity == entity,
    ensures
        anim_find(bones, entity) == Some(bones[i]),
    decreases i,
{
    if i > 0 {
        let tail = bones.subrange(1, bones.len() as int);
        assert(forall|k: int| 0 <= k < i - 1 ==> (#[trigger] tail[k]).entity != entity);
        assert(tail[i - 1] == bones[i]);
        lemma_anim_find_at(tail, entity, i - 1);
    }
}

pub proof fn lemma_anim_find_none(bones: Seq<BoneAnimation>, entity: u64)
    requires
        forall|k: int| 0 <= k < bones.len() ==> (#[trigger] bones[k]).entity != entity,
    ensures
        anim_find(bones, entity) is None,
    decreases bones.len(),
{
    if bones.len() > 0 {
        let tail = bones.subrange(1, bones.len() as int);
        assert(forall|k: int| 0 <= k < tail.len() ==> tail[k] == #[trigger] bones[k + 1]);
        lemma_anim_find_none(tail, entity);
    }
}

pub proof fn lemma_anim_find_insert(bones: Seq<BoneAnimation>, pos: int, ba: BoneAnimation, e: u64)
    requires
        0 <= pos <= bones.len(),
        forall|k: int| 0 <= k < bones.len() ==> (#[trigger] bones[k]).entity != ba.entity,
    ensures
        anim_find(bones.insert(pos, ba), ba.entity) == Some(ba),
        e != ba.entity ==> anim_find(bones.insert(pos, ba), e) == anim_find(bones, e),
    decreases pos,
{
    let len = bones.len() as int;
    let ins = bones.insert(pos, ba);
    if pos == 0 {
        assert(ins[0] == ba);
        assert(ins.subrange(1, len + 1) =~= bones);
    } else {
        assert(ins[0] == bones[0]);
        let tail = bones.subrange(1, len);
        assert(ins.subrange(1, len + 1) =~= tail.insert(pos - 1, ba));
        assert(forall|k: int| 0 <= k < tail.len() ==> tail[k] == #[trigger] bones[k + 1]);
        lemma_anim_find_insert(tail, pos - 1, ba, e);
    }
}

pub proof fn lemma_anim_find_update(bones: Seq<BoneAnimation>, j: int, ba2: BoneAnimation, e: u64)
    requires
        0 <= j < bones.len(),
        ba2.entity == bones[j].entity,
        forall|k: int| 0 <= k < j ==> (#[trigger] bones[k]).entity != bones[j].entity,
    ensures
        e != bones[j].entity ==> anim_find(bones.update(j, ba2), e) == anim_find(bones, e),
        anim_find(bones.update(j, ba2), bones[j].entity) == Some(ba2),
    decreases j,
{
    let len = bones.len() as int;
    let upd = bones.update(j, ba2);
    if j == 0 {
        assert(upd[0] == ba2);
        assert(upd.subrange(1, len) =~= bones.subrange(1, len));
    } else {
        assert(upd[0] == bones[0]);
        let tail = bones.subrange(1, len);
        assert(upd.subrange(1, len) =~= tail.update(j - 1, ba2));
        assert(forall|k: int| 0 <= k < j - 1 ==> (#[trigger] tail[k]).entity != tail[j - 1].entity);
        assert(tail[j - 1] == bones[j]);
        lemma_anim_find_update(tail, j - 1, ba2, e);
    }
}

/// In a strictly sorted bone list all identities are distinct.
pub proof fn lemma_sorted_lt(bones: Seq<BoneAnimation>, i: int, j: int)
    requires
        bones_sorted(bones),
        0 <= i < j < bones.len(),
    ensures
        bones[i].entity < bones[j].entity,
    decreases j - i,
{
    if j > i + 1 {
        lemma_sorted_lt(bones, i, j - 1);
    }
}

/// Inserting a bone entry between its sorted neighbours keeps the list
/// sorted.
#[verifier::rlimit(100)]
pub proof fn lemma_insert_keeps_sorted(bones: Seq<BoneAnimation>, pos: int, fresh: BoneAnimation)
    requires
        bones_sorted(bones),
        0 <= pos <= bones.len(),
        forall|k: int| 0 <= k < pos ==> (#[trigger] bones[k]).entity < fresh.entity,
        pos < bones.len() ==> fresh.entity < bones[pos].entity,
    ensures
        bones_sorted(bones.insert(pos, fresh)),
{
    bones.insert_ensures(pos, fresh);
    let front = bones.subrange(0, pos).push(fresh);
    let back = bones.subrange(pos, bones.len() as int);
    assert(bones.insert(pos, fresh) == front + back);
    assert forall|k: int| 0 <= k && k + 1 < bones.insert(pos, fresh).len() implies (#[trigger] bones.insert(
        pos,
        fresh,
    )[k]).entity < bones.insert(pos, fresh)[k + 1].entity by {
        assert(bones.insert(pos, fresh)[k] == (front + back)[k]);
        assert(bones.insert(pos, fresh)[k + 1] == (front + back)[k + 1]);
        if k + 1 < pos {
            assert((front + back)[k] == bones[k]);
            assert((front + back)[k + 1] == bones[k + 1]);
        } else if k + 1 == pos {
            assert((front + back)[k] == bones[k]);
            assert((front + back)[k + 1] == fresh);
        } else if k == pos {
            assert((front + back)[k] == fresh);
            assert((front + back)[k + 1] == bones[k]);
        } else {
            assert((front + back)[k] == bones[k - 1]);
            assert((front + back)[k + 1] == bones[k]);
        }
    }
}

/// Replacing a bone entry by one with the same identity keeps the list
/// sorted.
#[verifier::rlimit(100)]
pub proof fn lemma_update_keeps_sorted(bones: Seq<BoneAnimation>, pos: int, b: BoneAnimation)
    requires
        bones_sorted(bones),
        0 <= pos < bones.len(),
        b.entity == bones[pos].entity,
    ensures
        bones_sorted(bones.update(pos, b)),
{
    let upd = bones.update(pos, b);
    assert forall|k: int| 0 <= k && k + 1 < upd.len() implies (#[trigger] upd[k]).entity < upd[k
        + 1].entity by {
        assert(upd[k].entity == bones[k].entity);
        assert(upd[k + 1].entity == bones[k + 1].entity);
    }
}

/// One skeleton instance's registry of animations and the three one-slot
/// arbitration cells: the pending start request, the active playback record
/// (name, optional absolute stop deadline), and the one-shot completion
/// notification.
#[derive(Debug)]
pub struct AnimationBank {
    pub animations: Vec<(String, Animation)>,
    pub setting_animation: Option<(bool, String)>,
    pub current_animation: Option<(String, Option<u64>)>,
    pub complete_animation: Option<String>,
}

impl AnimationBank {
    pub open spec fn wf(self) -> bool {
        &&& forall|i: int| 0 <= i < self.animations@.len() ==> (
        #[trigger] self.animations@[i]).1.wf()
        &&& forall|i: int, j: int|
            #![trigger self.animations@[i], self.animations@[j]]
            0 <= i < j < self.animations@.len() ==> self.animations@[i].0@
                != self.animations@[j].0@
    }

    /// An empty bank: no animations, nothing pending, active or completed.
    pub fn new() -> (r: AnimationBank)
        ensures
            r.animations@.len() == 0,
            r.setting_animation is None,
            r.current_animation is None,
            r.complete_animation is None,
            r.wf(),
    {
        AnimationBank {
            animations: Vec::new(),
            setting_animation: None,
            current_animation: None,
            complete_animation: None,
        }
    }

    /// Queue a start request. Calling again before the start phase runs
    /// overwrites the previous request: the last call wins.
    pub fn start_animation(&mut self, name: String, looping: bool)
        ensures
            *final(self) == bank_after_request(*old(self), name, looping),
    {
        self.setting_animation = Some((looping, name));
    }

    /// The currently playing animation's name, if any.
    pub fn active_animation(&self) -> (r: Option<&str>)
        ensures
            match self.current_animation {
                Some((n, _)) => r matches Some(s) && s@ == n@,
                None => r is None,
            },
    {
        match &self.current_animation {
            Some((n, _)) => Some(n.as_str()),
            None => None,
        }
    }

    /// Peek the one-shot completion notification without consuming it; the
    /// cleanup phase is what clears it.
    pub fn check_complete(&self) -> (r: Option<&str>)
        ensures
            match self.complete_animation {
                Some(n) => r matches Some(s) && s@ == n@,
                None => r is None,
            },
    {
        match &self.complete_animation {
            Some(n) => Some(n.as_str()),
            None => None,
        }
    }
}


/// How a start request changes one rig bone's player, for one attribute:
/// a present channel is assigned (with the requested loop flag, cursor
/// rewound); an absent one kills the player, the cursor left as it was.
pub open spec fn assigned_player(op: Player, np: Player, ch: Option<Channel>, looping: bool) -> bool {
    match ch {
        Some(c) => {
            &&& np.looping == looping
            &&& np.idx == 0
            &&& np.time == 0
            &&& np.channel matches Some(nc) && nc.lines@ == c.lines@ && nc.duration == c.duration
        },
        None => np == (Player {
            looping: op.looping,
            channel: None::<Channel>,
            idx: op.idx,
            time: op.time,
        }),
    }
}

/// How the start phase changes one rig bone: untouched unless a request is
/// pending, names a known animation, and that animation has an entry for
/// this bone; then each of the three attributes is assigned or killed.
pub open spec fn started_bone(ob: RigBone, nb: RigBone, bank: AnimationBank) -> bool {
    match bank.setting_animation {
        None => nb == ob,
        Some((looping, name)) => match find_anim(bank.animations@, name@) {
            None => nb == ob,
            Some(a) => match anim_find(a.bones@, ob.entity) {
                None => nb == ob,
                Some(ba) => {
                    &&& nb.entity == ob.entity
                    &&& nb.transform == ob.transform
                    &&& assigned_player(ob.translation, nb.translation, ba.translation, looping)
                    &&& assigned_player(ob.rotation, nb.rotation, ba.rotation, looping)
                    &&& assigned_player(ob.scale, nb.scale, ba.scale, looping)
                },
            },
        },
    }
}

/// The bank after the start phase at absolute time `now`: the request slot
/// is drained; if its name is known, the playback record is replaced (a
/// non-looping start gets the deadline `now + duration`) and whatever was
/// active before lands in the completion slot.
pub open spec fn bank_after_start(bank: AnimationBank, now: u64) -> AnimationBank {
    match bank.setting_animation {
        None => bank,
        Some((looping, name)) => match find_anim(bank.animations@, name@) {
            None => AnimationBank {
                animations: bank.animations,
                setting_animation: None::<(bool, String)>,
                current_animation: bank.current_animation,
                complete_animation: bank.complete_animation,
            },
            Some(a) => AnimationBank {
                animations: bank.animations,
                setting_animation: None::<(bool, String)>,
                current_animation: Some(
                    (
                        name,
                        if looping {
                            None::<u64>
                        } else {
                            Some((now + a.duration) as u64)
                        },
                    ),
                ),
                complete_animation: match bank.current_animation {
                    Some((pn, _)) => Some(pn),
                    None => None::<String>,
                },
            },
        },
    }
}

/// The bank after the stop-check phase at absolute time `now`: an active
/// record whose deadline has been reached or passed is cleared and its name
/// moved into the completion slot.
pub open spec fn bank_after_stop(bank: AnimationBank, now: u64) -> AnimationBank {
    match bank.current_animation {
        Some((n, dl)) => match dl {
            Some(d) => if now >= d {
                AnimationBank {
                    animations: bank.animations,
                    setting_animation: bank.setting_animation,
                    current_animation: None::<(String, Option<u64>)>,
                    complete_animation: Some(n),
                }
            } else {
                bank
            },
            None => bank,
        },
        None => bank,
    }
}

/// The bank after the cleanup phase: the one-shot completion slot cleared.
pub open spec fn bank_after_clean(bank: AnimationBank) -> AnimationBank {
    AnimationBank {
        animations: bank.animations,
        setting_animation: bank.setting_animation,
        current_animation: bank.current_animation,
        complete_animation: None::<String>,
    }
}

/// Index of the entry with the given name, with everything before it known
/// not to match.
fn find_index(entries: &Vec<(String, Animation)>, name: &String) -> (r: Option<usize>)
    ensures
        match r {
            Some(j) => (j as int) < entries@.len() && entries@[j as int].0@ == name@ && (forall|
                k: int,
            | 0 <= k < j ==> (#[trigger] entries@[k]).0@ != name@),
            None => forall|k: int| 0 <= k < entries@.len() ==> (#[trigger] entries@[k]).0@
                != name@,
        },
{
    let mut j: usize = 0;
    while j < entries.len()
        invariant
            0 <= j <= entries@.len(),
            forall|k: int| 0 <= k < j ==> (#[trigger] entries@[k]).0@ != name@,
        decreases entries@.len() - j,
    {
        let e = &entries[j];
        if e.0 == *name {
            return Some(j);
        }
        j = j + 1;
    }
    None
}

/// Index of the bone entry with the given identity, with everything before
/// it known not to match.
fn find_bone_index(bones: &Vec<BoneAnimation>, entity: u64) -> (r: Option<usize>)
    ensures
        match r {
            Some(m) => (m as int) < bones@.len() && bones@[m as int].entity == entity && (forall|
                k: int,
            | 0 <= k < m ==> (#[trigger] bones@[k]).entity != entity),
            None => forall|k: int| 0 <= k < bones@.len() ==> (#[trigger] bones@[k]).entity
                != entity,
        },
{
    let mut m: usize = 0;
    while m < bones.len()
        invariant
            0 <= m <= bones@.len(),
            forall|k: int| 0 <= k < m ==> (#[trigger] bones@[k]).entity != entity,
        decreases bones@.len() - m,
    {
        if bones[m].entity == entity {
            return Some(m);
        }
        m = m + 1;
    }
    None
}

/// Start phase: drain the pending request, if any; look its name up; assign
/// or kill the three players of every rig bone the animation drives; record
/// the new playback (with its stop deadline when not looping) and move the
/// superseded animation's name into the completion slot.
#[verifier::loop_isolation(false)]
pub fn animation_starter(bank: &mut AnimationBank, rig: &mut Rig, now: u64)
    requires
        old(bank).wf(),
        old(rig).wf(),
        now <= u64::MAX - MAX_TIME,
    ensures
        final(bank).wf(),
        final(rig).wf(),
        *final(bank) == bank_after_start(*old(bank), now),
        final(rig).bones@.len() == old(rig).bones@.len(),
        forall|i: int| 0 <= i < old(rig).bones@.len() ==> started_bone(
            #[trigger] old(rig).bones@[i],
            final(rig).bones@[i],
            *old(bank),
        ),
{
    let (looping, name) = match bank.setting_animation.take() {
        Some(t) => t,
        None => {
            return ;
        },
    };
    let j: usize = match find_index(&bank.animations, &name) {
        Some(j) => j,
        None => {
            proof {
                lemma_find_anim_none(bank.animations@, name@);
            }
            return ;
        },
    };
    proof {
        lemma_find_anim_at(old(bank).animations@, name@, j as int);
    }
    let ghost anim = old(bank).animations@[j as int].1;
    let mut i: usize = 0;
    while i < rig.bones.len()
        invariant
            (j as int) < bank.animations@.len(),
            bank.animations == old(bank).animations,
            bank.setting_animation is None,
            bank.current_animation == old(bank).current_animation,
            bank.complete_animation == old(bank).complete_animation,
            0 <= i <= rig.bones@.len(),
            rig.bones@.len() == old(rig).bones@.len(),
            rig_bones_wf(rig.bones@),
            forall|k: int| 0 <= k < i ==> started_bone(
                #[trigger] old(rig).bones@[k],
                rig.bones@[k],
                *old(bank),
            ),
            forall|k: int| i <= k < rig.bones@.len() ==> rig.bones@[k] == #[trigger] old(
                rig,
            ).bones@[k],
        decreases rig.bones@.len() - i,
    {
        let entity: u64 = rig.bones[i].entity;
        proof {
            assert(rig.bones@[i as int] == old(rig).bones@[i as int]);
            assert(old(bank).animations@[j as int].1.wf());
        }
        match find_bone_index(&bank.animations[j].1.bones, entity) {
            None => {
                proof {
                    lemma_anim_find_none(anim.bones@, entity);
                }
            },
            Some(m) => {
                proof {
                    lemma_anim_find_at(anim.bones@, entity, m as int);
                    assert(anim.bones@[m as int].wf());
                }
                let ba = &bank.animations[j].1.bones[m];
                let bone = &mut rig.bones[i];
                match &ba.translation {
                    Some(c) => {
                        bone.translation.set_channel(c, looping);
                        bone.translation.reset();
                    },
                    None => {
                        bone.translation.kill();
                    },
                }
                match &ba.rotation {
                    Some(c) => {
                        bone.rotation.set_channel(c, looping);
                        bone.rotation.reset();
                    },
                    None => {
                        bone.rotation.kill();
                    },
                }
                match &ba.scale {
                    Some(c) => {
                        bone.scale.set_channel(c, looping);
                        bone.scale.reset();
                    },
                    None => {
                        bone.scale.kill();
                    },
                }
            },
        }
        i = i + 1;
    }
    let duration: u64 = bank.animations[j].1.duration;
    proof {
        assert(old(bank).animations@[j as int].1.wf());
    }
    let deadline: Option<u64> = if looping {
        None
    } else {
        Some(now + duration)
    };
    let prev = bank.current_animation.take();
    bank.current_animation = Some((name, deadline));
    bank.complete_animation = match prev {
        Some((pn, _)) => Some(pn),
        None => None,
    };
}

/// Stop-check phase: when the active record's deadline has been reached or
/// passed, clear it and publish its name as completed.
pub fn animation_stopper(bank: &mut AnimationBank, now: u64)
    ensures
        *final(bank) == bank_after_stop(*old(bank), now),
        old(bank).wf() ==> final(bank).wf(),
{
    let stop: bool = match &bank.current_animation {
        Some((_, Some(d))) => now >= *d,
        _ => false,
    };
    if stop {
        match bank.current_animation.take() {
            Some((n, _)) => {
                bank.complete_animation = Some(n);
            },
            None => {},
        }
    }
}

/// Cleanup phase: drain the one-shot completion notification after the
/// consumers of this tick have had their chance to observe it.
pub fn animation_cleaner(bank: &mut AnimationBank)
    ensures
        *final(bank) == bank_after_clean(*old(bank)),
        old(bank).wf() ==> final(bank).wf(),
{
    bank.complete_animation = None;
}


/// The bone entry the bank already holds under (animation name, bone), if
/// any.
pub open spec fn prior_bone(bank: AnimationBank, name: Seq<char>, entity: u64) -> Option<
    BoneAnimation,
> {
    match find_anim(bank.animations@, name) {
        Some(a) => anim_find(a.bones@, entity),
        None => None::<BoneAnimation>,
    }
}

pub open spec fn slot_t(ob: Option<BoneAnimation>) -> Option<Channel> {
    match ob {
        Some(b) => b.translation,
        None => None::<Channel>,
    }
}

pub open spec fn slot_r(ob: Option<BoneAnimation>) -> Option<Channel> {
    match ob {
        Some(b) => b.rotation,
        None => None::<Channel>,
    }
}

pub open spec fn slot_s(ob: Option<BoneAnimation>) -> Option<Channel> {
    match ob {
        Some(b) => b.scale,
        None => None::<Channel>,
    }
}

pub open spec fn prior_duration(bank: AnimationBank, name: Seq<char>) -> int {
    match find_anim(bank.animations@, name) {
        Some(a) => a.duration as int,
        None => 0,
    }
}

/// An attribute slot after authoring: filled with the new channel when it
/// was empty, untouched when it was already set.
pub open spec fn added_slot(prior: Option<Channel>, lines: Seq<Line>, slot: Option<Channel>) -> bool {
    match prior {
        None => slot matches Some(c) && c.lines@ == lines && c.duration == sum_lens(lines),
        Some(_) => slot == prior,
    }
}

/// The animation duration after authoring: it grows to the new channel's
/// duration when the slot was filled and that channel runs longest.
pub open spec fn duration_after(prior: Option<Channel>, dur: int, lines: Seq<Line>) -> int {
    if prior is None {
        if sum_lens(lines) > dur {
            sum_lens(lines)
        } else {
            dur
        }
    } else {
        dur
    }
}

/// Everything one authoring call promises, as a predicate relating the
/// bank before and after it: other names and other bones untouched, the
/// channel landing in its attribute slot only if that slot was still
/// empty, and the duration growing to the longest member channel.
pub open spec fn add_post(
    pre: AnimationBank,
    name: Seq<char>,
    entity: u64,
    channel: skeleton::Channel,
    post: AnimationBank,
) -> bool {
    &&& post.wf()
    &&& post.setting_animation == pre.setting_animation
    &&& post.current_animation == pre.current_animation
    &&& post.complete_animation == pre.complete_animation
    &&& forall|n: Seq<char>| n != name ==> #[trigger] find_anim(post.animations@, n) == find_anim(
        pre.animations@,
        n,
    )
    &&& find_anim(post.animations@, name) matches Some(a2) && {
        let pb = match find_anim(pre.animations@, name) {
            Some(a) => anim_find(a.bones@, entity),
            None => None::<BoneAnimation>,
        };
        let pdur = match find_anim(pre.animations@, name) {
            Some(a) => a.duration as int,
            None => 0,
        };
        &&& forall|e: u64| e != entity ==> #[trigger] anim_find(a2.bones@, e) == (match find_anim(
            pre.animations@,
            name,
        ) {
            Some(a) => anim_find(a.bones@, e),
            None => None::<BoneAnimation>,
        })
        &&& anim_find(a2.bones@, entity) matches Some(b2) && b2.entity == entity && {
            match channel {
                skeleton::Channel::Translation(_) => {
                    &&& added_slot(slot_t(pb), channel.lines(), b2.translation)
                    &&& b2.rotation == slot_r(pb)
                    &&& b2.scale == slot_s(pb)
                    &&& a2.duration == duration_after(slot_t(pb), pdur, channel.lines())
                },
                skeleton::Channel::Rotation(_) => {
                    &&& added_slot(slot_r(pb), channel.lines(), b2.rotation)
                    &&& b2.translation == slot_t(pb)
                    &&& b2.scale == slot_s(pb)
                    &&& a2.duration == duration_after(slot_r(pb), pdur, channel.lines())
                },
                skeleton::Channel::Scale(_) => {
                    &&& added_slot(slot_s(pb), channel.lines(), b2.scale)
                    &&& b2.translation == slot_t(pb)
                    &&& b2.rotation == slot_r(pb)
                    &&& a2.duration == duration_after(slot_s(pb), pdur, channel.lines())
                },
            }
        }
    }
}

/// The bank grew out of `pre` by exactly these authoring calls, in order.
pub open spec fn authored(
    pre: AnimationBank,
    calls: Seq<(Seq<char>, u64, skeleton::Channel)>,
    post: AnimationBank,
) -> bool
    decreases calls.len(),
{
    if calls.len() == 0 {
        post == pre
    } else {
        exists|mid: AnimationBank|
            #[trigger] add_post(pre, calls[0].0, calls[0].1, calls[0].2, mid) && authored(
                mid,
                calls.subrange(1, calls.len() as int),
                post,
            )
    }
}

/// One more authoring call extends the chain at its end.
pub proof fn lemma_authored_snoc(
    pre: AnimationBank,
    calls: Seq<(Seq<char>, u64, skeleton::Channel)>,
    mid: AnimationBank,
    call: (Seq<char>, u64, skeleton::Channel),
    post: AnimationBank,
)
    requires
        authored(pre, calls, mid),
        add_post(mid, call.0, call.1, call.2, post),
    ensures
        authored(pre, calls.push(call), post),
    decreases calls.len(),
{
    if calls.len() == 0 {
        assert(calls.push(call)[0] == call);
        assert(calls.push(call).subrange(1, 1) =~= Seq::<(Seq<char>, u64, skeleton::Channel)>::empty());
        assert(authored(post, calls.push(call).subrange(1, 1), post));
        assert(add_post(pre, call.0, call.1, call.2, post));
    } else {
        let n = calls.len() as int;
        let m0 = choose|m0: AnimationBank|
            #[trigger] add_post(pre, calls[0].0, calls[0].1, calls[0].2, m0) && authored(
                m0,
                calls.subrange(1, n),
                mid,
            );
        lemma_authored_snoc(m0, calls.subrange(1, n), mid, call, post);
        assert(calls.push(call)[0] == calls[0]);
        assert(calls.push(call).subrange(1, n + 1) =~= calls.subrange(1, n).push(call));
    }
}

enum Kind {
    Tr,
    Ro,
    Sc,
}

/// First position whose bone identity is not below `entity` in a sorted
/// bone list.
fn lower_bound(bones: &Vec<BoneAnimation>, entity: u64) -> (pos: usize)
    ensures
        pos <= bones@.len(),
        forall|k: int| 0 <= k < pos ==> (#[trigger] bones@[k]).entity < entity,
        (pos as int) < bones@.len() ==> bones@[pos as int].entity >= entity,
{
    let mut pos: usize = 0;
    while pos < bones.len()
        invariant
            0 <= pos <= bones@.len(),
            forall|k: int| 0 <= k < pos ==> (#[trigger] bones@[k]).entity < entity,
        decreases bones@.len() - pos,
    {
        if bones[pos].entity >= entity {
            return pos;
        }
        pos = pos + 1;
    }
    pos
}


/// Author one channel onto one animation: find or insert the bone entry
/// (keeping the list sorted by identity), fill the attribute slot if it is
/// still empty, and let the duration grow to the new channel's if needed.
#[verifier::loop_isolation(false)]
#[verifier::rlimit(100)]
fn add_channel(a: &mut Animation, entity: u64, kind: Kind, c: Channel)
    requires
        old(a).wf(),
        c.wf(),
    ensures
        final(a).wf(),
        forall|e: u64| e != entity ==> #[trigger] anim_find(final(a).bones@, e) == anim_find(
            old(a).bones@,
            e,
        ),
        ({
            let pb = anim_find(old(a).bones@, entity);
            let pdur = old(a).duration as int;
            anim_find(final(a).bones@, entity) matches Some(b2) && b2.entity == entity && (
            match kind {
                Kind::Tr => {
                    &&& added_slot(slot_t(pb), c.lines@, b2.translation)
                    &&& b2.rotation == slot_r(pb)
                    &&& b2.scale == slot_s(pb)
                    &&& final(a).duration == duration_after(slot_t(pb), pdur, c.lines@)
                },
                Kind::Ro => {
                    &&& added_slot(slot_r(pb), c.lines@, b2.rotation)
                    &&& b2.translation == slot_t(pb)
                    &&& b2.scale == slot_s(pb)
                    &&& final(a).duration == duration_after(slot_r(pb), pdur, c.lines@)
                },
                Kind::Sc => {
                    &&& added_slot(slot_s(pb), c.lines@, b2.scale)
                    &&& b2.translation == slot_t(pb)
                    &&& b2.rotation == slot_r(pb)
                    &&& final(a).duration == duration_after(slot_s(pb), pdur, c.lines@)
                },
            })
        }),
{
    let ghost bones1 = a.bones@;
    let cdur: u64 = c.duration;
    let pos: usize = lower_bound(&a.bones, entity);
    let exists_bone: bool = pos < a.bones.len() && a.bones[pos].entity == entity;
    proof {
        if exists_bone {
            lemma_anim_find_at(bones1, entity, pos as int);
        } else {
            assert forall|k: int| 0 <= k < bones1.len() implies (#[trigger] bones1[k]).entity
                != entity by {
                if k > pos {
                    lemma_sorted_lt(bones1, pos as int, k);
                }
            }
            lemma_anim_find_none(bones1, entity);
        }
    }
    if !exists_bone {
        a.bones.insert(
            pos,
            BoneAnimation { entity, translation: None, rotation: None, scale: None },
        );
        proof {
            let fresh = BoneAnimation {
                entity,
                translation: None::<Channel>,
                rotation: None::<Channel>,
                scale: None::<Channel>,
            };
            lemma_anim_find_insert(bones1, pos as int, fresh, entity);
            assert forall|e: u64| e != entity implies #[trigger] anim_find(
                bones1.insert(pos as int, fresh),
                e,
            ) == anim_find(bones1, e) by {
                lemma_anim_find_insert(bones1, pos as int, fresh, e);
            }
        }
    }
    let ghost bones2 = a.bones@;
    let ghost b_old = bones2[pos as int];
    let mut filled: bool = false;
    {
        let b = &mut a.bones[pos];
        match kind {
            Kind::Tr => {
                if b.translation.is_none() {
                    b.translation = Some(c);
                    filled = true;
                }
            },
            Kind::Ro => {
                if b.rotation.is_none() {
                    b.rotation = Some(c);
                    filled = true;
                }
            },
            Kind::Sc => {
                if b.scale.is_none() {
                    b.scale = Some(c);
                    filled = true;
                }
            },
        }
    }
    let ghost b_new = a.bones@[pos as int];
    proof {
        assert(a.bones@ =~= bones2.update(pos as int, b_new));
        assert(forall|k: int| 0 <= k < pos ==> (#[trigger] bones2[k]).entity < entity);
        lemma_anim_find_update(bones2, pos as int, b_new, entity);
        assert forall|e: u64| e != entity implies #[trigger] anim_find(
            bones2.update(pos as int, b_new),
            e,
        ) == anim_find(bones2, e) by {
            lemma_anim_find_update(bones2, pos as int, b_new, e);
        }
    }
    if filled {
        if cdur > a.duration {
            a.duration = cdur;
        }
    }
    proof {
        let bones3 = a.bones@;
        assert(bones3 =~= bones2.update(pos as int, b_new));
        if !exists_bone {
            lemma_insert_keeps_sorted(
                bones1,
                pos as int,
                BoneAnimation {
                    entity,
                    translation: None::<Channel>,
                    rotation: None::<Channel>,
                    scale: None::<Channel>,
                },
            );
        }
        assert(bones_sorted(bones2));
        lemma_update_keeps_sorted(bones2, pos as int, b_new);
        assert(bones_all_wf(bones2));
        assert(b_new.wf());
        assert(bones_all_wf(bones3)) by {
            assert(forall|k: int| 0 <= k < bones3.len() && k != pos ==> bones3[k]
                == #[trigger] bones2[k]);
        }
    }
}

impl AnimationBank {
    /// Author one channel into the animation called `name`, creating the
    /// animation and the bone entry as needed. Repeated calls for the same
    /// name accumulate bones; repeated calls for the same (name, bone)
    /// accumulate attributes without overwriting one already set. The
    /// animation's duration grows to the longest member channel's duration.
    #[verifier::loop_isolation(false)]
    #[verifier::rlimit(100)]
    pub fn add_animation(&mut self, name: &String, entity: u64, channel: skeleton::Channel)
        requires
            old(self).wf(),
            channel.wf(),
        ensures
            final(self).wf(),
            add_post(*old(self), name@, entity, channel, *final(self)),
    {
        let (kind, lines): (Kind, Vec<Line>) = match channel {
            skeleton::Channel::Translation(l) => (Kind::Tr, l),
            skeleton::Channel::Rotation(l) => (Kind::Ro, l),
            skeleton::Channel::Scale(l) => (Kind::Sc, l),
        };
        let c: Channel = match Channel::new(lines) {
            Some(c) => c,
            None => {
                proof {
                    assert(false);
                }
                return ;
            },
        };
        let cdur: u64 = c.duration;
        let j: usize = match find_index(&self.animations, name) {
            Some(j) => {
                proof {
                    lemma_find_anim_at(old(self).animations@, name@, j as int);
                }
                j
            },
            None => {
                proof {
                    lemma_find_anim_none(self.animations@, name@);
                }
                let jj = self.animations.len();
                self.animations.push(
                    (name.clone(), Animation { duration: 0, bones: Vec::new() }),
                );
                proof {
                    lemma_find_anim_push(
                        old(self).animations@,
                        self.animations@.last(),
                        name@,
                    );
                }
                jj
            },
        };
        let ghost g1 = self.animations@;
        proof {
            assert(g1[j as int].0@ == name@);
            assert(forall|k: int| 0 <= k < j ==> (#[trigger] g1[k]).0@ != name@);
            assert(match find_anim(old(self).animations@, name@) {
                Some(a) => a == g1[j as int].1,
                None => g1[j as int].1.duration == 0 && g1[j as int].1.bones@.len() == 0,
            });
        }
        {
            let entry = &mut self.animations[j];
            add_channel(&mut entry.1, entity, kind, c);
        }
        let ghost a_final = self.animations@[j as int].1;
        proof {
            assert(self.animations@ =~= g1.update(j as int, (g1[j as int].0, a_final)));
            lemma_find_anim_update(g1, j as int, a_final, name@);
            assert forall|n: Seq<char>| n != name@ implies #[trigger] find_anim(
                self.animations@,
                n,
            ) == find_anim(old(self).animations@, n) by {
                lemma_find_anim_update(g1, j as int, a_final, n);
                if g1.len() > old(self).animations@.len() {
                    assert(g1 =~= old(self).animations@.push((g1[j as int].0, g1[j as int].1)));
                    lemma_find_anim_push(
                        old(self).animations@,
                        (g1[j as int].0, g1[j as int].1),
                        n,
                    );
                }
            }
            if g1.len() > old(self).animations@.len() {
                assert(g1[j as int].1.bones@.len() == 0);
                assert(anim_find(g1[j as int].1.bones@, entity) is None);
            }
            assert(final(self).wf()) by {
                assert(forall|k: int| 0 <= k < self.animations@.len() ==> (
                #[trigger] self.animations@[k]).1.wf());
                assert forall|x: int, y: int|
                    #![trigger self.animations@[x], self.animations@[y]]
                    0 <= x < y < self.animations@.len() implies self.animations@[x].0@
                    != self.animations@[y].0@ by {
                    assert(self.animations@[x].0 == g1[x].0);
                    assert(self.animations@[y].0 == g1[y].0);
                    if g1.len() > old(self).animations@.len() {
                        if y == g1.len() - 1 {
                            assert(g1[y].0@ == name@);
                        }
                    }
                }
            }
        }
    }
}



/// Pointwise relation for the start phase over a whole rig.
pub open spec fn started_rel(ob: Seq<RigBone>, nb: Seq<RigBone>, bank: AnimationBank) -> bool {
    &&& nb.len() == ob.len()
    &&& forall|i: int| 0 <= i < ob.len() ==> started_bone(#[trigger] ob[i], nb[i], bank)
}

/// The bank after a start request is queued.
pub open spec fn bank_after_request(bank: AnimationBank, name: String, looping: bool) -> AnimationBank {
    AnimationBank {
        animations: bank.animations,
        setting_animation: Some((looping, name)),
        current_animation: bank.current_animation,
        complete_animation: bank.complete_animation,
    }
}

/// Queueing a start request twice before a tick runs leaves only the second
/// request in effect: the request slot holds one pending start, last call
/// wins.
pub proof fn lemma_restart_overrides(
    bank: AnimationBank,
    n1: String,
    l1: bool,
    n2: String,
    l2: bool,
)
    ensures
        bank_after_request(bank_after_request(bank, n1, l1), n2, l2) == bank_after_request(
            bank,
            n2,
            l2,
        ),
{
}

/// Starting animation B while A is active: the start phase takes priority,
/// so after this tick's phases A's name sits in the completion slot even if
/// A's own deadline passed on this very tick, B is the active animation,
/// and the notification is published exactly once: the next cleanup drains
/// it. The one excluded start is a non-looping B of zero duration, whose
/// own deadline would already have passed in the same tick.
pub proof fn lemma_interrupt_completes_once(bank: AnimationBank, now: u64)
    requires
        bank.wf(),
        now <= u64::MAX - MAX_TIME,
        bank.setting_animation matches Some((lb, b)) && find_anim(bank.animations@, b@)
            matches Some(ab) && (lb || ab.duration >= 1),
        bank.current_animation matches Some((a, dl)),
    ensures
        ({
            let after = bank_after_stop(bank_after_start(bank_after_clean(bank), now), now);
            &&& after.current_animation matches Some((n, _)) && n
                == bank.setting_animation.unwrap().1
            &&& after.complete_animation == Some(bank.current_animation.unwrap().0)
            &&& bank_after_clean(after).complete_animation is None
        }),
{
    lemma_find_anim_wf(bank.animations@, bank.setting_animation.unwrap().1@);
}

/// A non-looping animation with deadline `d`, with no start pending, stays
/// active at every tick before `d`; the first tick at or past `d` clears it
/// and publishes its name exactly once (the next cleanup drains the
/// notification).
pub proof fn lemma_deadline_stops(bank: AnimationBank, now: u64)
    requires
        bank.wf(),
        bank.setting_animation is None,
        bank.current_animation matches Some((n, dl)) && dl matches Some(d),
    ensures
        ({
            let after = bank_after_stop(bank_after_start(bank_after_clean(bank), now), now);
            &&& now < bank.current_animation.unwrap().1.unwrap() ==> after.current_animation
                == bank.current_animation && after.complete_animation is None
            &&& now >= bank.current_animation.unwrap().1.unwrap() ==> after.current_animation
                is None && after.complete_animation == Some(bank.current_animation.unwrap().0)
                && bank_after_clean(after).complete_animation is None
        }),
{
}

} // verus!