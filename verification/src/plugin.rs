//! The per-tick schedule. The three bank phases and the three player
//! advances must run in a fixed order within one tick: cleanup of the
//! previous tick's notification first, then the start phase, then the
//! stop-check, then the players. That ordering is what makes the completion
//! slot a one-shot event: a notification set this tick stays observable
//! until the next tick's cleanup, and the start phase takes priority over
//! the stop-check, so an animation superseded on the very tick its deadline
//! passes is still recorded as interrupted, never silently dropped.

use vstd::prelude::*;
use crate::bank::{
    animation_cleaner, animation_starter, animation_stopper, bank_after_clean, bank_after_start,
    bank_after_stop, started_rel, AnimationBank,
};
use crate::player::{
    rotation, rotation_rel, scale, scale_rel, translation, translation_rel, Rig, RigBone, MAX_TIME,
};

verus! {

/// Installs the animation schedule into a host game loop; `tick` is the
/// whole per-frame work in the required order.
pub struct SkeletonPlugin;

impl SkeletonPlugin {
    pub fn new() -> (r: SkeletonPlugin) {
        SkeletonPlugin
    }

    /// One full tick: cleanup, start phase, stop-check, then the three
    /// per-attribute player advances, at absolute time `now` with per-tick
    /// delta `delta`.
    pub fn tick(&self, bank: &mut AnimationBank, rig: &mut Rig, now: u64, delta: u64)
        requires
            old(bank).wf(),
            old(rig).wf(),
            now <= u64::MAX - MAX_TIME,
            delta <= MAX_TIME,
        ensures
            final(bank).wf(),
            final(rig).wf(),
            *final(bank) == bank_after_stop(
                bank_after_start(bank_after_clean(*old(bank)), now),
                now,
            ),
            final(rig).bones@.len() == old(rig).bones@.len(),
            exists|m1: Seq<RigBone>, m2: Seq<RigBone>, m3: Seq<RigBone>|
                #![trigger translation_rel(m1, m2, delta as int), rotation_rel(m2, m3, delta as int)]
                {
                    &&& started_rel(old(rig).bones@, m1, bank_after_clean(*old(bank)))
                    &&& translation_rel(m1, m2, delta as int)
                    &&& rotation_rel(m2, m3, delta as int)
                    &&& scale_rel(m3, final(rig).bones@, delta as int)
                },
    {
        animation_cleaner(bank);
        animation_starter(bank, rig, now);
        animation_stopper(bank, now);
        let ghost m1 = rig.bones@;
        translation(rig, delta);
        let ghost m2 = rig.bones@;
        rotation(rig, delta);
        let ghost m3 = rig.bones@;
        scale(rig, delta);
        proof {
            assert(started_rel(old(rig).bones@, m1, bank_after_clean(*old(bank))));
            assert(translation_rel(m1, m2, delta as int));
            assert(rotation_rel(m2, m3, delta as int));
            assert(scale_rel(m3, rig.bones@, delta as int));
        }
    }
}

} // verus!
