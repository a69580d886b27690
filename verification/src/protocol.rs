//! The decisions of threads that share a tree without locks.
//!
//! Threads change a slot by compare-and-swap on its state. Between two steps of
//! a thread anything may have changed, so each operation is a loop: look at the
//! slot of the key, decide on a step, try it, and decide how to go on. This
//! module makes these decisions; whoever owns the shared memory performs the
//! steps and reports what came of them. An operation with exclusive access is
//! the special case where every step succeeds.
//!
//! A subtree is rebuilt under a freeze: the pointer to it is tagged, so that
//! others wait, then its pairs are copied, and then the pointer is swapped for
//! a new subtree. An operation that was already below the pointer checks after
//! its step that the pointer is what it was, and starts again if not.

use vstd::prelude::*;

use crate::config::Config;
use crate::insert::InsertResult;
use crate::node::{
    is_child, SLOT_CHILD, SLOT_CHILD_STALE, SLOT_DATA, SLOT_EMPTY, SLOT_TOMBSTONE, SLOT_WRITING,
};

verus! {

/// A child pointer as it was loaded.
#[derive(Clone, Copy, Debug, PartialEq, Eq, Structural)]
pub enum ChildPointer {
    /// No child is there.
    Null,
    /// A child that is being rebuilt.
    Frozen,
    /// A child.
    Node,
}

/// What a thread sees in the slot of its key.
#[derive(Clone, Copy, Debug, PartialEq, Eq, Structural)]
pub enum Seen {
    /// Another thread is writing.
    Writing,
    /// Nothing.
    Empty,
    /// A removed pair.
    Tombstone,
    /// A pair with the key.
    SameKey,
    /// A pair with another key.
    OtherKey,
    /// A child that is being rebuilt.
    Frozen,
    /// A child pointer that is not there.
    NoChild,
    /// A child.
    Child,
    /// No known state.
    Unknown,
}

/// What the slot holds, by its state byte. `same_key` counts if the slot holds
/// a pair and `child` if it holds a child.
pub open spec fn seen(state: u8, same_key: bool, child: ChildPointer) -> Seen {
    if state == SLOT_WRITING {
        Seen::Writing
    } else if state == SLOT_EMPTY {
        Seen::Empty
    } else if state == SLOT_TOMBSTONE {
        Seen::Tombstone
    } else if state == SLOT_DATA {
        if same_key {
            Seen::SameKey
        } else {
            Seen::OtherKey
        }
    } else if state == SLOT_CHILD || state == SLOT_CHILD_STALE {
        match child {
            ChildPointer::Frozen => Seen::Frozen,
            ChildPointer::Null => Seen::NoChild,
            ChildPointer::Node => Seen::Child,
        }
    } else {
        Seen::Unknown
    }
}

/// Tell what a slot holds.
pub fn observe(state: u8, same_key: bool, child: ChildPointer) -> (r: Seen)
    ensures
        r == seen(state, same_key, child),
{
    match state {
        SLOT_WRITING => Seen::Writing,
        SLOT_EMPTY => Seen::Empty,
        SLOT_TOMBSTONE => Seen::Tombstone,
        SLOT_DATA => if same_key {
            Seen::SameKey
        } else {
            Seen::OtherKey
        },
        _ => if is_child(state) {
            match child {
                ChildPointer::Frozen => Seen::Frozen,
                ChildPointer::Null => Seen::NoChild,
                ChildPointer::Node => Seen::Child,
            }
        } else {
            Seen::Unknown
        },
    }
}

/// A step of a lookup.
#[derive(Clone, Copy, Debug, PartialEq, Eq, Structural)]
pub enum LookupStep {
    /// The pair is the one.
    Hit,
    /// The key is absent.
    Miss,
    /// Go on in the child.
    Descend,
}

/// The step of a lookup. A lookup never waits: a slot that is being written
/// counts as absent, and a frozen child can still be read.
pub fn lookup_step(s: Seen) -> (r: LookupStep)
    ensures
        r is Hit <==> s is SameKey,
        r is Descend <==> s is Child || s is Frozen,
{
    match s {
        Seen::SameKey => LookupStep::Hit,
        Seen::Child | Seen::Frozen => LookupStep::Descend,
        _ => LookupStep::Miss,
    }
}

/// A step of a traversal in key order.
#[derive(Clone, Copy, Debug, PartialEq, Eq, Structural)]
pub enum VisitStep {
    /// Yield the pair.
    Yield,
    /// Go through the child.
    Descend,
    /// Look again.
    Reread,
    /// Go to the next slot.
    Skip,
}

/// The step of a traversal. It waits for a slot that is being written, so that
/// a copy made for a rebuild misses no pair.
pub fn visit_step(state: u8, child: ChildPointer) -> (r: VisitStep)
    ensures
        r is Yield <==> state == SLOT_DATA,
        r is Reread <==> state == SLOT_WRITING,
        r is Descend <==> (state == SLOT_CHILD || state == SLOT_CHILD_STALE) && child !is Null,
{
    match observe(state, true, child) {
        Seen::SameKey => VisitStep::Yield,
        Seen::Child | Seen::Frozen => VisitStep::Descend,
        Seen::Writing => VisitStep::Reread,
        _ => VisitStep::Skip,
    }
}

/// A step of an insert.
#[derive(Clone, Copy, Debug, PartialEq, Eq, Structural)]
pub enum InsertStep {
    /// Look at the slot again.
    Reread,
    /// Store the pair in the empty slot.
    ClaimEmpty,
    /// Store the pair in the place of a removed one.
    ClaimTombstone,
    /// Put a child with the new value in the place of the pair.
    ReplaceValue,
    /// Put a child with both pairs in the place of the other pair.
    SplitConflict,
    /// Go on in the child.
    Descend,
    /// Leave the value that is there.
    Keep,
}

/// The step of an insert that replaces an existing value if `overwrite` is set.
pub open spec fn insert_step_for(s: Seen, overwrite: bool) -> InsertStep {
    match s {
        Seen::Empty => InsertStep::ClaimEmpty,
        Seen::Tombstone => InsertStep::ClaimTombstone,
        Seen::SameKey => if overwrite {
            InsertStep::ReplaceValue
        } else {
            InsertStep::Keep
        },
        Seen::OtherKey => InsertStep::SplitConflict,
        Seen::Child => InsertStep::Descend,
        _ => InsertStep::Reread,
    }
}

/// Decide on the step of an insert.
pub fn insert_step(s: Seen, overwrite: bool) -> (r: InsertStep)
    ensures
        r == insert_step_for(s, overwrite),
{
    match s {
        Seen::Empty => InsertStep::ClaimEmpty,
        Seen::Tombstone => InsertStep::ClaimTombstone,
        Seen::SameKey => if overwrite {
            InsertStep::ReplaceValue
        } else {
            InsertStep::Keep
        },
        Seen::OtherKey => InsertStep::SplitConflict,
        Seen::Child => InsertStep::Descend,
        Seen::Writing | Seen::Frozen | Seen::NoChild | Seen::Unknown => InsertStep::Reread,
    }
}

/// The step adds a key that the tree did not have.
pub open spec fn adds_key(step: InsertStep) -> bool {
    step is ClaimEmpty || step is ClaimTombstone || step is SplitConflict
}

/// How the number of inline pairs of a node changes with a step that succeeds.
pub fn pairs_change(step: InsertStep) -> (r: i8)
    ensures
        r == match step {
            InsertStep::ClaimEmpty | InsertStep::ClaimTombstone => 1i8,
            InsertStep::SplitConflict => -1i8,
            _ => 0i8,
        },
{
    match step {
        InsertStep::ClaimEmpty | InsertStep::ClaimTombstone => 1,
        InsertStep::SplitConflict => -1,
        _ => 0,
    }
}

/// The states between which a compare-and-swap moves a slot, and the state that
/// is published in the end. Between the two the slot is being written.
#[derive(Clone, Copy, Debug, PartialEq, Eq, Structural)]
pub struct SlotChange {
    /// The state that the slot must have.
    pub from: u8,
    /// The state that is published.
    pub to: u8,
}

/// The change of a slot that a step of an insert makes.
pub open spec fn insert_changes(step: InsertStep) -> Option<SlotChange> {
    match step {
        InsertStep::ClaimEmpty => Some(SlotChange { from: SLOT_EMPTY, to: SLOT_DATA }),
        InsertStep::ClaimTombstone => Some(SlotChange { from: SLOT_TOMBSTONE, to: SLOT_DATA }),
        InsertStep::ReplaceValue | InsertStep::SplitConflict => Some(
            SlotChange { from: SLOT_DATA, to: SLOT_CHILD_STALE },
        ),
        _ => None,
    }
}

/// The change of a slot that a step of an insert makes, `None` if it makes
/// none.
pub fn slot_change(step: InsertStep) -> (r: Option<SlotChange>)
    ensures
        r == insert_changes(step),
{
    match step {
        InsertStep::ClaimEmpty => Some(SlotChange { from: SLOT_EMPTY, to: SLOT_DATA }),
        InsertStep::ClaimTombstone => Some(SlotChange { from: SLOT_TOMBSTONE, to: SLOT_DATA }),
        InsertStep::ReplaceValue | InsertStep::SplitConflict => Some(
            SlotChange { from: SLOT_DATA, to: SLOT_CHILD_STALE },
        ),
        _ => None,
    }
}

/// How an insert goes on after a step.
#[derive(Clone, Copy, Debug, PartialEq, Eq, Structural)]
pub enum InsertEnd {
    /// Look at the slot again.
    Reread,
    /// Start again at the root.
    Restart,
    /// The insert is done.
    Done {
        /// What it reports.
        result: InsertResult,
        /// Whether the subtree of the first descent is to be rebuilt.
        rebuild: bool,
    },
}

/// What an insert reports.
pub open spec fn reported(is_new: bool) -> InsertResult {
    if is_new {
        InsertResult::Inserted
    } else {
        InsertResult::Updated
    }
}

/// How an insert goes on after a step that succeeded if `won` is set, and after
/// which the subtree of the first descent was still in place if `reachable` is
/// set. `was_new` tells whether an earlier pass added the key.
pub open spec fn insert_end(
    was_new: bool,
    depth: usize,
    step: InsertStep,
    won: bool,
    reachable: bool,
    config: Config,
) -> InsertEnd {
    if step is Keep {
        InsertEnd::Done { result: reported(was_new), rebuild: false }
    } else if !won || step is Reread || step is Descend {
        InsertEnd::Reread
    } else if !reachable {
        InsertEnd::Restart
    } else if adds_key(step) {
        InsertEnd::Done {
            result: InsertResult::Inserted,
            rebuild: config.auto_rebuild && depth > config.rebuild_depth_threshold,
        }
    } else {
        InsertEnd::Done { result: reported(was_new), rebuild: false }
    }
}

/// The key counts as new after a step: it was new before, or it was added in a
/// subtree that then turned out to have been replaced.
pub open spec fn new_after(was_new: bool, step: InsertStep, won: bool, reachable: bool) -> bool {
    was_new || (won && adds_key(step) && !reachable)
}

/// The state of an insert.
#[derive(Clone, Copy, Debug)]
pub struct InsertRun {
    /// Whether an earlier pass added the key.
    pub was_new: bool,
    /// The number of child nodes that were descended into in this pass.
    pub depth: usize,
}

impl InsertRun {
    /// Begin at the root.
    pub fn new() -> (r: Self)
        ensures
            !r.was_new,
            r.depth == 0,
    {
        InsertRun { was_new: false, depth: 0 }
    }

    /// Go on in a child. Returns whether this is the first descent of the pass,
    /// which is the one to check afterwards and the one to rebuild at.
    pub fn descend(&mut self) -> (first: bool)
        ensures
            first == (old(self).depth == 0),
            final(self).depth == if old(self).depth < usize::MAX {
                (old(self).depth + 1) as usize
            } else {
                usize::MAX
            },
            final(self).was_new == old(self).was_new,
    {
        let first: bool = self.depth == 0;
        self.depth = self.depth.saturating_add(1);
        first
    }

    /// Decide how to go on after a step.
    pub fn finish(&mut self, step: InsertStep, won: bool, reachable: bool, config: &Config) -> (r:
        InsertEnd)
        ensures
            r == insert_end(
                old(self).was_new,
                old(self).depth,
                step,
                won,
                reachable,
                *config,
            ),
            final(self).was_new == new_after(old(self).was_new, step, won, reachable),
            final(self).depth == if r is Restart {
                0
            } else {
                old(self).depth
            },
    {
        let result: InsertResult = if self.was_new {
            InsertResult::Inserted
        } else {
            InsertResult::Updated
        };
        match step {
            InsertStep::Keep => InsertEnd::Done { result, rebuild: false },
            InsertStep::Reread | InsertStep::Descend => InsertEnd::Reread,
            InsertStep::ReplaceValue => {
                if !won {
                    InsertEnd::Reread
                } else if !reachable {
                    self.depth = 0;
                    InsertEnd::Restart
                } else {
                    InsertEnd::Done { result, rebuild: false }
                }
            },
            InsertStep::ClaimEmpty | InsertStep::ClaimTombstone | InsertStep::SplitConflict => {
                if !won {
                    InsertEnd::Reread
                } else if !reachable {
                    self.was_new = true;
                    self.depth = 0;
                    InsertEnd::Restart
                } else {
                    InsertEnd::Done {
                        result: InsertResult::Inserted,
                        rebuild: config.auto_rebuild && self.depth > config.rebuild_depth_threshold,
                    }
                }
            },
        }
    }
}

/// A step of a remove.
#[derive(Clone, Copy, Debug, PartialEq, Eq, Structural)]
pub enum RemoveStep {
    /// Look at the slot again.
    Reread,
    /// The key is absent.
    Absent,
    /// Turn the pair into a tombstone.
    Bury,
    /// Go on in the child.
    Descend,
}

/// The step of a remove.
pub open spec fn remove_step_for(s: Seen) -> RemoveStep {
    match s {
        Seen::SameKey => RemoveStep::Bury,
        Seen::Child => RemoveStep::Descend,
        Seen::Writing | Seen::Frozen => RemoveStep::Reread,
        _ => RemoveStep::Absent,
    }
}

/// Decide on the step of a remove.
pub fn remove_step(s: Seen) -> (r: RemoveStep)
    ensures
        r == remove_step_for(s),
{
    match s {
        Seen::SameKey => RemoveStep::Bury,
        Seen::Child => RemoveStep::Descend,
        Seen::Writing | Seen::Frozen => RemoveStep::Reread,
        Seen::Empty | Seen::Tombstone | Seen::OtherKey | Seen::NoChild | Seen::Unknown =>
            RemoveStep::Absent,
    }
}

/// The change of a slot that a remove makes. The state is swapped at once.
pub open spec fn remove_change() -> SlotChange {
    SlotChange { from: SLOT_DATA, to: SLOT_TOMBSTONE }
}

/// How a remove goes on after a step.
#[derive(Clone, Copy, Debug, PartialEq, Eq, Structural)]
pub enum RemoveEnd {
    /// Look at the slot again.
    Reread,
    /// Start again at the root.
    Restart,
    /// The remove is done.
    Done {
        /// Whether the key was removed.
        removed: bool,
        /// Whether the subtree of the first descent is to be rebuilt.
        rebuild: bool,
    },
}

/// How a remove goes on after a step that succeeded if `won` is set, and after
/// which the subtree of the first descent was still in place if `reachable` is
/// set.
pub open spec fn remove_end(
    was_removed: bool,
    descended: bool,
    step: RemoveStep,
    won: bool,
    reachable: bool,
    crowded: bool,
    config: Config,
) -> RemoveEnd {
    if step is Absent {
        RemoveEnd::Done { removed: was_removed, rebuild: false }
    } else if step !is Bury || !won {
        RemoveEnd::Reread
    } else if !reachable {
        RemoveEnd::Restart
    } else {
        RemoveEnd::Done {
            removed: true,
            rebuild: config.auto_rebuild && crowded && descended,
        }
    }
}

/// The key counts as removed after a step: it was removed before, or it was
/// removed from a subtree that then turned out to have been replaced.
pub open spec fn removed_after(
    was_removed: bool,
    step: RemoveStep,
    won: bool,
    reachable: bool,
) -> bool {
    was_removed || (step is Bury && won && !reachable)
}

/// The state of a remove.
#[derive(Clone, Copy, Debug)]
pub struct RemoveRun {
    /// Whether an earlier pass removed the key.
    pub was_removed: bool,
    /// Whether this pass went into a child.
    pub descended: bool,
}

impl RemoveRun {
    /// Begin at the root.
    pub fn new() -> (r: Self)
        ensures
            !r.was_removed,
            !r.descended,
    {
        RemoveRun { was_removed: false, descended: false }
    }

    /// Go on in a child. Returns whether this is the first descent of the pass.
    pub fn descend(&mut self) -> (first: bool)
        ensures
            first == !old(self).descended,
            final(self).descended,
            final(self).was_removed == old(self).was_removed,
    {
        let first: bool = !self.descended;
        self.descended = true;
        first
    }

    /// Decide how to go on after a step. `crowded` tells whether the node has
    /// too many tombstones now.
    pub fn finish(
        &mut self,
        step: RemoveStep,
        won: bool,
        reachable: bool,
        crowded: bool,
        config: &Config,
    ) -> (r: RemoveEnd)
        ensures
            r == remove_end(
                old(self).was_removed,
                old(self).descended,
                step,
                won,
                reachable,
                crowded,
                *config,
            ),
            final(self).was_removed == removed_after(old(self).was_removed, step, won, reachable),
            final(self).descended == (old(self).descended && r !is Restart),
    {
        match step {
            RemoveStep::Absent => RemoveEnd::Done { removed: self.was_removed, rebuild: false },
            RemoveStep::Reread | RemoveStep::Descend => RemoveEnd::Reread,
            RemoveStep::Bury => {
                if !won {
                    RemoveEnd::Reread
                } else if !reachable {
                    self.was_removed = true;
                    self.descended = false;
                    RemoveEnd::Restart
                } else {
                    RemoveEnd::Done {
                        removed: true,
                        rebuild: config.auto_rebuild && crowded && self.descended,
                    }
                }
            },
        }
    }
}

/// Whether an operation on the map took effect, over all attempts on a root
/// that may be replaced at any time.
#[derive(Clone, Copy, Debug)]
pub struct Tally {
    /// Whether an earlier attempt took effect.
    pub took_effect: bool,
}

impl Tally {
    /// No attempt was made.
    pub fn new() -> (r: Self)
        ensures
            !r.took_effect,
    {
        Tally { took_effect: false }
    }

    /// Count an attempt. Returns whether the operation took effect, or `None` if
    /// the root has changed since and the attempt is to be repeated.
    pub fn settle(&mut self, effect: bool, same_root: bool) -> (r: Option<bool>)
        ensures
            r == if same_root {
                Some(old(self).took_effect || effect)
            } else {
                None
            },
            final(self).took_effect == (old(self).took_effect || (effect && !same_root)),
    {
        if same_root {
            Some(self.took_effect || effect)
        } else {
            if effect {
                self.took_effect = true;
            }
            None
        }
    }
}

/// Whether a rebuild can begin at a slot: it holds a child that no other thread
/// is rebuilding.
pub fn can_freeze(state: u8, child: ChildPointer) -> (r: bool)
    ensures
        r == ((state == SLOT_CHILD || state == SLOT_CHILD_STALE) && child is Node),
{
    is_child(state) && child == ChildPointer::Node
}

/// Whether a subtree with so many pairs is worth rebuilding. Otherwise it is
/// unfrozen again.
pub fn is_worth_rebuilding(pairs: usize) -> (r: bool)
    ensures
        r == (pairs >= 2),
{
    pairs > 1
}

/// One step of an insert and what came of it.
#[derive(Clone, Copy)]
pub struct Attempt {
    /// The step.
    pub step: InsertStep,
    /// Whether it succeeded.
    pub won: bool,
    /// Whether the subtree was still in place afterwards.
    pub reachable: bool,
}

impl Attempt {
    /// The key was added by this attempt.
    pub open spec fn added(self) -> bool {
        self.won && adds_key(self.step)
    }

    /// The insert is done after this attempt.
    pub open spec fn is_last(self) -> bool {
        self.step is Keep || (self.won && self.reachable && !(self.step is Reread)
            && !(self.step is Descend))
    }
}

/// Whether the key counts as new after attempts.
pub open spec fn new_after_all(attempts: Seq<Attempt>) -> bool
    decreases attempts.len(),
{
    if attempts.len() == 0 {
        false
    } else {
        let a = attempts.last();
        new_after(new_after_all(attempts.drop_last()), a.step, a.won, a.reachable)
    }
}

/// After attempts none of which was the last one, the key counts as new if one
/// of them added it.
proof fn lemma_new_after_all(attempts: Seq<Attempt>)
    requires
        forall|i: int| 0 <= i < attempts.len() ==> !(#[trigger] attempts[i]).is_last(),
    ensures
        new_after_all(attempts) <==> exists|i: int|
            0 <= i < attempts.len() && (#[trigger] attempts[i]).added(),
    decreases attempts.len(),
{
    if attempts.len() > 0 {
        let rest = attempts.drop_last();
        let n = attempts.len() - 1;
        assert forall|i: int| 0 <= i < rest.len() implies !(#[trigger] rest[i]).is_last() by {
            assert(!attempts[i].is_last());
        }
        lemma_new_after_all(rest);
        assert(!attempts[n].is_last());
        if exists|i: int| 0 <= i < attempts.len() && (#[trigger] attempts[i]).added() {
            let i = choose|i: int| 0 <= i < attempts.len() && (#[trigger] attempts[i]).added();
            if i < n {
                assert(rest[i].added());
            }
        }
        if new_after_all(rest) {
            let i = choose|i: int| 0 <= i < rest.len() && (#[trigger] rest[i]).added();
            assert(attempts[i].added());
        }
    }
}

/// However often an insert is thrown back to the root, it reports a new key if
/// and only if one of its attempts added the key.
pub proof fn law_insert_reports_what_it_did(attempts: Seq<Attempt>, depth: usize, config: Config)
    requires
        attempts.len() > 0,
        attempts.last().is_last(),
        forall|i: int| 0 <= i < attempts.len() - 1 ==> !(#[trigger] attempts[i]).is_last(),
    ensures
        ({
            let a = attempts.last();
            let was_new = new_after_all(attempts.drop_last());
            let end = insert_end(was_new, depth, a.step, a.won, a.reachable, config);
            &&& end is Done
            &&& end->Done_result is Inserted <==> exists|i: int|
                0 <= i < attempts.len() && (#[trigger] attempts[i]).added()
        }),
{
    let rest = attempts.drop_last();
    let n = attempts.len() - 1;
    assert forall|i: int| 0 <= i < rest.len() implies !(#[trigger] rest[i]).is_last() by {
        assert(!attempts[i].is_last());
    }
    lemma_new_after_all(rest);
    if exists|i: int| 0 <= i < attempts.len() && (#[trigger] attempts[i]).added() {
        let i = choose|i: int| 0 <= i < attempts.len() && (#[trigger] attempts[i]).added();
        if i < n {
            assert(rest[i].added());
        }
    }
    if new_after_all(rest) {
        let i = choose|i: int| 0 <= i < rest.len() && (#[trigger] rest[i]).added();
        assert(attempts[i].added());
    }
    if attempts[n].added() {
        assert(attempts[n].is_last());
    }
}

/// One step of a remove and what came of it.
#[derive(Clone, Copy)]
pub struct RemoveAttempt {
    /// The step.
    pub step: RemoveStep,
    /// Whether it succeeded.
    pub won: bool,
    /// Whether the subtree was still in place afterwards.
    pub reachable: bool,
}

impl RemoveAttempt {
    /// The key was removed by this attempt.
    pub open spec fn removed(self) -> bool {
        self.won && self.step is Bury
    }

    /// The remove is done after this attempt.
    pub open spec fn is_last(self) -> bool {
        self.step is Absent || (self.removed() && self.reachable)
    }
}

/// Whether the key counts as removed after attempts.
pub open spec fn removed_after_all(attempts: Seq<RemoveAttempt>) -> bool
    decreases attempts.len(),
{
    if attempts.len() == 0 {
        false
    } else {
        let a = attempts.last();
        removed_after(removed_after_all(attempts.drop_last()), a.step, a.won, a.reachable)
    }
}

/// After attempts none of which was the last one, the key counts as removed if
/// one of them removed it.
proof fn lemma_removed_after_all(attempts: Seq<RemoveAttempt>)
    requires
        forall|i: int| 0 <= i < attempts.len() ==> !(#[trigger] attempts[i]).is_last(),
    ensures
        removed_after_all(attempts) <==> exists|i: int|
            0 <= i < attempts.len() && (#[trigger] attempts[i]).removed(),
    decreases attempts.len(),
{
    if attempts.len() > 0 {
        let rest = attempts.drop_last();
        let n = attempts.len() - 1;
        assert forall|i: int| 0 <= i < rest.len() implies !(#[trigger] rest[i]).is_last() by {
            assert(!attempts[i].is_last());
        }
        lemma_removed_after_all(rest);
        assert(!attempts[n].is_last());
        if exists|i: int| 0 <= i < attempts.len() && (#[trigger] attempts[i]).removed() {
            let i = choose|i: int| 0 <= i < attempts.len() && (#[trigger] attempts[i]).removed();
            if i < n {
                assert(rest[i].removed());
            }
        }
        if removed_after_all(rest) {
            let i = choose|i: int| 0 <= i < rest.len() && (#[trigger] rest[i]).removed();
            assert(attempts[i].removed());
        }
    }
}

/// However often a remove is thrown back to the root, it reports that it removed
/// the key if and only if one of its attempts did.
pub proof fn law_remove_reports_what_it_did(
    attempts: Seq<RemoveAttempt>,
    descended: bool,
    crowded: bool,
    config: Config,
)
    requires
        attempts.len() > 0,
        attempts.last().is_last(),
        forall|i: int| 0 <= i < attempts.len() - 1 ==> !(#[trigger] attempts[i]).is_last(),
    ensures
        ({
            let a = attempts.last();
            let was_removed = removed_after_all(attempts.drop_last());
            let end = remove_end(
                was_removed,
                descended,
                a.step,
                a.won,
                a.reachable,
                crowded,
                config,
            );
            &&& end is Done
            &&& end->Done_removed <==> exists|i: int|
                0 <= i < attempts.len() && (#[trigger] attempts[i]).removed()
        }),
{
    let rest = attempts.drop_last();
    let n = attempts.len() - 1;
    assert forall|i: int| 0 <= i < rest.len() implies !(#[trigger] rest[i]).is_last() by {
        assert(!attempts[i].is_last());
    }
    lemma_removed_after_all(rest);
    if exists|i: int| 0 <= i < attempts.len() && (#[trigger] attempts[i]).removed() {
        let i = choose|i: int| 0 <= i < attempts.len() && (#[trigger] attempts[i]).removed();
        if i < n {
            assert(rest[i].removed());
        }
    }
    if removed_after_all(rest) {
        let i = choose|i: int| 0 <= i < rest.len() && (#[trigger] rest[i]).removed();
        assert(attempts[i].removed());
    }
    assert(attempts[n].is_last());
}

/// What a tally holds after attempts that were all to be repeated.
pub open spec fn tally_after(effects: Seq<bool>) -> bool
    decreases effects.len(),
{
    effects.len() > 0 && (tally_after(effects.drop_last()) || effects.last())
}

/// However often an operation is repeated on a new root, it is counted once: it
/// is reported to have taken effect if and only if one of its attempts did.
pub proof fn law_repeated_operation_counts_once(effects: Seq<bool>, last: bool)
    ensures
        tally_after(effects) <==> effects.contains(true),
        (tally_after(effects) || last) == tally_after(effects.push(last)),
    decreases effects.len(),
{
    assert(effects.push(last).drop_last() =~= effects);
    if effects.len() > 0 {
        let rest = effects.drop_last();
        law_repeated_operation_counts_once(rest, last);
        if rest.contains(true) {
            let i = choose|i: int| 0 <= i < rest.len() && rest[i] == true;
            assert(effects[i] == true);
        }
        if effects.contains(true) {
            let i = choose|i: int| 0 <= i < effects.len() && effects[i] == true;
            if i < rest.len() {
                assert(rest[i] == true);
            }
        }
    }
}

/// A slot is never taken out of a child state, and a pair is never overwritten:
/// it leaves its slot only as a tombstone or for a child that replaces it.
pub proof fn law_pairs_and_children_stay(step: InsertStep)
    ensures
        insert_changes(step) matches Some(c) ==> {
            &&& c.from != SLOT_CHILD && c.from != SLOT_CHILD_STALE
            &&& c.from == SLOT_DATA ==> c.to == SLOT_CHILD_STALE
        },
        remove_change().from == SLOT_DATA && remove_change().to == SLOT_TOMBSTONE,
{
}

/// A step of an insert or a remove expects the state that was seen.
pub proof fn law_steps_expect_what_was_seen(
    state: u8,
    same_key: bool,
    child: ChildPointer,
    overwrite: bool,
)
    ensures
        insert_changes(insert_step_for(seen(state, same_key, child), overwrite)) matches Some(c)
            ==> c.from == state,
        remove_step_for(seen(state, same_key, child)) is Bury ==> remove_change().from == state,
{
}

} // verus!
