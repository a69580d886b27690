//! What threads that share a tree promise each other: no step is taken on a slot that
//! another thread works on, and no operation is done before its effect is in the live
//! tree.

use vstd::prelude::*;

use crate::config::Config;
use crate::insert::InsertResult;
use crate::node::{
    is_child, SLOT_CHILD, SLOT_CHILD_STALE, SLOT_DATA, SLOT_EMPTY, SLOT_TOMBSTONE, SLOT_WRITING,
};
use crate::protocol::{
    can_freeze, insert_end, insert_step, is_worth_rebuilding, lookup_step, new_after, observe,
    pairs_change, remove_end, remove_step, removed_after, slot_change, visit_step, ChildPointer,
    InsertEnd, InsertRun, InsertStep, LookupStep, RemoveEnd, RemoveRun, RemoveStep, Seen,
    SlotChange, Tally, VisitStep,
};

verus! {

/// The step of an insert writes to a slot.
pub open spec fn writes_slot(step: InsertStep) -> bool {
    step is ClaimEmpty || step is ClaimTombstone || step is ReplaceValue || step is SplitConflict
}

/// The step of an insert writes a key that the slot did not lead to.
pub open spec fn writes_new_key(step: InsertStep) -> bool {
    writes_slot(step) && step !is ReplaceValue
}

/// The states of a slot are told apart.
pub proof fn law_slot_states_differ()
    ensures
        seq![
            SLOT_EMPTY,
            SLOT_DATA,
            SLOT_CHILD,
            SLOT_TOMBSTONE,
            SLOT_WRITING,
            SLOT_CHILD_STALE,
        ].no_duplicates(),
        forall|state: u8, r: bool| #[trigger]
            call_ensures(is_child, (state,), r) ==> r == (state == SLOT_CHILD || state
                == SLOT_CHILD_STALE),
{
}

/// A slot is seen as what its state says. A pair is told by its key, and a child by
/// its pointer.
pub proof fn law_slots_are_seen_as_they_are(
    state: u8,
    same_key: bool,
    child: ChildPointer,
    r: Seen,
)
    requires
        call_ensures(observe, (state, same_key, child), r),
    ensures
        r is Writing <==> state == SLOT_WRITING,
        r is Empty <==> state == SLOT_EMPTY,
        r is Tombstone <==> state == SLOT_TOMBSTONE,
        r is SameKey <==> state == SLOT_DATA && same_key,
        r is OtherKey <==> state == SLOT_DATA && !same_key,
        r is Child <==> (state == SLOT_CHILD || state == SLOT_CHILD_STALE) && child is Node,
        r is Frozen <==> (state == SLOT_CHILD || state == SLOT_CHILD_STALE) && child is Frozen,
        r is NoChild <==> (state == SLOT_CHILD || state == SLOT_CHILD_STALE) && child is Null,
{
}

/// A lookup never waits. It finds a pair with its key, goes on in a child, even one
/// that is being rebuilt, and finds nothing else.
pub proof fn law_lookups_never_wait(s: Seen, r: LookupStep)
    requires
        call_ensures(lookup_step, (s,), r),
    ensures
        r is Hit <==> s is SameKey,
        r is Descend <==> s is Child || s is Frozen,
        r is Miss <==> s !is SameKey && s !is Child && s !is Frozen,
{
}

/// A traversal yields every pair, goes through every child, even one that is being
/// rebuilt, and waits for every slot that is being written.
pub proof fn law_traversals_miss_nothing(state: u8, child: ChildPointer, r: VisitStep)
    requires
        call_ensures(visit_step, (state, child), r),
    ensures
        r is Yield <==> state == SLOT_DATA,
        r is Reread <==> state == SLOT_WRITING,
        r is Descend <==> (state == SLOT_CHILD || state == SLOT_CHILD_STALE) && child !is Null,
{
}

/// An insert writes to a slot that is free, or that holds a pair in its way, goes on
/// in a child, and waits as long as another thread writes to the slot or rebuilds the
/// child. A value that is there is replaced only if that is asked for.
pub proof fn law_inserts_wait_for_others(s: Seen, overwrite: bool, r: InsertStep)
    requires
        call_ensures(insert_step, (s, overwrite), r),
    ensures
        r is ClaimEmpty <==> s is Empty,
        r is ClaimTombstone <==> s is Tombstone,
        r is ReplaceValue <==> s is SameKey && overwrite,
        r is Keep <==> s is SameKey && !overwrite,
        r is SplitConflict <==> s is OtherKey,
        r is Descend <==> s is Child,
        r is Reread <==> s is Writing || s is Frozen || s is NoChild || s is Unknown,
{
}

/// A remove buries the pair with its key, goes on in a child, and waits as long as
/// another thread writes to the slot or rebuilds the child. Otherwise the key is
/// absent.
pub proof fn law_removes_wait_for_others(s: Seen, r: RemoveStep)
    requires
        call_ensures(remove_step, (s,), r),
    ensures
        r is Bury <==> s is SameKey,
        r is Descend <==> s is Child,
        r is Reread <==> s is Writing || s is Frozen,
        r is Absent <==> s is Empty || s is Tombstone || s is OtherKey || s is NoChild
            || s is Unknown,
{
}

/// A step of an insert swaps the state that it was decided on for one that says what
/// it wrote: a pair in a free slot, a child in the place of a pair. Only then does the
/// number of inline pairs change.
pub proof fn law_steps_swap_what_they_saw(
    state: u8,
    same_key: bool,
    child: ChildPointer,
    overwrite: bool,
    seen: Seen,
    step: InsertStep,
    change: Option<SlotChange>,
    pairs: i8,
)
    requires
        call_ensures(observe, (state, same_key, child), seen),
        call_ensures(insert_step, (seen, overwrite), step),
        call_ensures(slot_change, (step,), change),
        call_ensures(pairs_change, (step,), pairs),
    ensures
        change is Some <==> writes_slot(step),
        change matches Some(c) ==> {
            &&& c.from == state
            &&& c.to == if state == SLOT_DATA {
                SLOT_CHILD_STALE
            } else {
                SLOT_DATA
            }
        },
        // A pair is stored in a slot without one, or taken out of its slot.
        pairs == match change {
            Some(c) => if c.to == SLOT_DATA {
                1i8
            } else if same_key {
                0i8
            } else {
                -1i8
            },
            None => 0i8,
        },
{
}

/// An insert is done only when its pair is in the live tree: it left the value that
/// was there, or its step succeeded in a subtree that is still in place. A step that
/// succeeded in a subtree that was replaced starts again at the root, and one that
/// did not succeed looks at the slot again.
pub proof fn law_inserts_end_in_the_live_tree(
    run: &mut InsertRun,
    step: InsertStep,
    won: bool,
    reachable: bool,
    config: &Config,
    r: InsertEnd,
)
    requires
        call_ensures(InsertRun::finish, (run, step, won, reachable, config), r),
    ensures
        r is Done <==> step is Keep || (writes_slot(step) && won && reachable),
        r is Restart <==> writes_slot(step) && won && !reachable,
        r is Reread <==> step !is Keep && !(writes_slot(step) && won),
        final(run).depth == if r is Restart {
            0
        } else {
            old(run).depth
        },
{
}

/// An insert reports a new key if its last step, or one in a subtree that was then
/// replaced, wrote it. It asks for a rebuild if it wrote a new key too deep in the
/// tree.
pub proof fn law_inserts_report_new_keys(
    run: &mut InsertRun,
    step: InsertStep,
    won: bool,
    reachable: bool,
    config: &Config,
    r: InsertEnd,
)
    requires
        call_ensures(InsertRun::finish, (run, step, won, reachable, config), r),
    ensures
        r matches InsertEnd::Done { result, rebuild } ==> {
            &&& result == InsertResult::Inserted <==> old(run).was_new || writes_new_key(step)
            &&& rebuild <==> writes_new_key(step) && config.auto_rebuild && old(run).depth
                > config.rebuild_depth_threshold
        },
        final(run).was_new <==> old(run).was_new || (writes_new_key(step) && r is Restart),
{
}

/// A remove is done only when the live tree does not have its key: it saw that the
/// key was absent, or its step succeeded in a subtree that is still in place.
pub proof fn law_removes_end_in_the_live_tree(
    run: &mut RemoveRun,
    step: RemoveStep,
    won: bool,
    reachable: bool,
    crowded: bool,
    config: &Config,
    r: RemoveEnd,
)
    requires
        call_ensures(RemoveRun::finish, (run, step, won, reachable, crowded, config), r),
    ensures
        r is Done <==> step is Absent || (step is Bury && won && reachable),
        r is Restart <==> step is Bury && won && !reachable,
        r is Reread <==> step !is Absent && !(step is Bury && won),
        final(run).descended <==> old(run).descended && r !is Restart,
{
}

/// A remove reports success if its last step, or one in a subtree that was then
/// replaced, buried the pair. It asks for a rebuild if it buried one in a crowded node
/// below the root.
pub proof fn law_removes_report_what_they_buried(
    run: &mut RemoveRun,
    step: RemoveStep,
    won: bool,
    reachable: bool,
    crowded: bool,
    config: &Config,
    r: RemoveEnd,
)
    requires
        call_ensures(RemoveRun::finish, (run, step, won, reachable, crowded, config), r),
    ensures
        r matches RemoveEnd::Done { removed, rebuild } ==> {
            &&& removed <==> old(run).was_removed || step is Bury
            &&& rebuild <==> step is Bury && config.auto_rebuild && crowded && old(run).descended
        },
        final(run).was_removed <==> old(run).was_removed || r is Restart,
{
}

/// The same holds of the ends as they are described for a whole run.
pub proof fn law_ends_are_in_the_live_tree(
    earlier: bool,
    depth: usize,
    insert: InsertStep,
    remove: RemoveStep,
    descended: bool,
    won: bool,
    reachable: bool,
    crowded: bool,
    config: Config,
)
    ensures
        insert_end(earlier, depth, insert, won, reachable, config) is Done <==> insert is Keep || (
        writes_slot(insert) && won && reachable),
        insert_end(earlier, depth, insert, won, reachable, config) is Restart <==> writes_slot(
            insert,
        ) && won && !reachable,
        new_after(earlier, insert, won, reachable) <==> earlier || (writes_new_key(insert) && won
            && !reachable),
        remove_end(earlier, descended, remove, won, reachable, crowded, config) is Done <==> remove
            is Absent || (remove is Bury && won && reachable),
        remove_end(earlier, descended, remove, won, reachable, crowded, config) is Restart
            <==> remove is Bury && won && !reachable,
        removed_after(earlier, remove, won, reachable) <==> earlier || (remove is Bury && won
            && !reachable),
{
}

/// Runs start at the root with nothing done, and only the first step into a child is
/// called the first.
pub proof fn law_runs_count_their_descents(
    insert: &mut InsertRun,
    remove: &mut RemoveRun,
    first_insert: bool,
    first_remove: bool,
)
    requires
        call_ensures(InsertRun::descend, (insert,), first_insert),
        call_ensures(RemoveRun::descend, (remove,), first_remove),
    ensures
        first_insert <==> old(insert).depth == 0,
        old(insert).depth < usize::MAX ==> final(insert).depth == old(insert).depth + 1,
        old(insert).depth == usize::MAX ==> final(insert).depth == usize::MAX,
        final(insert).was_new == old(insert).was_new,
        first_remove <==> !old(remove).descended,
        final(remove).descended,
        final(remove).was_removed == old(remove).was_removed,
        forall|fresh: InsertRun| #[trigger]
            call_ensures(InsertRun::new, (), fresh) ==> !fresh.was_new && fresh.depth == 0,
        forall|fresh: RemoveRun| #[trigger]
            call_ensures(RemoveRun::new, (), fresh) ==> !fresh.was_removed && !fresh.descended,
{
}

/// An operation is settled only on the root that is in place, and takes effect if its
/// last attempt or one on an earlier root did.
pub proof fn law_operations_settle_on_the_live_root(
    tally: &mut Tally,
    effect: bool,
    same_root: bool,
    r: Option<bool>,
)
    requires
        call_ensures(Tally::settle, (tally, effect, same_root), r),
    ensures
        r is Some <==> same_root,
        r matches Some(took) ==> (took <==> old(tally).took_effect || effect),
        !same_root ==> (final(tally).took_effect <==> old(tally).took_effect || effect),
        forall|fresh: Tally| #[trigger]
            call_ensures(Tally::new, (), fresh) ==> !fresh.took_effect,
{
}

/// Only one thread rebuilds a child, and only if it has two pairs or more.
pub proof fn law_children_are_rebuilt_by_one_thread(
    state: u8,
    child: ChildPointer,
    freeze: bool,
    pairs: usize,
    worth: bool,
)
    requires
        call_ensures(can_freeze, (state, child), freeze),
        call_ensures(is_worth_rebuilding, (pairs,), worth),
    ensures
        freeze ==> child !is Frozen && child !is Null,
        freeze <==> (state == SLOT_CHILD || state == SLOT_CHILD_STALE) && child is Node,
        worth <==> pairs != 0 && pairs != 1,
{
}

} // verus!
