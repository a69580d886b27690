//! Tests of the decisions of threads that share a tree.

use scry_index::insert::InsertResult;
use scry_index::node::{
    SLOT_CHILD, SLOT_CHILD_STALE, SLOT_DATA, SLOT_EMPTY, SLOT_TOMBSTONE, SLOT_WRITING,
};
use scry_index::protocol::{
    can_freeze, insert_step, is_worth_rebuilding, lookup_step, observe, pairs_change, remove_step,
    slot_change, visit_step, ChildPointer, InsertEnd, InsertRun, InsertStep, LookupStep, RemoveEnd,
    RemoveRun, RemoveStep, Seen, SlotChange, Tally, VisitStep,
};
use scry_index::Config;

const NODE: ChildPointer = ChildPointer::Node;

#[test]
fn slots_are_told_apart() {
    assert_eq!(observe(SLOT_EMPTY, true, NODE), Seen::Empty);
    assert_eq!(observe(SLOT_WRITING, true, NODE), Seen::Writing);
    assert_eq!(observe(SLOT_TOMBSTONE, true, NODE), Seen::Tombstone);
    assert_eq!(observe(SLOT_DATA, true, NODE), Seen::SameKey);
    assert_eq!(observe(SLOT_DATA, false, NODE), Seen::OtherKey);
    for state in [SLOT_CHILD, SLOT_CHILD_STALE] {
        assert_eq!(observe(state, true, NODE), Seen::Child);
        assert_eq!(observe(state, true, ChildPointer::Frozen), Seen::Frozen);
        assert_eq!(observe(state, true, ChildPointer::Null), Seen::NoChild);
    }
    assert_eq!(observe(6, true, NODE), Seen::Unknown);
}

#[test]
fn readers_never_wait() {
    assert_eq!(lookup_step(Seen::SameKey), LookupStep::Hit);
    assert_eq!(lookup_step(Seen::Child), LookupStep::Descend);
    assert_eq!(lookup_step(Seen::Frozen), LookupStep::Descend);
    for s in [Seen::Empty, Seen::Writing, Seen::Tombstone, Seen::OtherKey, Seen::NoChild] {
        assert_eq!(lookup_step(s), LookupStep::Miss);
    }
}

#[test]
fn traversals_wait_for_writers() {
    assert_eq!(visit_step(SLOT_DATA, NODE), VisitStep::Yield);
    assert_eq!(visit_step(SLOT_WRITING, NODE), VisitStep::Reread);
    assert_eq!(visit_step(SLOT_CHILD, NODE), VisitStep::Descend);
    assert_eq!(visit_step(SLOT_CHILD_STALE, ChildPointer::Frozen), VisitStep::Descend);
    assert_eq!(visit_step(SLOT_CHILD, ChildPointer::Null), VisitStep::Skip);
    assert_eq!(visit_step(SLOT_EMPTY, NODE), VisitStep::Skip);
    assert_eq!(visit_step(SLOT_TOMBSTONE, NODE), VisitStep::Skip);
}

#[test]
fn writers_wait_for_frozen_children() {
    assert_eq!(insert_step(Seen::Frozen, true), InsertStep::Reread);
    assert_eq!(remove_step(Seen::Frozen), RemoveStep::Reread);
    assert_eq!(insert_step(Seen::Writing, false), InsertStep::Reread);
    assert_eq!(remove_step(Seen::Writing), RemoveStep::Reread);
}

#[test]
fn existing_value_is_replaced_or_kept() {
    assert_eq!(insert_step(Seen::SameKey, true), InsertStep::ReplaceValue);
    assert_eq!(insert_step(Seen::SameKey, false), InsertStep::Keep);
}

#[test]
fn pair_counts_follow_the_steps() {
    assert_eq!(pairs_change(InsertStep::ClaimEmpty), 1);
    assert_eq!(pairs_change(InsertStep::ClaimTombstone), 1);
    assert_eq!(pairs_change(InsertStep::SplitConflict), -1);
    assert_eq!(pairs_change(InsertStep::ReplaceValue), 0);
}

#[test]
fn slots_change_as_published() {
    assert_eq!(
        slot_change(InsertStep::ClaimTombstone),
        Some(SlotChange {
            from: SLOT_TOMBSTONE,
            to: SLOT_DATA
        })
    );
    assert_eq!(
        slot_change(InsertStep::SplitConflict),
        Some(SlotChange {
            from: SLOT_DATA,
            to: SLOT_CHILD_STALE
        })
    );
    assert_eq!(slot_change(InsertStep::Keep), None);
}

#[test]
fn failed_step_is_tried_again() {
    let mut run = InsertRun::new();
    let end = run.finish(InsertStep::ClaimEmpty, false, true, &Config::new());
    assert_eq!(end, InsertEnd::Reread);
    assert!(!run.was_new);
}

#[test]
fn key_that_was_added_to_a_lost_subtree_counts_as_new() {
    let config = Config::new();
    let mut run = InsertRun::new();
    assert!(run.descend());
    assert!(!run.descend());
    let end = run.finish(InsertStep::ClaimEmpty, true, false, &config);
    assert_eq!(end, InsertEnd::Restart);
    assert_eq!(run.depth, 0);
    // The rebuilt subtree already has the pair.
    let end = run.finish(InsertStep::ReplaceValue, true, true, &config);
    assert_eq!(
        end,
        InsertEnd::Done {
            result: InsertResult::Inserted,
            rebuild: false
        }
    );
    // Without the lost pass it would have been an update.
    let end = InsertRun::new().finish(InsertStep::ReplaceValue, true, true, &config);
    assert_eq!(
        end,
        InsertEnd::Done {
            result: InsertResult::Updated,
            rebuild: false
        }
    );
}

#[test]
fn deep_insert_asks_for_a_rebuild() {
    let config = Config::new().rebuild_depth_threshold(2);
    for (depth, expected) in [(2, false), (3, true)] {
        let mut run = InsertRun::new();
        for _ in 0..depth {
            run.descend();
        }
        assert_eq!(
            run.finish(InsertStep::SplitConflict, true, true, &config),
            InsertEnd::Done {
                result: InsertResult::Inserted,
                rebuild: expected
            }
        );
    }
}

#[test]
fn key_that_was_removed_from_a_lost_subtree_counts_as_removed() {
    let config = Config::new();
    let mut run = RemoveRun::new();
    assert!(run.descend());
    let end = run.finish(RemoveStep::Bury, true, false, false, &config);
    assert_eq!(end, RemoveEnd::Restart);
    assert!(!run.descended);
    let end = run.finish(RemoveStep::Absent, true, true, false, &config);
    assert_eq!(
        end,
        RemoveEnd::Done {
            removed: true,
            rebuild: false
        }
    );
}

#[test]
fn crowded_child_asks_for_compaction() {
    let config = Config::new();
    let mut run = RemoveRun::new();
    let done = |rebuild: bool| RemoveEnd::Done {
        removed: true,
        rebuild,
    };
    assert_eq!(run.finish(RemoveStep::Bury, true, true, true, &config), done(false));
    run.descend();
    assert_eq!(run.finish(RemoveStep::Bury, true, true, true, &config), done(true));
    assert_eq!(run.finish(RemoveStep::Bury, true, true, false, &config), done(false));
    let off = config.auto_rebuild(false);
    assert_eq!(run.finish(RemoveStep::Bury, true, true, true, &off), done(false));
}

#[test]
fn operation_over_a_replaced_root_counts_once() {
    let mut tally = Tally::new();
    assert_eq!(tally.settle(true, false), None);
    assert_eq!(tally.settle(false, false), None);
    assert_eq!(tally.settle(false, true), Some(true));

    let mut tally = Tally::new();
    assert_eq!(tally.settle(false, false), None);
    assert_eq!(tally.settle(false, true), Some(false));
}

#[test]
fn only_unfrozen_children_are_rebuilt() {
    assert!(can_freeze(SLOT_CHILD, NODE));
    assert!(can_freeze(SLOT_CHILD_STALE, NODE));
    assert!(!can_freeze(SLOT_CHILD, ChildPointer::Frozen));
    assert!(!can_freeze(SLOT_CHILD, ChildPointer::Null));
    assert!(!can_freeze(SLOT_DATA, NODE));
    assert!(!is_worth_rebuilding(1));
    assert!(is_worth_rebuilding(2));
}

/// One of two threads that insert the same key into one slot.
struct Thread {
    run: InsertRun,
    next: Next,
    result: Option<InsertResult>,
}

enum Next {
    Look,
    Try(InsertStep, SlotChange),
    Publish(InsertStep, SlotChange),
}

impl Thread {
    fn advance(&mut self, slot: &mut u8, config: &Config) {
        match self.next {
            Next::Look => {
                let step = insert_step(observe(*slot, true, NODE), true);
                if let Some(change) = slot_change(step) {
                    self.next = Next::Try(step, change);
                } else if step == InsertStep::Descend {
                    // The other thread's child has the key: replace it there.
                    self.result = Some(InsertResult::Updated);
                }
            }
            Next::Try(step, change) => {
                if *slot == change.from {
                    *slot = SLOT_WRITING;
                    self.next = Next::Publish(step, change);
                } else {
                    assert_eq!(self.run.finish(step, false, true, config), InsertEnd::Reread);
                    self.next = Next::Look;
                }
            }
            Next::Publish(step, change) => {
                assert_eq!(*slot, SLOT_WRITING);
                *slot = change.to;
                if let InsertEnd::Done { result, .. } = self.run.finish(step, true, true, config) {
                    self.result = Some(result);
                }
                self.next = Next::Look;
            }
        }
    }
}

#[test]
fn one_of_two_racing_inserts_is_new_in_every_interleaving() {
    let config = Config::new();
    for schedule in 0u32..1 << 12 {
        let mut slot = SLOT_EMPTY;
        let mut threads = [(), ()].map(|_| Thread {
            run: InsertRun::new(),
            next: Next::Look,
            result: None,
        });
        for turn in 0..40 {
            let preferred = if turn < 12 { (schedule >> turn & 1) as usize } else { turn % 2 };
            if threads[preferred].result.is_none() {
                threads[preferred].advance(&mut slot, &config);
            }
        }
        let mut results = threads.map(|t| t.result.unwrap());
        results.sort_by_key(|r| *r == InsertResult::Updated);
        assert_eq!(results, [InsertResult::Inserted, InsertResult::Updated]);
        assert_eq!(slot, SLOT_CHILD_STALE);
    }
}
