//! Lookup algorithm for the learned index.

use vstd::prelude::*;

use crate::key::Key;
use crate::node::{Node, SLOT_DATA};
use crate::protocol::{lookup_step, observe, ChildPointer, LookupStep};

verus! {

/// Look up a key in the tree, returning a reference to the value if found.
pub fn get<'a, K: Key, V>(node: &'a Node<K, V>, key: &K) -> (r: Option<&'a V>)
    requires
        node.wf(),
    ensures
        r == match node.lookup(key@) {
            Some(v) => Some(&v),
            None => None,
        },
{
    let mut current: &'a Node<K, V> = node;
    loop
        invariant
            current.wf(),
            current.lookup(key@) == node.lookup(key@),
        decreases current,
    {
        let idx: usize = current.predict_slot(key);
        let state: u8 = current.slot_state(idx);
        let same_key: bool = state == SLOT_DATA && current.read_key(idx).same(key);
        match lookup_step(observe(state, same_key, ChildPointer::Node)) {
            LookupStep::Hit => {
                return Some(current.read_value(idx));
            },
            LookupStep::Miss => {
                return None;
            },
            LookupStep::Descend => {
                match current.load_child(idx) {
                    Some(child) => {
                        current = child;
                    },
                    None => {
                        return None;
                    },
                }
            },
        }
    }
}

} // verus!
