//! What a directory watcher decides between two walks of a tree: which
//! entries were created, which were modified, and which were deleted.
//!
//! The walks themselves, and the metadata of the entries, come from the
//! caller as plain values.

use vstd::prelude::*;

verus! {

/// What happened to an entry between two walks.
#[derive(Clone, Copy, Debug, PartialEq, Eq, Structural)]
pub enum Action {
    Create,
    Modify,
    Delete,
}

/// What is compared of the metadata of an entry: codes for the type of the
/// file and for its permissions, and the three times in a unit of the
/// caller's choice.
#[derive(Clone, Copy, Debug, PartialEq, Eq, Structural)]
pub struct Stamp {
    pub file_type: u8,
    pub is_dir: bool,
    pub modified: u128,
    pub accessed: u128,
    pub created: u128,
    pub permissions: u32,
}

/// An entry as a walk saw it: the bytes of its path and its metadata.
#[derive(Clone, Debug)]
pub struct DirCache {
    pub path: Vec<u8>,
    pub metadata: Stamp,
}

/// A change to report. `index` counts into the later walk for an entry that
/// was created or modified, and into the earlier walk for one that was
/// deleted.
#[derive(Clone, Copy, Debug, PartialEq, Eq, Structural)]
pub struct Change {
    pub action: Action,
    pub index: usize,
}

/// The metadata of the first entry of `state` that has the given path.
pub open spec fn first_stamp(state: Seq<DirCache>, path: Seq<u8>) -> Option<Stamp>
    decreases state.len(),
{
    if state.len() == 0 {
        None
    } else {
        match first_stamp(state.drop_last(), path) {
            Some(stamp) => Some(stamp),
            None => if state.last().path@ == path {
                Some(state.last().metadata)
            } else {
                None
            },
        }
    }
}

/// Whether an entry of `state` before entry `t` has the path of entry `t` and
/// metadata other than `old`.
pub open spec fn changed_before(state: Seq<DirCache>, t: int, old: Stamp) -> bool {
    exists|s: int| 0 <= s < t && #[trigger] state[s].path@ == state[t].path@ && state[s].metadata != old
}

/// What is reported of entry `t` of the later walk.
///
/// A path that the earlier walk did not see was created. A path that it saw
/// was modified where the metadata differ; once that was reported of a path,
/// the earlier walk counts as not having seen it, so that an entry that
/// repeats the path was created.
pub open spec fn verdict(prev_state: Seq<DirCache>, new_state: Seq<DirCache>, t: int) -> Option<
    Action,
> {
    match first_stamp(prev_state, new_state[t].path@) {
        None => Some(Action::Create),
        Some(old) => if changed_before(new_state, t, old) {
            Some(Action::Create)
        } else if new_state[t].metadata != old {
            Some(Action::Modify)
        } else {
            None
        },
    }
}

/// Whether no entry of `new_state` has the path of entry `k` of `prev_state`.
pub open spec fn vanished(prev_state: Seq<DirCache>, new_state: Seq<DirCache>, k: int) -> bool {
    forall|t: int| 0 <= t < new_state.len() ==> (#[trigger] new_state[t]).path@ != prev_state[k].path@
}

/// The changes to report of the first `t` entries of the later walk, in the
/// order of the walk.
pub open spec fn reported(prev_state: Seq<DirCache>, new_state: Seq<DirCache>, t: int) -> Seq<
    Change,
>
    decreases t,
{
    if t <= 0 {
        Seq::empty()
    } else {
        let before = reported(prev_state, new_state, t - 1);
        match verdict(prev_state, new_state, t - 1) {
            Some(action) => before.push(Change { action, index: (t - 1) as usize }),
            None => before,
        }
    }
}

/// The deletions to report of the first `k` entries of the earlier walk, in
/// the order of the walk.
pub open spec fn deleted(prev_state: Seq<DirCache>, new_state: Seq<DirCache>, k: int) -> Seq<
    Change,
>
    decreases k,
{
    if k <= 0 {
        Seq::empty()
    } else {
        let before = deleted(prev_state, new_state, k - 1);
        if vanished(prev_state, new_state, k - 1) {
            before.push(Change { action: Action::Delete, index: (k - 1) as usize })
        } else {
            before
        }
    }
}

/// Whether the two entries have the same metadata, as far as it is compared.
pub fn is_same(attr1: &Stamp, attr2: &Stamp) -> (same: bool)
    ensures
        same == (*attr1 == *attr2),
{
    attr1.file_type == attr2.file_type && attr1.is_dir == attr2.is_dir && attr1.modified
        == attr2.modified && attr1.accessed == attr2.accessed && attr1.created == attr2.created
        && attr1.permissions == attr2.permissions
}

/// Whether the two paths are the same bytes.
pub fn same_path(first: &Vec<u8>, second: &Vec<u8>) -> (same: bool)
    ensures
        same == (first@ == second@),
{
    if first.len() != second.len() {
        return false;
    }
    let mut k: usize = 0;
    while k < first.len()
        invariant
            first@.len() == second@.len(),
            k <= first@.len(),
            forall|l: int| 0 <= l < k ==> first@[l] == second@[l],
        decreases first@.len() - k,
    {
        if first[k] != second[k] {
            return false;
        }
        k += 1;
    }
    assert(first@ =~= second@);
    true
}

/// The metadata of the first entry of `state` that has the given path.
pub fn find_stamp(state: &Vec<DirCache>, path: &Vec<u8>) -> (found: Option<Stamp>)
    ensures
        found == first_stamp(state@, path@),
{
    let mut k: usize = 0;
    while k < state.len()
        invariant
            k <= state@.len(),
            first_stamp(state@.take(k as int), path@) is None,
        decreases state@.len() - k,
    {
        proof {
            assert(state@.take(k + 1).drop_last() =~= state@.take(k as int));
        }
        if same_path(&state[k].path, path) {
            proof {
                lemma_first_stamp_stays(state@, path@, k + 1);
            }
            return Some(state[k].metadata);
        }
        k += 1;
    }
    assert(state@.take(k as int) =~= state@);
    None
}

/// Once the first entries of `state` hold the path, more entries change
/// nothing about the metadata found for it.
pub proof fn lemma_first_stamp_stays(state: Seq<DirCache>, path: Seq<u8>, k: int)
    requires
        0 <= k <= state.len(),
        first_stamp(state.take(k), path) is Some,
    ensures
        first_stamp(state, path) == first_stamp(state.take(k), path),
    decreases state.len() - k,
{
    if k < state.len() {
        assert(state.take(k + 1).drop_last() =~= state.take(k));
        lemma_first_stamp_stays(state, path, k + 1);
    } else {
        assert(state.take(k) =~= state);
    }
}

/// Whether an entry of `state` before entry `t` has the path of entry `t` and
/// metadata other than `old`.
pub fn seen_changed(state: &Vec<DirCache>, t: usize, old: &Stamp) -> (changed: bool)
    requires
        t < state@.len(),
    ensures
        changed == changed_before(state@, t as int, *old),
{
    let mut s: usize = 0;
    while s < t
        invariant
            s <= t,
            t < state@.len(),
            forall|r: int|
                0 <= r < s ==> !(#[trigger] state@[r].path@ == state@[t as int].path@
                    && state@[r].metadata != *old),
        decreases t - s,
    {
        if same_path(&state[s].path, &state[t].path) && !is_same(&state[s].metadata, old) {
            return true;
        }
        s += 1;
    }
    false
}

/// Whether no entry of `new_state` has the path of entry `k` of `prev_state`.
pub fn is_gone(prev_state: &Vec<DirCache>, new_state: &Vec<DirCache>, k: usize) -> (gone: bool)
    requires
        k < prev_state@.len(),
    ensures
        gone == vanished(prev_state@, new_state@, k as int),
{
    let mut t: usize = 0;
    while t < new_state.len()
        invariant
            t <= new_state@.len(),
            k < prev_state@.len(),
            forall|r: int|
                0 <= r < t ==> (#[trigger] new_state@[r]).path@ != prev_state@[k as int].path@,
        decreases new_state@.len() - t,
    {
        if same_path(&new_state[t].path, &prev_state[k].path) {
            return false;
        }
        t += 1;
    }
    true
}

/// The changes between the earlier walk `prev_state` and the later walk
/// `new_state`: first what was created or modified, in the order of the
/// later walk, then what was deleted, in the order of the earlier walk.
pub fn changes(prev_state: &Vec<DirCache>, new_state: &Vec<DirCache>) -> (events: Vec<Change>)
    ensures
        events@ == reported(prev_state@, new_state@, new_state@.len() as int) + deleted(
            prev_state@,
            new_state@,
            prev_state@.len() as int,
        ),
{
    let mut events: Vec<Change> = Vec::new();
    let mut t: usize = 0;
    while t < new_state.len()
        invariant
            t <= new_state@.len(),
            events@ == reported(prev_state@, new_state@, t as int),
        decreases new_state@.len() - t,
    {
        let item = &new_state[t];
        match find_stamp(prev_state, &item.path) {
            None => {
                events.push(Change { action: Action::Create, index: t });
            },
            Some(old) => {
                if seen_changed(new_state, t, &old) {
                    events.push(Change { action: Action::Create, index: t });
                } else if !is_same(&item.metadata, &old) {
                    events.push(Change { action: Action::Modify, index: t });
                }
            },
        }
        t += 1;
    }
    let ghost first_part = events@;
    let mut k: usize = 0;
    while k < prev_state.len()
        invariant
            k <= prev_state@.len(),
            events@ == first_part + deleted(prev_state@, new_state@, k as int),
        decreases prev_state@.len() - k,
    {
        if is_gone(prev_state, new_state, k) {
            events.push(Change { action: Action::Delete, index: k });
            assert(events@ =~= first_part + deleted(prev_state@, new_state@, k + 1));
        }
        k += 1;
    }
    events
}

} // verus!
