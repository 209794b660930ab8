//! Edit scripts in short: each run of steps of one kind over consecutive
//! indices as one range.

use crate::model::EditOp;
use vstd::prelude::*;

verus! {

/// A run of `len` steps of one kind over consecutive indices, the first of
/// them `first`.
#[derive(Clone, Copy, Debug, PartialEq, Eq, Structural)]
pub struct EditRange {
    pub first: EditOp,
    pub len: usize,
}

/// The index that a step carries.
pub open spec fn op_index(op: EditOp) -> usize {
    match op {
        EditOp::Equal(i) => i,
        EditOp::Delete(i) => i,
        EditOp::Insert(j) => j,
    }
}

/// The step of the kind of `op` whose index is larger by `by`.
pub open spec fn shifted(op: EditOp, by: int) -> EditOp {
    match op {
        EditOp::Equal(i) => EditOp::Equal((i + by) as usize),
        EditOp::Delete(i) => EditOp::Delete((i + by) as usize),
        EditOp::Insert(j) => EditOp::Insert((j + by) as usize),
    }
}

/// Whether `next` is of the kind of `prev` and carries the next index.
pub open spec fn continues(prev: EditOp, next: EditOp) -> bool {
    op_index(prev) < usize::MAX && next == shifted(prev, 1)
}

/// The steps that a range stands for.
pub open spec fn range_ops(range: EditRange) -> Seq<EditOp> {
    Seq::new(range.len as nat, |k: int| shifted(range.first, k))
}

/// The last step that a range stands for.
pub open spec fn range_end(range: EditRange) -> EditOp {
    shifted(range.first, range.len - 1)
}

/// The script that a sequence of ranges stands for.
pub open spec fn expanded(ranges: Seq<EditRange>) -> Seq<EditOp>
    decreases ranges.len(),
{
    if ranges.len() == 0 {
        Seq::empty()
    } else {
        expanded(ranges.drop_last()) + range_ops(ranges.last())
    }
}

/// Whether range `r` of `ranges` could take in the first step of the next.
pub open spec fn runs_on(ranges: Seq<EditRange>, r: int) -> bool {
    continues(range_end(ranges[r]), ranges[r + 1].first)
}

/// Whether the ranges are as few as can be: none is empty, none carries an
/// index beyond `usize::MAX`, and none could take in the one after it.
pub open spec fn is_coalesced(ranges: Seq<EditRange>) -> bool {
    &&& forall|r: int|
        0 <= r < ranges.len() ==> (#[trigger] ranges[r]).len >= 1 && op_index(ranges[r].first)
            + ranges[r].len - 1 <= usize::MAX
    &&& forall|r: int| 0 <= r < ranges.len() - 1 ==> !#[trigger] runs_on(ranges, r)
}

/// Whether `next` is of the kind of `prev` and carries the next index.
pub fn follows_on(prev: EditOp, next: EditOp) -> (follows: bool)
    ensures
        follows == continues(prev, next),
{
    match prev {
        EditOp::Equal(i) => match next {
            EditOp::Equal(j) => j > 0 && j - 1 == i,
            _ => false,
        },
        EditOp::Delete(i) => match next {
            EditOp::Delete(j) => j > 0 && j - 1 == i,
            _ => false,
        },
        EditOp::Insert(i) => match next {
            EditOp::Insert(j) => j > 0 && j - 1 == i,
            _ => false,
        },
    }
}

/// Puts each run of steps of one kind over consecutive indices into one
/// range. The ranges stand for the script that was given, and there is no
/// shorter way to write it.
pub fn coalesce(script: &Vec<EditOp>) -> (ranges: Vec<EditRange>)
    ensures
        expanded(ranges@) == script@,
        is_coalesced(ranges@),
{
    let mut ranges: Vec<EditRange> = Vec::new();
    let mut k: usize = 0;
    while k < script.len()
        invariant
            k <= script@.len(),
            expanded(ranges@) == script@.take(k as int),
            is_coalesced(ranges@),
            ranges@.len() > 0 ==> k > 0 && range_end(ranges@.last()) == script@[k - 1],
            ranges@.len() > 0 && k < script@.len() ==> !continues(script@[k - 1], script@[k as int]),
        decreases script@.len() - k,
    {
        let first = script[k];
        let mut len: usize = 1;
        while k + len < script.len() && follows_on(script[k + len - 1], script[k + len])
            invariant
                k < script@.len(),
                script@.len() <= usize::MAX,
                first == script@[k as int],
                1 <= len,
                k + len <= script@.len(),
                op_index(first) + len - 1 <= usize::MAX,
                forall|t: int| 0 <= t < len ==> script@[k + t] == #[trigger] shifted(first, t),
            decreases script@.len() - k - len,
        {
            proof {
                assert(script@[k + (len - 1)] == shifted(first, len - 1));
                assert(script@[k + len] == shifted(first, len as int));
            }
            len += 1;
        }
        let ghost before = ranges@;
        let range = EditRange { first, len };
        ranges.push(range);
        proof {
            assert(ranges@.drop_last() =~= before);
            assert(expanded(ranges@) =~= script@.take(k + len));
            assert forall|r: int| 0 <= r < ranges@.len() - 1 implies !#[trigger] runs_on(
                ranges@,
                r,
            ) by {
                if r < before.len() - 1 {
                    assert(!runs_on(before, r));
                }
            }
        }
        k += len;
    }
    assert(script@.take(k as int) =~= script@);
    ranges
}

} // verus!
