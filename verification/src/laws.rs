//! What holds of every diff: the script rebuilds both sequences, costs what
//! the longest common subsequence leaves over, and no alignment is cheaper.

use crate::model::canonical_script;
use crate::model::canonical_script_prefix;
use crate::model::deletions;
use crate::model::destination_span;
use crate::model::edit_distance;
use crate::model::insertions;
use crate::model::is_alignment;
use crate::model::is_walk;
use crate::model::lcs_len;
use crate::model::lcs_prefix;
use crate::model::lemma_canonical_prefix;
use crate::model::lemma_lcs_grows_slowly;
use crate::model::matches_kept;
use crate::model::rebuilt_destination;
use crate::model::rebuilt_source;
use crate::model::script_cost;
use crate::model::source_span;
use crate::model::EditOp;
use vstd::prelude::*;

verus! {

/// The script of identical steps `Equal(0)`, ..., `Equal(len - 1)`.
pub open spec fn all_equal(len: nat) -> Seq<EditOp> {
    Seq::new(len, |k: int| EditOp::Equal(k as usize))
}

/// A path of the edit graph rebuilds, from its `Equal` and `Delete` steps,
/// the source units that it has consumed, and from its `Equal` and `Insert`
/// steps the destination units that it has consumed.
pub proof fn lemma_walk_rebuilds_prefixes<T>(script: Seq<EditOp>, a: Seq<T>, b: Seq<T>)
    requires
        is_walk(script, a, b),
    ensures
        source_span(script) <= a.len(),
        destination_span(script) <= b.len(),
        rebuilt_source(script, a) == a.take(source_span(script) as int),
        rebuilt_destination(script, a, b) == b.take(destination_span(script) as int),
    decreases script.len(),
{
    if script.len() == 0 {
        assert(rebuilt_source(script, a) =~= a.take(0));
        assert(rebuilt_destination(script, a, b) =~= b.take(0));
    } else {
        let before = script.drop_last();
        lemma_walk_rebuilds_prefixes(before, a, b);
        let i = source_span(before) as int;
        let j = destination_span(before) as int;
        match script.last() {
            EditOp::Equal(_) => {
                assert(a.take(i).push(a[i]) =~= a.take(i + 1));
                assert(b.take(j).push(b[j]) =~= b.take(j + 1));
            },
            EditOp::Delete(_) => {
                assert(a.take(i).push(a[i]) =~= a.take(i + 1));
            },
            EditOp::Insert(_) => {
                assert(b.take(j).push(b[j]) =~= b.take(j + 1));
            },
        }
    }
}

/// Every alignment of `a` with `b` rebuilds `a` from its `Equal` and `Delete`
/// steps and `b` from its `Equal` and `Insert` steps.
pub proof fn lemma_alignment_rebuilds_both<T>(script: Seq<EditOp>, a: Seq<T>, b: Seq<T>)
    requires
        is_alignment(script, a, b),
    ensures
        rebuilt_source(script, a) == a,
        rebuilt_destination(script, a, b) == b,
{
    lemma_walk_rebuilds_prefixes(script, a, b);
    assert(a.take(a.len() as int) =~= a);
    assert(b.take(b.len() as int) =~= b);
}

/// The script of a diff aligns the source with the destination: applied in
/// order to an empty sequence, its `Equal` and `Insert` steps give the
/// destination, and its `Equal` and `Delete` steps give the source.
pub proof fn lemma_diff_rebuilds_both<T>(a: Seq<T>, b: Seq<T>)
    requires
        a.len() <= usize::MAX,
        b.len() <= usize::MAX,
    ensures
        is_alignment(canonical_script(a, b), a, b),
        rebuilt_source(canonical_script(a, b), a) == a,
        rebuilt_destination(canonical_script(a, b), a, b) == b,
{
    lemma_canonical_prefix(a, b, a.len() as int, b.len() as int);
    lemma_alignment_rebuilds_both(canonical_script(a, b), a, b);
}

/// The chosen script between equal prefixes of one sequence keeps every unit.
pub proof fn lemma_identical_prefixes<T>(a: Seq<T>, i: int)
    requires
        0 <= i <= a.len(),
    ensures
        canonical_script_prefix(a, a, i, i) == all_equal(i as nat),
    decreases i,
{
    if i == 0 {
        assert(canonical_script_prefix(a, a, i, i) =~= all_equal(0));
    } else {
        lemma_identical_prefixes(a, i - 1);
        assert(all_equal((i - 1) as nat).push(EditOp::Equal((i - 1) as usize)) =~= all_equal(
            i as nat,
        ));
    }
}

/// The diff of a sequence against itself is one `Equal` step for each index,
/// in order, and costs nothing.
pub proof fn lemma_diff_of_identical<T>(a: Seq<T>)
    requires
        a.len() <= usize::MAX,
    ensures
        canonical_script(a, a) == all_equal(a.len()),
        script_cost(canonical_script(a, a)) == 0,
{
    lemma_identical_prefixes(a, a.len() as int);
    lemma_canonical_prefix(a, a, a.len() as int, a.len() as int);
    lemma_lcs_of_identical(a, a.len() as int);
}

/// A prefix is its own longest common subsequence.
pub proof fn lemma_lcs_of_identical<T>(a: Seq<T>, i: int)
    requires
        0 <= i <= a.len(),
    ensures
        lcs_prefix(a, a, i, i) == i,
    decreases i,
{
    if i > 0 {
        lemma_lcs_of_identical(a, i - 1);
    }
}

/// The two sequences have the same longest common subsequences whichever is
/// taken first.
pub proof fn lemma_lcs_symmetric<T>(a: Seq<T>, b: Seq<T>, i: int, j: int)
    requires
        0 <= i,
        0 <= j,
    ensures
        lcs_prefix(a, b, i, j) == lcs_prefix(b, a, j, i),
    decreases i + j,
{
    if i > 0 && j > 0 {
        lemma_lcs_symmetric(a, b, i - 1, j - 1);
        lemma_lcs_symmetric(a, b, i - 1, j);
        lemma_lcs_symmetric(a, b, i, j - 1);
    }
}

/// The diff of `a` against `b` costs what the diff of `b` against `a` costs:
/// the deletions of the one are as many as the insertions of the other.
pub proof fn lemma_cost_symmetric<T>(a: Seq<T>, b: Seq<T>)
    requires
        a.len() <= usize::MAX,
        b.len() <= usize::MAX,
    ensures
        script_cost(canonical_script(a, b)) == script_cost(canonical_script(b, a)),
        deletions(canonical_script(a, b)) == insertions(canonical_script(b, a)),
        insertions(canonical_script(a, b)) == deletions(canonical_script(b, a)),
{
    lemma_canonical_prefix(a, b, a.len() as int, b.len() as int);
    lemma_canonical_prefix(b, a, b.len() as int, a.len() as int);
    lemma_lcs_symmetric(a, b, a.len() as int, b.len() as int);
}

/// The diff of `a` against `b` costs the two lengths less twice the length of
/// a longest common subsequence, and keeps as many units as that
/// subsequence has.
pub proof fn lemma_cost_formula<T>(a: Seq<T>, b: Seq<T>)
    requires
        a.len() <= usize::MAX,
        b.len() <= usize::MAX,
    ensures
        script_cost(canonical_script(a, b)) == a.len() + b.len() - 2 * lcs_len(a, b),
        script_cost(canonical_script(a, b)) == edit_distance(a, b),
        matches_kept(canonical_script(a, b)) == lcs_len(a, b),
{
    lemma_canonical_prefix(a, b, a.len() as int, b.len() as int);
}

/// Whether `pairs` is a common subsequence of the first `i` units of `a` and
/// the first `j` units of `b`: pairs of an index into `a` and an index into
/// `b`, equal units at each pair, both indices growing from pair to pair.
pub open spec fn is_common_subsequence<T>(
    pairs: Seq<(int, int)>,
    a: Seq<T>,
    b: Seq<T>,
    i: int,
    j: int,
) -> bool {
    &&& forall|k: int|
        0 <= k < pairs.len() ==> {
            let pair = #[trigger] pairs[k];
            0 <= pair.0 < i && 0 <= pair.1 < j && a[pair.0] == b[pair.1]
        }
    &&& forall|k: int, l: int|
        0 <= k < l < pairs.len() ==> (#[trigger] pairs[k]).0 < (#[trigger] pairs[l]).0
            && pairs[k].1 < pairs[l].1
}

/// A common subsequence of the two prefixes that is as long as any.
pub open spec fn longest_pairs<T>(a: Seq<T>, b: Seq<T>, i: int, j: int) -> Seq<(int, int)>
    decreases i + j,
{
    if i <= 0 || j <= 0 {
        Seq::empty()
    } else if a[i - 1] == b[j - 1] {
        longest_pairs(a, b, i - 1, j - 1).push((i - 1, j - 1))
    } else if lcs_prefix(a, b, i - 1, j) >= lcs_prefix(a, b, i, j - 1) {
        longest_pairs(a, b, i - 1, j)
    } else {
        longest_pairs(a, b, i, j - 1)
    }
}

/// No common subsequence of the two prefixes is longer than `lcs_prefix` says.
pub proof fn lemma_lcs_is_longest<T>(pairs: Seq<(int, int)>, a: Seq<T>, b: Seq<T>, i: int, j: int)
    requires
        0 <= i,
        0 <= j,
        is_common_subsequence(pairs, a, b, i, j),
    ensures
        pairs.len() <= lcs_prefix(a, b, i, j),
    decreases i + j,
{
    if pairs.len() > 0 {
        let last = pairs.last();
        if a[i - 1] == b[j - 1] {
            let shorter = pairs.drop_last();
            assert forall|k: int| 0 <= k < shorter.len() implies ({
                let pair = #[trigger] shorter[k];
                0 <= pair.0 < i - 1 && 0 <= pair.1 < j - 1 && a[pair.0] == b[pair.1]
            }) by {
                assert(shorter[k] == pairs[k]);
                assert(pairs[k].0 < pairs[pairs.len() - 1].0);
            }
            lemma_lcs_is_longest(shorter, a, b, i - 1, j - 1);
        } else if last.0 < i - 1 {
            assert forall|k: int| 0 <= k < pairs.len() implies (#[trigger] pairs[k]).0 < i - 1 by {
                if k < pairs.len() - 1 {
                    assert(pairs[k].0 < pairs[pairs.len() - 1].0);
                }
            }
            lemma_lcs_is_longest(pairs, a, b, i - 1, j);
        } else {
            assert forall|k: int| 0 <= k < pairs.len() implies (#[trigger] pairs[k]).1 < j - 1 by {
                if k < pairs.len() - 1 {
                    assert(pairs[k].1 < pairs[pairs.len() - 1].1);
                }
            }
            lemma_lcs_is_longest(pairs, a, b, i, j - 1);
        }
    }
}

/// The two prefixes have a common subsequence as long as `lcs_prefix` says.
pub proof fn lemma_lcs_is_reached<T>(a: Seq<T>, b: Seq<T>, i: int, j: int)
    requires
        0 <= i <= a.len(),
        0 <= j <= b.len(),
    ensures
        is_common_subsequence(longest_pairs(a, b, i, j), a, b, i, j),
        longest_pairs(a, b, i, j).len() == lcs_prefix(a, b, i, j),
    decreases i + j,
{
    if i > 0 && j > 0 {
        if a[i - 1] == b[j - 1] {
            lemma_lcs_is_reached(a, b, i - 1, j - 1);
            let shorter = longest_pairs(a, b, i - 1, j - 1);
            let pairs = longest_pairs(a, b, i, j);
            assert forall|k: int, l: int| 0 <= k < l < pairs.len() implies (#[trigger] pairs[k]).0
                < (#[trigger] pairs[l]).0 && pairs[k].1 < pairs[l].1 by {
                assert(pairs[k] == shorter[k]);
                if l < shorter.len() {
                    assert(pairs[l] == shorter[l]);
                }
            }
            assert forall|k: int| 0 <= k < pairs.len() implies ({
                let pair = #[trigger] pairs[k];
                0 <= pair.0 < i && 0 <= pair.1 < j && a[pair.0] == b[pair.1]
            }) by {
                if k < shorter.len() {
                    assert(pairs[k] == shorter[k]);
                }
            }
        } else if lcs_prefix(a, b, i - 1, j) >= lcs_prefix(a, b, i, j - 1) {
            lemma_lcs_is_reached(a, b, i - 1, j);
        } else {
            lemma_lcs_is_reached(a, b, i, j - 1);
        }
    }
}

/// A path of the edit graph keeps no more units than a longest common
/// subsequence of the prefixes that it has consumed, and its steps add up.
pub proof fn lemma_walk_keeps_at_most_lcs<T>(script: Seq<EditOp>, a: Seq<T>, b: Seq<T>)
    requires
        is_walk(script, a, b),
    ensures
        matches_kept(script) <= lcs_prefix(
            a,
            b,
            source_span(script) as int,
            destination_span(script) as int,
        ),
        source_span(script) == matches_kept(script) + deletions(script),
        destination_span(script) == matches_kept(script) + insertions(script),
    decreases script.len(),
{
    if script.len() > 0 {
        let before = script.drop_last();
        lemma_walk_keeps_at_most_lcs(before, a, b);
        lemma_lcs_grows_slowly(a, b, source_span(script) as int, destination_span(script) as int);
    }
}

/// No alignment of `a` with `b` is cheaper than the script of their diff.
pub proof fn lemma_no_cheaper_alignment<T>(script: Seq<EditOp>, a: Seq<T>, b: Seq<T>)
    requires
        is_alignment(script, a, b),
        a.len() <= usize::MAX,
        b.len() <= usize::MAX,
    ensures
        script_cost(script) >= script_cost(canonical_script(a, b)),
{
    lemma_walk_keeps_at_most_lcs(script, a, b);
    lemma_canonical_prefix(a, b, a.len() as int, b.len() as int);
}

} // verus!
