//! Matching of token positions: which positions of one term lie within a
//! given distance after a position of the preceding term, and how often a
//! pattern of terms, wildcards and anchors occurs in a document.

use vstd::prelude::*;

verus! {

/// A sequence of positions in non-decreasing order.
pub open spec fn sorted(s: Seq<u32>) -> bool {
    forall|i: int, j: int| 0 <= i <= j < s.len() ==> s[i] <= s[j]
}

/// Whether a left position `l` lies in the window that ends at the right
/// position `r` and reaches back `slop` positions (never below zero).
pub open spec fn in_window(l: u32, r: u32, slop: u32) -> bool {
    r - slop <= l <= r
}

/// Whether some position of `left` lies in the window of `r`.
pub open spec fn has_partner(left: Seq<u32>, r: u32, slop: u32) -> bool {
    exists|i: int| 0 <= i < left.len() && in_window(#[trigger] left[i], r, slop)
}

/// The positions among the first `n` of `right` that have a partner in `left`,
/// in the order in which `right` has them.
pub open spec fn matches_upto(left: Seq<u32>, right: Seq<u32>, slop: u32, n: int) -> Seq<u32>
    decreases n,
{
    if n <= 0 {
        Seq::empty()
    } else if has_partner(left, right[n - 1], slop) {
        matches_upto(left, right, slop, n - 1).push(right[n - 1])
    } else {
        matches_upto(left, right, slop, n - 1)
    }
}

/// All positions of `right` that have a partner in `left`.
pub open spec fn matches(left: Seq<u32>, right: Seq<u32>, slop: u32) -> Seq<u32> {
    matches_upto(left, right, slop, right.len() as int)
}

/// The number of matches grows with the prefix considered.
pub proof fn lemma_matches_monotone(left: Seq<u32>, right: Seq<u32>, slop: u32, n: int, m: int)
    requires
        0 <= n <= m,
    ensures
        matches_upto(left, right, slop, n).len() <= matches_upto(left, right, slop, m).len(),
        matches_upto(left, right, slop, n).len() <= n,
    decreases m,
{
    if n < m {
        lemma_matches_monotone(left, right, slop, n, m - 1);
    } else if n > 0 {
        lemma_matches_monotone(left, right, slop, n - 1, n - 1);
    }
}

/// Positions without a partner add nothing to the matches.
proof fn lemma_matches_tail_empty(left: Seq<u32>, right: Seq<u32>, slop: u32, n: int, m: int)
    requires
        0 <= n <= m <= right.len(),
        forall|r: int| n <= r < m ==> !has_partner(left, #[trigger] right[r], slop),
    ensures
        matches_upto(left, right, slop, m) == matches_upto(left, right, slop, n),
    decreases m,
{
    if n < m {
        lemma_matches_tail_empty(left, right, slop, n, m - 1);
    }
}

/// Intersects two sorted position lists with a tolerance: writes to the front
/// of `out`, in order, every position of `right` that is at most `slop` after
/// some position of `left` (or equal to it), and returns how many were written.
/// The rest of `out` keeps its content.
pub fn intersection_with_slop(left: &[u32], right: &[u32], out: &mut Vec<u32>, slop: u32) -> (count:
    usize)
    requires
        sorted(left@),
        sorted(right@),
        matches(left@, right@, slop).len() <= old(out).len(),
    ensures
        count == matches(left@, right@, slop).len(),
        final(out)@.len() == old(out)@.len(),
        final(out)@.subrange(0, count as int) == matches(left@, right@, slop),
        final(out)@.subrange(count as int, old(out)@.len() as int) == old(out)@.subrange(
            count as int,
            old(out)@.len() as int,
        ),
{
    let mut left_index: usize = 0;
    let mut right_index: usize = 0;
    let mut count: usize = 0;
    let left_len: usize = left.len();
    let right_len: usize = right.len();
    while left_index < left_len && right_index < right_len
        invariant
            left_len == left@.len(),
            right_len == right@.len(),
            sorted(left@),
            sorted(right@),
            left_index <= left_len,
            right_index <= right_len,
            count <= right_index,
            matches(left@, right@, slop).len() <= out@.len(),
            out@.len() == old(out)@.len(),
            count == matches_upto(left@, right@, slop, right_index as int).len(),
            forall|i: int|
                0 <= i < count ==> #[trigger] out@[i] == matches_upto(
                    left@,
                    right@,
                    slop,
                    right_index as int,
                )[i],
            forall|i: int| count <= i < out@.len() ==> #[trigger] out@[i] == old(out)@[i],
            forall|j: int, r: int|
                0 <= j < left_index && right_index <= r < right_len && in_window(
                    #[trigger] left@[j],
                    #[trigger] right@[r],
                    slop,
                ) ==> left_index < left_len && in_window(left@[left_index as int], right@[r], slop),
        decreases (left_len - left_index) + (right_len - right_index),
    {
        let left_val: u32 = left[left_index];
        let right_val: u32 = right[right_index];
        let right_slop: u32 = if right_val >= slop {
            right_val - slop
        } else {
            0
        };
        if left_val < right_slop {
            left_index += 1;
        } else if left_val <= right_val {
            let ghost first: int = left_index as int;
            while left_index + 1 < left_len && left[left_index + 1] <= right_val
                invariant
                    left_len == left@.len(),
                    sorted(left@),
                    first <= left_index < left_len,
                    left@[left_index as int] <= right_val,
                decreases left_len - left_index,
            {
                left_index += 1;
            }
            proof {
                assert(in_window(left@[first], right_val, slop));
                assert(has_partner(left@, right@[right_index as int], slop));
                lemma_matches_monotone(left@, right@, slop, right_index as int + 1, right_len as int);
            }
            out.set(count, right_val);
            count += 1;
            right_index += 1;
        } else {
            proof {
                assert(!has_partner(left@, right@[right_index as int], slop)) by {
                    if has_partner(left@, right@[right_index as int], slop) {
                        let j = choose|j: int|
                            0 <= j < left@.len() && in_window(
                                #[trigger] left@[j],
                                right@[right_index as int],
                                slop,
                            );
                        if j < left_index {
                            assert(in_window(left@[left_index as int], right@[right_index as int], slop));
                        }
                    }
                }
            }
            right_index += 1;
        }
    }
    proof {
        if right_index < right_len {
            assert forall|r: int| right_index <= r < right_len implies !has_partner(
                left@,
                #[trigger] right@[r],
                slop,
            ) by {
                if has_partner(left@, right@[r], slop) {
                    let j = choose|j: int|
                        0 <= j < left@.len() && in_window(#[trigger] left@[j], right@[r], slop);
                    assert(false);
                }
            }
            lemma_matches_tail_empty(left@, right@, slop, right_index as int, right_len as int);
        }
        assert(out@.subrange(0, count as int) =~= matches(left@, right@, slop));
        assert(out@.subrange(count as int, out@.len() as int) =~= old(out)@.subrange(
            count as int,
            out@.len() as int,
        ));
    }
    count
}

/// The matches of sorted positions are sorted.
pub proof fn lemma_matches_sorted(left: Seq<u32>, right: Seq<u32>, slop: u32, n: int)
    requires
        sorted(right),
        n <= right.len(),
    ensures
        sorted(matches_upto(left, right, slop, n)),
        forall|i: int|
            0 <= i < matches_upto(left, right, slop, n).len() && n > 0 ==> #[trigger] matches_upto(
                left,
                right,
                slop,
                n,
            )[i] <= right[n - 1],
    decreases n,
{
    if n > 0 {
        lemma_matches_sorted(left, right, slop, n - 1);
        if n > 1 {
            assert(right[n - 2] <= right[n - 1]);
        }
    }
}

/// One part of a pattern: a term, a gap of any length, or the start or end
/// of the text.
#[derive(Debug)]
pub enum SmallPatternPart {
    Term,
    Wildcard,
    Anchor,
}

/// Where a match stands after some parts of the pattern: the positions at
/// which the terms matched so far end, the term that comes next, and the
/// distance that the next term may lie behind.
pub struct MatchState {
    pub left: Seq<u32>,
    pub next_term: int,
    pub slop: u32,
}

/// The number of terms among the first `n` parts of a pattern.
pub open spec fn count_terms(pattern: Seq<SmallPatternPart>, n: int) -> int
    decreases n,
{
    if n <= 0 {
        0
    } else if pattern[n - 1] is Term {
        count_terms(pattern, n - 1) + 1
    } else {
        count_terms(pattern, n - 1)
    }
}

/// The state of a match after the first `n` parts of a pattern, or nothing
/// if the match has failed. The first term starts the match at its own
/// positions. Each further term keeps those of its positions that lie at
/// most the allowed distance behind a position kept so far, one position
/// behind unless a wildcard came before. An anchor at the start asks that
/// the first position of the first term is the start of the text, and an
/// anchor at the end that the last position of the last term is its end.
pub open spec fn match_state(
    pattern: Seq<SmallPatternPart>,
    positions: Seq<Seq<u32>>,
    num_tokens_doc: u64,
    n: int,
) -> Option<MatchState>
    decreases n,
{
    if n <= 0 {
        Some(MatchState { left: positions[0], next_term: 0, slop: 1 })
    } else {
        match match_state(pattern, positions, num_tokens_doc, n - 1) {
            None => None,
            Some(state) => match pattern[n - 1] {
                SmallPatternPart::Term => if state.next_term == 0 {
                    Some(MatchState { left: state.left, next_term: 1, slop: state.slop })
                } else {
                    let kept = matches(state.left, positions[state.next_term], state.slop);
                    if kept.len() == 0 {
                        None
                    } else {
                        Some(MatchState { left: kept, next_term: state.next_term + 1, slop: 1 })
                    }
                },
                SmallPatternPart::Wildcard => Some(
                    MatchState { left: state.left, next_term: state.next_term, slop: u32::MAX },
                ),
                SmallPatternPart::Anchor => if n - 1 == 0 {
                    if state.left.len() > 0 && state.left[0] != 0 {
                        None
                    } else {
                        Some(state)
                    }
                } else if n == pattern.len() {
                    if positions.last().len() > 0 && positions.last().last() != (num_tokens_doc
                        - 1) as u32 {
                        None
                    } else {
                        Some(state)
                    }
                } else {
                    Some(state)
                },
            },
        }
    }
}

/// The terms counted grow with the parts considered.
proof fn lemma_count_terms_monotone(pattern: Seq<SmallPatternPart>, n: int, m: int)
    requires
        0 <= n <= m,
    ensures
        0 <= count_terms(pattern, n) <= count_terms(pattern, m),
    decreases m,
{
    if n < m {
        lemma_count_terms_monotone(pattern, n, m - 1);
    } else if n > 0 {
        lemma_count_terms_monotone(pattern, n - 1, n - 1);
    }
}

/// Counts how often a pattern occurs in a document, given the positions of
/// each of the pattern's terms in the document: the number of positions of
/// the last term at which a match of the whole pattern ends, or zero if the
/// pattern does not match.
pub fn perform_pattern_match(
    pattern: &Vec<SmallPatternPart>,
    positions: &Vec<Vec<u32>>,
    num_tokens_doc: u64,
) -> (count: usize)
    requires
        positions@.len() > 0,
        forall|t: int| 0 <= t < positions@.len() ==> sorted(#[trigger] positions@[t]@),
        count_terms(pattern@, pattern@.len() as int) <= positions@.len(),
        pattern@.len() > 1 && pattern@.last() is Anchor ==> num_tokens_doc > 0,
    ensures
        count == match match_state(
            pattern@,
            position_lists(positions@),
            num_tokens_doc,
            pattern@.len() as int,
        ) {
            Some(state) => state.left.len(),
            None => 0,
        },
{
    let ghost lists = position_lists(positions@);
    let mut left: Vec<u32> = copy_positions(&positions[0]);
    let mut current_right_term: usize = 0;
    let mut slop: u32 = 1;
    let mut i: usize = 0;
    assert(lists[0] == positions@[0]@);
    while i < pattern.len()
        invariant
            i <= pattern@.len(),
            lists == position_lists(positions@),
            positions@.len() > 0,
            forall|t: int| 0 <= t < positions@.len() ==> sorted(#[trigger] positions@[t]@),
            count_terms(pattern@, pattern@.len() as int) <= positions@.len(),
            pattern@.len() > 1 && pattern@.last() is Anchor ==> num_tokens_doc > 0,
            match_state(pattern@, lists, num_tokens_doc, i as int) == Some(
                MatchState { left: left@, next_term: current_right_term as int, slop },
            ),
            sorted(left@),
            current_right_term == count_terms(pattern@, i as int),
        decreases pattern@.len() - i,
    {
        proof {
            lemma_count_terms_monotone(pattern@, i as int + 1, pattern@.len() as int);
            assert(count_terms(pattern@, i as int + 1) == count_terms(pattern@, i as int) + (
            if pattern@[i as int] is Term {
                1int
            } else {
                0int
            }));
        }
        match pattern[i] {
            SmallPatternPart::Term => {
                if current_right_term == 0 {
                    current_right_term = 1;
                } else {
                    let right = &positions[current_right_term];
                    assert(lists[current_right_term as int] == right@);
                    let size: usize = if left.len() > right.len() {
                        left.len()
                    } else {
                        right.len()
                    };
                    let mut out: Vec<u32> = Vec::new();
                    out.resize(size, 0);
                    proof {
                        lemma_matches_monotone(left@, right@, slop, right@.len() as int, right@.len() as int);
                        lemma_matches_sorted(left@, right@, slop, right@.len() as int);
                    }
                    let intersection_len = intersection_with_slop(
                        left.as_slice(),
                        right.as_slice(),
                        &mut out,
                        slop,
                    );
                    if intersection_len == 0 {
                        proof {
                            lemma_failed_stays_failed(
                                pattern@,
                                lists,
                                num_tokens_doc,
                                i as int + 1,
                                pattern@.len() as int,
                            );
                        }
                        return 0;
                    }
                    out.truncate(intersection_len);
                    left = out;
                    slop = 1;
                    assert(current_right_term < positions.len());
                    current_right_term += 1;
                }
            },
            SmallPatternPart::Wildcard => {
                slop = u32::MAX;
            },
            SmallPatternPart::Anchor => {
                if i == 0 {
                    if left.len() > 0 && left[0] != 0 {
                        proof {
                            lemma_failed_stays_failed(pattern@, lists, num_tokens_doc, 1, pattern@.len() as int);
                        }
                        return 0;
                    }
                } else if i == pattern.len() - 1 {
                    let right = &positions[positions.len() - 1];
                    assert(lists.last() == right@);
                    if right.len() > 0 && right[right.len() - 1] != #[verifier::truncate] ((
                    num_tokens_doc - 1) as u32) {
                        proof {
                            lemma_failed_stays_failed(
                                pattern@,
                                lists,
                                num_tokens_doc,
                                i as int + 1,
                                pattern@.len() as int,
                            );
                        }
                        return 0;
                    }
                }
            },
        }
        i += 1;
    }
    left.len()
}

/// A match that has failed stays failed.
proof fn lemma_failed_stays_failed(
    pattern: Seq<SmallPatternPart>,
    positions: Seq<Seq<u32>>,
    num_tokens_doc: u64,
    n: int,
    m: int,
)
    requires
        n <= m,
        match_state(pattern, positions, num_tokens_doc, n) is None,
    ensures
        match_state(pattern, positions, num_tokens_doc, m) is None,
    decreases m,
{
    if n < m {
        lemma_failed_stays_failed(pattern, positions, num_tokens_doc, n, m - 1);
    }
}

/// The position lists of the terms, as plain values.
pub open spec fn position_lists(positions: Seq<Vec<u32>>) -> Seq<Seq<u32>> {
    Seq::new(positions.len(), |t: int| positions[t]@)
}

/// Copies a list of positions.
fn copy_positions(list: &Vec<u32>) -> (copy: Vec<u32>)
    ensures
        copy@ == list@,
{
    let mut copy: Vec<u32> = Vec::with_capacity(list.len());
    let mut i: usize = 0;
    while i < list.len()
        invariant
            i <= list@.len(),
            copy@ == list@.take(i as int),
        decreases list@.len() - i,
    {
        copy.push(list[i]);
        assert(list@.take(i as int).push(list@[i as int]) =~= list@.take(i as int + 1));
        i += 1;
    }
    assert(list@.take(list@.len() as int) =~= list@);
    copy
}

} // verus!
