//! Parts of the check for CWE-476: NULL Pointer Dereference.
//!
//! The check searches, by a dataflow analysis, for an execution path on which
//! a memory access using the return value of a symbol happens before that
//! return value is checked through a conditional jump instruction. The symbols
//! are the functions whose return values are assumed to be potential NULL
//! pointers; they are configurable.
//!
//! The warnings that the analysis generates are collected in the end: of the
//! warnings for the same taint source (the first of their addresses), the one
//! generated last is kept, and the warnings come out ordered by their taint
//! source.

use crate::log::CweWarning;
use crate::order::{compare_strings, lemma_str_order_props, reverse, str_order, Order};
use vstd::prelude::*;

verus! {

/// The configuration struct
#[derive(Debug, Clone, Hash)]
pub struct Config {
    /// The names of symbols for which the analysis should check
    /// whether the return values are checked for being a Null pointer by the analysed binary.
    pub symbols: Vec<String>,
}

/// The taint source of a warning: its first address.
pub open spec fn taint_source(w: CweWarning) -> Seq<char> {
    w.addresses@[0]@
}

/// Two warnings have the same taint source.
pub open spec fn same_taint_source(a: CweWarning, b: CweWarning) -> bool {
    str_order(taint_source(a), taint_source(b)) == Order::Equal
}

proof fn lemma_order_same(a: Seq<char>, b: Seq<char>, c: Seq<char>)
    ensures
        str_order(a, a) == Order::Equal,
        str_order(a, b) == reverse(str_order(b, a)),
        str_order(a, b) == Order::Equal && str_order(b, c) == Order::Equal ==> str_order(a, c)
            == Order::Equal,
        str_order(a, b) == Order::Less && str_order(b, c) != Order::Greater ==> str_order(a, c)
            == Order::Less,
        str_order(a, b) != Order::Greater && str_order(b, c) == Order::Less ==> str_order(a, c)
            == Order::Less,
{
    lemma_str_order_props(a, a, a);
    lemma_str_order_props(a, b, c);
    lemma_str_order_props(c, b, a);
    lemma_str_order_props(a, c, a);
}


/// Warning `j` is the last of the first `i` warnings with its taint source.
pub open spec fn last_of_source(input: Seq<CweWarning>, i: int, j: int) -> bool {
    forall|j2: int| j < j2 < i ==> !same_taint_source(#[trigger] input[j2], input[j])
}

/// The kept warnings have strictly increasing taint sources.
pub open spec fn strictly_sorted(result: Seq<CweWarning>) -> bool {
    forall|k1: int, k2: int|
        0 <= k1 < k2 < result.len() ==> str_order(
            taint_source(#[trigger] result[k1]),
            taint_source(#[trigger] result[k2]),
        ) == Order::Less
}

/// Every kept warning is the last of the first `i` warnings with its taint
/// source.
#[verifier::opaque]
pub open spec fn kept_are_last(input: Seq<CweWarning>, i: int, result: Seq<CweWarning>) -> bool {
    forall|k: int|
        0 <= k < result.len() ==> exists|j: int|
            0 <= j < i && #[trigger] result[k] == #[trigger] input[j] && last_of_source(input, i, j)
}

/// Every one of the first `i` warnings has its taint source among the kept
/// ones.
#[verifier::opaque]
pub open spec fn sources_covered(input: Seq<CweWarning>, i: int, result: Seq<CweWarning>) -> bool {
    forall|j: int|
        0 <= j < i ==> exists|k: int|
            0 <= k < result.len() && same_taint_source(#[trigger] result[k], #[trigger] input[j])
}

/// `result` holds the outcome of deduplicating the first `i` warnings.
spec fn dedup_inv(input: Seq<CweWarning>, i: int, result: Seq<CweWarning>) -> bool {
    &&& forall|k: int| 0 <= k < result.len() ==> (#[trigger] result[k]).addresses@.len() > 0
    &&& strictly_sorted(result)
    &&& kept_are_last(input, i, result)
    &&& sources_covered(input, i, result)
}

proof fn lemma_replace_sorted(result: Seq<CweWarning>, p: int, w: CweWarning)
    requires
        strictly_sorted(result),
        0 <= p < result.len(),
        str_order(taint_source(w), taint_source(result[p])) == Order::Equal,
    ensures
        strictly_sorted(result.update(p, w)),
{
    let r2 = result.update(p, w);
    assert forall|k1: int, k2: int| 0 <= k1 < k2 < r2.len() implies str_order(
        taint_source(#[trigger] r2[k1]),
        taint_source(#[trigger] r2[k2]),
    ) == Order::Less by {
        if k1 == p {
            assert(str_order(taint_source(result[k1]), taint_source(result[k2])) == Order::Less);
            lemma_order_same(taint_source(w), taint_source(result[p]), taint_source(result[k2]));
        } else if k2 == p {
            assert(str_order(taint_source(result[k1]), taint_source(result[k2])) == Order::Less);
            lemma_order_same(taint_source(result[k1]), taint_source(result[p]), taint_source(w));
            lemma_order_same(taint_source(w), taint_source(result[p]), taint_source(w));
        } else {
            assert(str_order(taint_source(result[k1]), taint_source(result[k2])) == Order::Less);
        }
    }
}

proof fn lemma_replace_kept(input: Seq<CweWarning>, i: int, result: Seq<CweWarning>, p: int)
    requires
        0 <= i < input.len(),
        strictly_sorted(result),
        kept_are_last(input, i, result),
        0 <= p < result.len(),
        str_order(taint_source(input[i]), taint_source(result[p])) == Order::Equal,
    ensures
        kept_are_last(input, i + 1, result.update(p, input[i])),
{
    reveal(kept_are_last);
    let w = input[i];
    let r2 = result.update(p, w);
    assert forall|k: int| 0 <= k < r2.len() implies exists|j: int|
        0 <= j < i + 1 && #[trigger] r2[k] == #[trigger] input[j] && last_of_source(
            input,
            i + 1,
            j,
        ) by {
        if k == p {
            assert(r2[k] == input[i]);
        } else {
            let j = choose|j: int|
                0 <= j < i && #[trigger] result[k] == #[trigger] input[j] && last_of_source(
                    input,
                    i,
                    j,
                );
            assert(r2[k] == input[j]);
            if same_taint_source(input[i], input[j]) {
                lemma_order_same(taint_source(result[p]), taint_source(w), taint_source(result[k]));
                lemma_order_same(taint_source(w), taint_source(result[p]), taint_source(w));
                lemma_order_same(taint_source(result[k]), taint_source(result[p]), taint_source(result[k]));
                if k < p {
                    assert(str_order(taint_source(result[k]), taint_source(result[p])) == Order::Less);
                } else {
                    assert(str_order(taint_source(result[p]), taint_source(result[k])) == Order::Less);
                }
            }
            assert(last_of_source(input, i + 1, j));
        }
    }
}

proof fn lemma_replace_covered(input: Seq<CweWarning>, i: int, result: Seq<CweWarning>, p: int)
    requires
        0 <= i < input.len(),
        sources_covered(input, i, result),
        0 <= p < result.len(),
        str_order(taint_source(input[i]), taint_source(result[p])) == Order::Equal,
    ensures
        sources_covered(input, i + 1, result.update(p, input[i])),
{
    reveal(sources_covered);
    let w = input[i];
    let r2 = result.update(p, w);
    assert forall|j: int| 0 <= j < i + 1 implies exists|k: int|
        0 <= k < r2.len() && same_taint_source(#[trigger] r2[k], #[trigger] input[j]) by {
        if j == i {
            lemma_order_same(taint_source(w), taint_source(w), taint_source(w));
            assert(same_taint_source(r2[p], input[j]));
        } else {
            let k = choose|k: int|
                0 <= k < result.len() && same_taint_source(#[trigger] result[k], #[trigger] input[j]);
            if k == p {
                lemma_order_same(taint_source(w), taint_source(result[p]), taint_source(input[j]));
                assert(same_taint_source(r2[p], input[j]));
            } else {
                assert(same_taint_source(r2[k], input[j]));
            }
        }
    }
}

/// How `w` compares with the kept warnings when it goes in at position `p`.
proof fn lemma_insert_position(result: Seq<CweWarning>, p: int, w: CweWarning)
    requires
        strictly_sorted(result),
        0 <= p <= result.len(),
        forall|k: int|
            0 <= k < p ==> str_order(taint_source(w), taint_source(#[trigger] result[k]))
                == Order::Greater,
        p < result.len() ==> str_order(taint_source(w), taint_source(result[p])) == Order::Less,
    ensures
        forall|m: int|
            0 <= m < p ==> str_order(taint_source(#[trigger] result[m]), taint_source(w))
                == Order::Less,
        forall|m: int|
            p <= m < result.len() ==> str_order(taint_source(w), taint_source(#[trigger] result[m]))
                == Order::Less,
{
    assert forall|m: int| 0 <= m < p implies str_order(
        taint_source(#[trigger] result[m]),
        taint_source(w),
    ) == Order::Less by {
        lemma_order_same(taint_source(result[m]), taint_source(w), taint_source(result[m]));
    }
    assert forall|m: int| p <= m < result.len() implies str_order(
        taint_source(w),
        taint_source(#[trigger] result[m]),
    ) == Order::Less by {
        if m > p {
            assert(str_order(taint_source(result[p]), taint_source(result[m])) == Order::Less);
            lemma_order_same(taint_source(w), taint_source(result[p]), taint_source(result[m]));
        }
    }
}

proof fn lemma_insert_sorted(result: Seq<CweWarning>, p: int, w: CweWarning)
    requires
        strictly_sorted(result),
        0 <= p <= result.len(),
        forall|m: int|
            0 <= m < p ==> str_order(taint_source(#[trigger] result[m]), taint_source(w))
                == Order::Less,
        forall|m: int|
            p <= m < result.len() ==> str_order(taint_source(w), taint_source(#[trigger] result[m]))
                == Order::Less,
    ensures
        strictly_sorted(result.insert(p, w)),
{
    let r2 = result.insert(p, w);
    assert forall|k1: int, k2: int| 0 <= k1 < k2 < r2.len() implies str_order(
        taint_source(#[trigger] r2[k1]),
        taint_source(#[trigger] r2[k2]),
    ) == Order::Less by {
        if k2 < p {
            assert(r2[k1] == result[k1] && r2[k2] == result[k2]);
        } else if k2 == p {
            assert(r2[k1] == result[k1]);
        } else if k1 == p {
            assert(r2[k2] == result[k2 - 1]);
        } else if k1 < p {
            assert(r2[k1] == result[k1] && r2[k2] == result[k2 - 1]);
            assert(str_order(taint_source(result[k1]), taint_source(result[k2 - 1])) == Order::Less);
        } else {
            assert(r2[k1] == result[k1 - 1] && r2[k2] == result[k2 - 1]);
            assert(str_order(taint_source(result[k1 - 1]), taint_source(result[k2 - 1]))
                == Order::Less);
        }
    }
}

proof fn lemma_insert_kept(input: Seq<CweWarning>, i: int, result: Seq<CweWarning>, p: int)
    requires
        0 <= i < input.len(),
        kept_are_last(input, i, result),
        0 <= p <= result.len(),
        forall|m: int|
            0 <= m < p ==> str_order(taint_source(#[trigger] result[m]), taint_source(input[i]))
                == Order::Less,
        forall|m: int|
            p <= m < result.len() ==> str_order(
                taint_source(input[i]),
                taint_source(#[trigger] result[m]),
            ) == Order::Less,
    ensures
        kept_are_last(input, i + 1, result.insert(p, input[i])),
{
    reveal(kept_are_last);
    let w = input[i];
    let r2 = result.insert(p, w);
    assert forall|k: int| 0 <= k < r2.len() implies exists|j: int|
        0 <= j < i + 1 && #[trigger] r2[k] == #[trigger] input[j] && last_of_source(
            input,
            i + 1,
            j,
        ) by {
        if k == p {
            assert(r2[k] == input[i]);
        } else {
            let m = if k < p {
                k
            } else {
                k - 1
            };
            assert(r2[k] == result[m]);
            let j = choose|j: int|
                0 <= j < i && #[trigger] result[m] == #[trigger] input[j] && last_of_source(
                    input,
                    i,
                    j,
                );
            assert(r2[k] == input[j]);
            lemma_order_same(taint_source(w), taint_source(result[m]), taint_source(w));
            assert(!same_taint_source(input[i], input[j]));
            assert(last_of_source(input, i + 1, j));
        }
    }
}

proof fn lemma_insert_covered(input: Seq<CweWarning>, i: int, result: Seq<CweWarning>, p: int)
    requires
        0 <= i < input.len(),
        sources_covered(input, i, result),
        0 <= p <= result.len(),
    ensures
        sources_covered(input, i + 1, result.insert(p, input[i])),
{
    reveal(sources_covered);
    let w = input[i];
    let r2 = result.insert(p, w);
    assert forall|j: int| 0 <= j < i + 1 implies exists|k: int|
        0 <= k < r2.len() && same_taint_source(#[trigger] r2[k], #[trigger] input[j]) by {
        if j == i {
            lemma_order_same(taint_source(w), taint_source(w), taint_source(w));
            assert(same_taint_source(r2[p], input[j]));
        } else {
            let k = choose|k: int|
                0 <= k < result.len() && same_taint_source(#[trigger] result[k], #[trigger] input[j]);
            if k < p {
                assert(r2[k] == result[k]);
                assert(same_taint_source(r2[k], input[j]));
            } else {
                assert(r2[k + 1] == result[k]);
                assert(same_taint_source(r2[k + 1], input[j]));
            }
        }
    }
}

proof fn lemma_dedup_replace(input: Seq<CweWarning>, i: int, result: Seq<CweWarning>, p: int)
    requires
        0 <= i < input.len(),
        input[i].addresses@.len() > 0,
        dedup_inv(input, i, result),
        0 <= p < result.len(),
        str_order(taint_source(input[i]), taint_source(result[p])) == Order::Equal,
    ensures
        dedup_inv(input, i + 1, result.update(p, input[i])),
{
    lemma_replace_sorted(result, p, input[i]);
    lemma_replace_kept(input, i, result, p);
    lemma_replace_covered(input, i, result, p);
}

proof fn lemma_dedup_insert(input: Seq<CweWarning>, i: int, result: Seq<CweWarning>, p: int)
    requires
        0 <= i < input.len(),
        input[i].addresses@.len() > 0,
        dedup_inv(input, i, result),
        0 <= p <= result.len(),
        forall|k: int|
            0 <= k < p ==> str_order(taint_source(input[i]), taint_source(#[trigger] result[k]))
                == Order::Greater,
        p < result.len() ==> str_order(taint_source(input[i]), taint_source(result[p]))
            == Order::Less,
    ensures
        dedup_inv(input, i + 1, result.insert(p, input[i])),
{
    lemma_insert_position(result, p, input[i]);
    lemma_insert_sorted(result, p, input[i]);
    lemma_insert_kept(input, i, result, p);
    lemma_insert_covered(input, i, result, p);
    let r2 = result.insert(p, input[i]);
    assert forall|k: int| 0 <= k < r2.len() implies (#[trigger] r2[k]).addresses@.len() > 0 by {
        if k < p {
            assert(r2[k] == result[k]);
        } else if k > p {
            assert(r2[k] == result[k - 1]);
        }
    }
}

/// Keeps, of the warnings with the same taint source, the one that comes
/// last, and orders the kept warnings by their taint sources, as collecting
/// them into a map keyed by the taint source does. Every warning must have an
/// address.
pub fn deduplicate_warnings(warnings: Vec<CweWarning>) -> (r: Vec<CweWarning>)
    requires
        forall|i: int| 0 <= i < warnings@.len() ==> (#[trigger] warnings@[i]).addresses@.len() > 0,
    ensures
        forall|k: int| 0 <= k < r@.len() ==> (#[trigger] r@[k]).addresses@.len() > 0,
        strictly_sorted(r@),
        kept_are_last(warnings@, warnings@.len() as int, r@),
        sources_covered(warnings@, warnings@.len() as int, r@),
{
    let ghost input = warnings@;
    let n = warnings.len();
    // reverse the warnings, so that popping yields them in their order
    let mut remaining = warnings;
    let mut reversed: Vec<CweWarning> = Vec::new();
    while remaining.len() > 0
        invariant
            n == input.len(),
            remaining@.len() + reversed@.len() == n,
            remaining@ == input.take(remaining@.len() as int),
            forall|k: int| 0 <= k < reversed@.len() ==> #[trigger] reversed@[k] == input[n - 1 - k],
        decreases remaining@.len(),
    {
        let ghost before = remaining@;
        match remaining.pop() {
            Some(w) => {
                reversed.push(w);
                assert(remaining@ =~= input.take(remaining@.len() as int));
            },
            None => {},
        }
    }
    let mut result: Vec<CweWarning> = Vec::new();
    let mut i: usize = 0;
    proof {
        reveal(kept_are_last);
        reveal(sources_covered);
    }
    while i < n
        invariant
            n == input.len(),
            i <= n,
            reversed@.len() == n - i,
            forall|k: int| 0 <= k < reversed@.len() ==> #[trigger] reversed@[k] == input[n - 1 - k],
            forall|i: int| 0 <= i < input.len() ==> (#[trigger] input[i]).addresses@.len() > 0,
            dedup_inv(input, i as int, result@),
        decreases n - i,
    {
        let w = match reversed.pop() {
            Some(w) => w,
            None => {
                assert(false);
                return result;
            },
        };
        assert(w == input[i as int]);
        // the first position whose taint source is not before that of `w`
        let mut p: usize = 0;
        loop
            invariant
                p <= result@.len(),
                forall|k: int| 0 <= k < result@.len() ==> (#[trigger] result@[k]).addresses@.len() > 0,
                w.addresses@.len() > 0,
                forall|k: int|
                    0 <= k < p ==> str_order(taint_source(w), taint_source(#[trigger] result@[k]))
                        == Order::Greater,
            ensures
                p <= result@.len(),
                forall|k: int|
                    0 <= k < p ==> str_order(taint_source(w), taint_source(#[trigger] result@[k]))
                        == Order::Greater,
                p < result@.len() ==> str_order(taint_source(w), taint_source(result@[p as int]))
                    != Order::Greater,
            decreases result@.len() - p,
        {
            if p >= result.len() {
                break ;
            }
            if compare_strings(&w.addresses[0], &result[p].addresses[0]) != Order::Greater {
                break ;
            }
            p = p + 1;
        }
        let ghost before = result@;
        let replace = p < result.len() && compare_strings(&w.addresses[0], &result[p].addresses[0])
            == Order::Equal;
        proof {
            if p < before.len() && !replace {
                assert(str_order(taint_source(w), taint_source(before[p as int])) == Order::Less);
            }
        }
        if replace {
            proof {
                lemma_dedup_replace(input, i as int, before, p as int);
            }
            result.set(p, w);
        } else {
            proof {
                lemma_dedup_insert(input, i as int, before, p as int);
            }
            result.insert(p, w);
        }
        i = i + 1;
    }
    result
}

} // verus!
