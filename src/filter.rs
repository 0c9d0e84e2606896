//! The closure filter: the lines that match, together with their ancestors.
use vstd::prelude::*;
use crate::tree::{ancestors, as_ints, lemma_ancestor_chain, list_ancestors, texts};

verus! {

/// Whether line `k` lies on the ancestor chain of a matching line below `upto`.
pub open spec fn kept_by(lines: Seq<Seq<char>>, matched: Seq<bool>, upto: int, k: int) -> bool {
    exists|i: int| 0 <= i < upto && matched[i] && #[trigger] ancestors(lines, i).contains(k)
}

/// Whether line `k` is kept: it matches, or is an ancestor of a line that matches.
pub open spec fn is_kept(lines: Seq<Seq<char>>, matched: Seq<bool>, k: int) -> bool {
    kept_by(lines, matched, lines.len() as int, k)
}

/// The kept indices below `n`, in increasing order.
pub open spec fn kept_below(lines: Seq<Seq<char>>, matched: Seq<bool>, n: int) -> Seq<int>
    decreases n,
{
    if n <= 0 {
        seq![]
    } else if is_kept(lines, matched, n - 1) {
        kept_below(lines, matched, n - 1).push(n - 1)
    } else {
        kept_below(lines, matched, n - 1)
    }
}

/// All kept indices, in increasing order.
pub open spec fn kept_indices(lines: Seq<Seq<char>>, matched: Seq<bool>) -> Seq<int> {
    kept_below(lines, matched, lines.len() as int)
}

/// The kept lines, in their original order.
pub open spec fn filtered(lines: Seq<Seq<char>>, matched: Seq<bool>) -> Seq<Seq<char>> {
    kept_indices(lines, matched).map_values(|k: int| lines[k])
}

/// Keeps the lines whose entry in `matched` is true, together with all their
/// ancestors, in their original order.
pub fn filter_by_matches(data: Vec<String>, matched: &Vec<bool>) -> (r: Vec<String>)
    requires
        matched@.len() == data@.len(),
    ensures
        texts(r@) == filtered(texts(data@), matched@),
{
    let ghost lines = texts(data@);
    let ghost m = matched@;
    let n = data.len();
    let mut keep: Vec<bool> = Vec::new();
    while keep.len() < n
        invariant
            keep@.len() <= n,
            forall|k: int| 0 <= k < keep@.len() ==> !#[trigger] keep@[k],
        decreases n - keep@.len(),
    {
        keep.push(false);
    }
    let mut i: usize = 0;
    while i < n
        invariant
            n == data@.len() == m.len(),
            lines == texts(data@),
            m == matched@,
            i <= n,
            keep@.len() == n,
            forall|k: int| 0 <= k < n ==> #[trigger] keep@[k] == kept_by(lines, m, i as int, k),
        decreases n - i,
    {
        if matched[i] {
            let chain = list_ancestors(&data, i);
            proof {
                lemma_ancestor_chain(lines, i as int);
            }
            let ghost a = ancestors(lines, i as int);
            let mut t: usize = 0;
            while t < chain.len()
                invariant
                    n == data@.len() == m.len(),
                    lines == texts(data@),
                    i < n,
                    m[i as int],
                    as_ints(chain@) == a,
                    a == ancestors(lines, i as int),
                    forall|j: int| 0 <= j < a.len() ==> 0 <= #[trigger] a[j] <= i,
                    t <= chain@.len(),
                    keep@.len() == n,
                    forall|k: int| 0 <= k < n ==> #[trigger] keep@[k] == (kept_by(lines, m, i as int, k)
                        || exists|w: int| 0 <= w < t && #[trigger] a[w] == k),
                decreases chain@.len() - t,
            {
                let c = chain[t];
                proof {
                    assert(a[t as int] == c as int);
                }
                keep[c] = true;
                proof {
                    assert forall|k: int| 0 <= k < n implies #[trigger] keep@[k] == (kept_by(lines, m, i as int, k)
                        || exists|w: int| 0 <= w < t + 1 && #[trigger] a[w] == k) by {
                        if exists|w: int| 0 <= w < t + 1 && #[trigger] a[w] == k {
                            let w = choose|w: int| 0 <= w < t + 1 && #[trigger] a[w] == k;
                            if w < t {
                                assert(exists|w: int| 0 <= w < t && #[trigger] a[w] == k);
                            }
                        }
                    }
                }
                t = t + 1;
            }
            proof {
                assert forall|k: int| 0 <= k < n implies #[trigger] keep@[k] == kept_by(lines, m, i + 1, k) by {
                    if a.contains(k) {
                        let w = choose|w: int| 0 <= w < a.len() && a[w] == k;
                        assert(a[w] == k);
                        assert(kept_by(lines, m, i + 1, k));
                    }
                    if exists|w: int| 0 <= w < a.len() && #[trigger] a[w] == k {
                        assert(a.contains(k));
                    }
                    if kept_by(lines, m, i + 1, k) && !kept_by(lines, m, i as int, k) {
                        let j = choose|j: int| 0 <= j < i + 1 && m[j] && #[trigger] ancestors(lines, j).contains(k);
                        assert(j == i);
                    }
                }
            }
        } else {
            proof {
                assert forall|k: int| 0 <= k < n implies #[trigger] keep@[k] == kept_by(lines, m, i + 1, k) by {
                    if kept_by(lines, m, i + 1, k) {
                        let j = choose|j: int| 0 <= j < i + 1 && m[j] && #[trigger] ancestors(lines, j).contains(k);
                        assert(j != i);
                    }
                }
            }
        }
        i = i + 1;
    }
    let ghost d = data@;
    let mut r: Vec<String> = Vec::new();
    let mut i: usize = 0;
    for s in it: data.into_iter()
        invariant
            it.seq() == d,
            i == it.index(),
            n == d.len(),
            lines == texts(d),
            keep@.len() == n,
            forall|k: int| 0 <= k < n ==> #[trigger] keep@[k] == is_kept(lines, m, k),
            texts(r@) == kept_below(lines, m, i as int).map_values(|k: int| lines[k]),
    {
        let ghost before = r@;
        if keep[i] {
            r.push(s);
            proof {
                assert(texts(r@) =~= texts(before).push(lines[i as int]));
            }
        }
        i = i + 1;
        proof {
            assert(texts(r@) =~= kept_below(lines, m, i as int).map_values(|k: int| lines[k]));
        }
    }
    r
}

/// Whether `predicate`, called on a text equal to `text`, may answer `b`.
pub open spec fn answered<F: Fn(&str) -> bool>(predicate: F, text: Seq<char>, b: bool) -> bool {
    exists|s: &str| s@ == text && #[trigger] predicate.ensures((s,), b)
}

/// Whether `r` is the filter of `data` by one answer of `predicate` for each line.
pub open spec fn filters_by<F: Fn(&str) -> bool>(predicate: F, data: Seq<String>, r: Seq<String>) -> bool {
    exists|m: Seq<bool>|
        {
            &&& m.len() == data.len()
            &&& forall|i: int| 0 <= i < m.len() ==> #[trigger] answered(predicate, data[i]@, m[i])
            &&& texts(r) == filtered(texts(data), m)
        }
}

/// Whether `predicate` gives one answer for each text, whichever string holds it.
pub open spec fn answers_by_text<F: Fn(&str) -> bool>(predicate: F) -> bool {
    forall|s1: &str, s2: &str, b1: bool, b2: bool|
        s1@ == s2@ && #[trigger] predicate.ensures((s1,), b1) && #[trigger] predicate.ensures((s2,), b2)
            ==> b1 == b2
}

/// Keeps the lines on which `predicate` holds, together with all their
/// ancestors, in their original order. The result is the filter of the
/// answers that `predicate` gave, one for each line.
pub fn filter_by_predicate(data: Vec<String>, predicate: impl Fn(&str) -> bool) -> (r: Vec<String>)
    requires
        forall|s: &str| predicate.requires((s,)),
    ensures
        filters_by(predicate, data@, r@),
{
    let mut matched: Vec<bool> = Vec::new();
    let mut i: usize = 0;
    while i < data.len()
        invariant
            forall|s: &str| predicate.requires((s,)),
            i <= data@.len(),
            matched@.len() == i,
            forall|j: int| 0 <= j < i ==> #[trigger] answered(predicate, data@[j]@, matched@[j]),
        decreases data@.len() - i,
    {
        let s = data[i].as_str();
        let b = predicate(s);
        matched.push(b);
        proof {
            assert(predicate.ensures((s,), matched@[i as int]));
        }
        i = i + 1;
    }
    filter_by_matches(data, &matched)
}

} // verus!
