//! What holds of every filtering: the kept set is closed under ancestors,
//! contains every match, comes out in document order, and filtering again
//! changes nothing.
use vstd::prelude::*;
use crate::depth::depth_of;
use crate::filter::{
    answered, answers_by_text, filtered, filters_by, is_kept, kept_below, kept_by, kept_indices,
};
use crate::tree::{
    ancestors, lemma_ancestor_chain, lemma_ancestors_suffix, lemma_nearest_shallower_exact,
    lemma_parent_of, parent_of, texts,
};

verus! {

/// The kept indices below `n` increase strictly, lie below `n`, are all kept,
/// and include every kept index below `n`.
proof fn lemma_kept_below(lines: Seq<Seq<char>>, m: Seq<bool>, n: int)
    requires
        0 <= n <= lines.len(),
    ensures
        forall|a: int, b: int|
            0 <= a < b < kept_below(lines, m, n).len() ==> #[trigger] kept_below(lines, m, n)[a]
                < #[trigger] kept_below(lines, m, n)[b],
        forall|t: int|
            0 <= t < kept_below(lines, m, n).len() ==> 0 <= #[trigger] kept_below(lines, m, n)[t] < n
                && is_kept(lines, m, kept_below(lines, m, n)[t]),
        forall|k: int| 0 <= k < n && is_kept(lines, m, k) ==> #[trigger] kept_below(lines, m, n).contains(k),
    decreases n,
{
    if n > 0 {
        lemma_kept_below(lines, m, n - 1);
        let prev = kept_below(lines, m, n - 1);
        let cur = kept_below(lines, m, n);
        assert forall|k: int| 0 <= k < n && is_kept(lines, m, k) implies #[trigger] cur.contains(k) by {
            if k < n - 1 {
                assert(prev.contains(k));
                let w = choose|w: int| 0 <= w < prev.len() && prev[w] == k;
                assert(cur[w] == k);
            } else {
                assert(cur[cur.len() - 1] == k);
            }
        }
    }
}

/// Every line on the ancestor chain of a kept line is kept too.
pub proof fn lemma_kept_closed_under_ancestors(lines: Seq<Seq<char>>, m: Seq<bool>, k: int)
    requires
        m.len() == lines.len(),
        is_kept(lines, m, k),
    ensures
        forall|j: int| #[trigger] ancestors(lines, k).contains(j) ==> is_kept(lines, m, j),
{
    let i = choose|i: int| 0 <= i < lines.len() && m[i] && #[trigger] ancestors(lines, i).contains(k);
    let a = ancestors(lines, i);
    let t = choose|t: int| 0 <= t < a.len() && a[t] == k;
    lemma_ancestors_suffix(lines, i, t);
    assert forall|j: int| #[trigger] ancestors(lines, k).contains(j) implies is_kept(lines, m, j) by {
        let w = choose|w: int| 0 <= w < ancestors(lines, k).len() && ancestors(lines, k)[w] == j;
        assert(a[t + w] == j);
        assert(ancestors(lines, i).contains(j));
    }
}

/// Every line that matches is kept.
pub proof fn lemma_matches_are_kept(lines: Seq<Seq<char>>, m: Seq<bool>, i: int)
    requires
        m.len() == lines.len(),
        0 <= i < lines.len(),
        m[i],
    ensures
        is_kept(lines, m, i),
        kept_indices(lines, m).contains(i),
{
    lemma_ancestor_chain(lines, i);
    assert(ancestors(lines, i)[0] == i);
    assert(ancestors(lines, i).contains(i));
    assert(kept_by(lines, m, lines.len() as int, i));
    lemma_kept_below(lines, m, lines.len() as int);
}

/// The output is the kept lines in strictly increasing order of index, and an
/// index is among them exactly when it is kept.
pub proof fn lemma_output_in_document_order(lines: Seq<Seq<char>>, m: Seq<bool>)
    ensures
        filtered(lines, m).len() == kept_indices(lines, m).len(),
        forall|t: int|
            0 <= t < filtered(lines, m).len() ==> #[trigger] filtered(lines, m)[t]
                == lines[kept_indices(lines, m)[t]],
        forall|a: int, b: int|
            0 <= a < b < kept_indices(lines, m).len() ==> #[trigger] kept_indices(lines, m)[a]
                < #[trigger] kept_indices(lines, m)[b],
        forall|k: int|
            #[trigger] kept_indices(lines, m).contains(k) <==> 0 <= k < lines.len() && is_kept(
                lines,
                m,
                k,
            ),
{
    lemma_kept_below(lines, m, lines.len() as int);
    let ix = kept_indices(lines, m);
    assert forall|k: int| #[trigger] ix.contains(k) implies 0 <= k < lines.len() && is_kept(lines, m, k) by {
        let w = choose|w: int| 0 <= w < ix.len() && ix[w] == k;
        assert(0 <= ix[w] < lines.len());
    }
}

/// Where every line is kept, the output is the whole document.
proof fn lemma_all_kept(lines: Seq<Seq<char>>, m: Seq<bool>)
    requires
        forall|k: int| 0 <= k < lines.len() ==> is_kept(lines, m, k),
    ensures
        filtered(lines, m) == lines,
{
    lemma_output_in_document_order(lines, m);
    let ix = kept_indices(lines, m);
    let n = lines.len() as int;
    // ix is strictly increasing inside [0, n) and contains all of it
    assert forall|t: int| 0 <= t < ix.len() implies #[trigger] ix[t] == t by {
        lemma_increasing_is_identity(ix, n, t);
    }
    assert(ix.len() == n) by {
        if ix.len() < n {
            assert(ix.contains(n - 1));
            let w = choose|w: int| 0 <= w < ix.len() && ix[w] == n - 1;
            assert(ix[w] == w);
        }
        if ix.len() > n {
            assert(ix[n] == n);
            assert(ix.contains(ix[n]));
        }
    }
    assert(filtered(lines, m) =~= lines);
}

/// A strictly increasing sequence inside [0, n) that holds every value of
/// [0, n) has each value at its own position.
proof fn lemma_increasing_is_identity(ix: Seq<int>, n: int, t: int)
    requires
        forall|a: int, b: int| 0 <= a < b < ix.len() ==> #[trigger] ix[a] < #[trigger] ix[b],
        forall|k: int| #[trigger] ix.contains(k) <==> 0 <= k < n,
        0 <= t < ix.len(),
    ensures
        ix[t] == t,
    decreases t,
{
    assert(ix.contains(ix[t]));
    if t > 0 {
        lemma_increasing_is_identity(ix, n, t - 1);
    }
    if ix[t] > t {
        // t itself must stand somewhere; not before t, nor at or after it
        assert(ix.contains(t));
        let w = choose|w: int| 0 <= w < ix.len() && ix[w] == t;
        if w < t {
            lemma_increasing_is_identity(ix, n, w);
        } else if w > t {
            assert(ix[t] < ix[w]);
        }
    }
    if ix[t] < t {
        lemma_increasing_is_identity(ix, n, ix[t]);
        assert(ix[ix[t]] < ix[t]);
    }
}

/// If no line matches, nothing is kept; if every line matches, everything is.
pub proof fn lemma_vacuous_cases(lines: Seq<Seq<char>>, m: Seq<bool>)
    requires
        m.len() == lines.len(),
    ensures
        (forall|i: int| 0 <= i < m.len() ==> !m[i]) ==> filtered(lines, m).len() == 0,
        (forall|i: int| 0 <= i < m.len() ==> m[i]) ==> filtered(lines, m) == lines,
{
    lemma_output_in_document_order(lines, m);
    if forall|i: int| 0 <= i < m.len() ==> !m[i] {
        let ix = kept_indices(lines, m);
        if ix.len() > 0 {
            assert(ix.contains(ix[0]));
        }
    }
    if forall|i: int| 0 <= i < m.len() ==> m[i] {
        assert forall|k: int| 0 <= k < lines.len() implies is_kept(lines, m, k) by {
            lemma_matches_are_kept(lines, m, k);
        }
        lemma_all_kept(lines, m);
    }
}

/// The answers of the predicate on the lines that were kept, in output order.
pub open spec fn matched_in_output(lines: Seq<Seq<char>>, m: Seq<bool>) -> Seq<bool> {
    kept_indices(lines, m).map_values(|k: int| m[k])
}

/// In the output, a line's parent is the output line that holds its parent
/// in the document.
proof fn lemma_parent_in_output(lines: Seq<Seq<char>>, m: Seq<bool>, s: int)
    requires
        m.len() == lines.len(),
        0 <= s < kept_indices(lines, m).len(),
    ensures
        match parent_of(lines, kept_indices(lines, m)[s]) {
            Some(p) => exists|u: int|
                0 <= u < s && #[trigger] kept_indices(lines, m)[u] == p && parent_of(
                    filtered(lines, m),
                    s,
                ) == Some(u),
            None => parent_of(filtered(lines, m), s) is None,
        },
{
    lemma_output_in_document_order(lines, m);
    let ix = kept_indices(lines, m);
    let out = filtered(lines, m);
    let i = ix[s];
    assert(ix.contains(i));
    let d = depth_of(lines[i]);
    assert(depth_of(out[s]) == d);
    lemma_parent_of(lines, i);
    match parent_of(lines, i) {
        Some(p) => {
            lemma_ancestor_chain(lines, i);
            lemma_ancestor_chain(lines, p);
            assert(ancestors(lines, i)[1] == p);
            assert(ancestors(lines, i).contains(p));
            lemma_kept_closed_under_ancestors(lines, m, i);
            assert(ix.contains(p));
            let u = choose|u: int| 0 <= u < ix.len() && ix[u] == p;
            if u >= s {
                if u > s {
                    assert(ix[s] < ix[u]);
                }
            }
            assert forall|k: int| u < k < s implies depth_of(#[trigger] out[k]) >= d by {
                assert(ix[u] < ix[k]);
                assert(ix[k] < ix[s]);
            }
            lemma_nearest_shallower_exact(out, s, d, Some(u));
        },
        None => {
            assert forall|k: int| 0 <= k < s implies depth_of(#[trigger] out[k]) >= d by {
                assert(ix[k] < ix[s]);
                assert(ix.contains(ix[k]));
                assert(out[k] == lines[ix[k]]);
            }
            lemma_nearest_shallower_exact(out, s, d, None);
        },
    }
}

/// The ancestor chain of an output line, read back through the kept indices,
/// is the chain of its line in the document.
proof fn lemma_ancestors_in_output(lines: Seq<Seq<char>>, m: Seq<bool>, s: int)
    requires
        m.len() == lines.len(),
        0 <= s < kept_indices(lines, m).len(),
    ensures
        ancestors(filtered(lines, m), s).map_values(|t: int| kept_indices(lines, m)[t])
            =~= ancestors(lines, kept_indices(lines, m)[s]),
    decreases s,
{
    let ix = kept_indices(lines, m);
    let out = filtered(lines, m);
    lemma_output_in_document_order(lines, m);
    assert(ix.contains(ix[s]));
    lemma_parent_in_output(lines, m, s);
    match parent_of(lines, ix[s]) {
        Some(p) => {
            let u = choose|u: int| 0 <= u < s && #[trigger] ix[u] == p && parent_of(out, s) == Some(u);
            lemma_ancestors_in_output(lines, m, u);
            lemma_parent_of(lines, ix[s]);
            assert(ancestors(out, s) == seq![s].add(ancestors(out, u)));
            assert(ancestors(lines, ix[s]) == seq![ix[s]].add(ancestors(lines, p)));
        },
        None => {},
    }
}

/// Filtering the output again, with the same predicate answers on its lines,
/// gives the output back unchanged.
pub proof fn lemma_filter_idempotent(lines: Seq<Seq<char>>, m: Seq<bool>)
    requires
        m.len() == lines.len(),
    ensures
        filtered(filtered(lines, m), matched_in_output(lines, m)) == filtered(lines, m),
{
    lemma_output_in_document_order(lines, m);
    let ix = kept_indices(lines, m);
    let out = filtered(lines, m);
    let mo = matched_in_output(lines, m);
    assert forall|t: int| 0 <= t < out.len() implies is_kept(out, mo, t) by {
        assert(ix.contains(ix[t]));
        let k = ix[t];
        let i = choose|i: int| 0 <= i < lines.len() && m[i] && #[trigger] ancestors(lines, i).contains(k);
        lemma_matches_are_kept(lines, m, i);
        let s = choose|s: int| 0 <= s < ix.len() && ix[s] == i;
        assert(mo[s]);
        lemma_ancestors_in_output(lines, m, s);
        lemma_ancestor_chain(out, s);
        let a = ancestors(out, s);
        let w = choose|w: int| 0 <= w < ancestors(lines, i).len() && ancestors(lines, i)[w] == k;
        assert(ix[a[w]] == k);
        assert(0 <= a[w] <= s);
        if a[w] < t {
            assert(ix[a[w]] < ix[t]);
        } else if a[w] > t {
            assert(ix[t] < ix[a[w]]);
        }
        assert(a.contains(t));
    }
    lemma_all_kept(out, mo);
}

/// Filtering the output of a filter again, by a predicate whose answer
/// depends on the text alone, gives the same lines.
pub proof fn lemma_predicate_filter_idempotent<F: Fn(&str) -> bool>(
    predicate: F,
    data: Seq<String>,
    once: Seq<String>,
    twice: Seq<String>,
)
    requires
        answers_by_text(predicate),
        filters_by(predicate, data, once),
        filters_by(predicate, once, twice),
    ensures
        texts(twice) == texts(once),
{
    let lines = texts(data);
    let m1 = choose|m: Seq<bool>|
        {
            &&& m.len() == data.len()
            &&& forall|i: int| 0 <= i < m.len() ==> #[trigger] answered(predicate, data[i]@, m[i])
            &&& texts(once) == filtered(texts(data), m)
        };
    let m2 = choose|m: Seq<bool>|
        {
            &&& m.len() == once.len()
            &&& forall|i: int| 0 <= i < m.len() ==> #[trigger] answered(predicate, once[i]@, m[i])
            &&& texts(twice) == filtered(texts(once), m)
        };
    lemma_output_in_document_order(lines, m1);
    let ix = kept_indices(lines, m1);
    assert(texts(once).len() == once.len());
    assert forall|t: int| 0 <= t < m2.len() implies m2[t] == #[trigger] matched_in_output(lines, m1)[t] by {
        assert(ix.contains(ix[t]));
        assert(texts(once)[t] == once[t]@);
        assert(once[t]@ == data[ix[t]]@);
        assert(answered(predicate, once[t]@, m2[t]));
        assert(answered(predicate, data[ix[t]]@, m1[ix[t]]));
        let s2 = choose|s: &str| s@ == once[t]@ && #[trigger] predicate.ensures((s,), m2[t]);
        let s1 = choose|s: &str| s@ == data[ix[t]]@ && #[trigger] predicate.ensures((s,), m1[ix[t]]);
        assert(predicate.ensures((s1,), m1[ix[t]]) && predicate.ensures((s2,), m2[t]));
    }
    assert(m2 =~= matched_in_output(lines, m1));
    lemma_filter_idempotent(lines, m1);
}

} // verus!
