//! The parent relation between lines and the ancestor chain of a line.
use vstd::prelude::*;
use crate::depth::{depth_of, get_depth};

verus! {

/// The text of each line of a document.
pub open spec fn texts(data: Seq<String>) -> Seq<Seq<char>> {
    data.map_values(|s: String| s@)
}

/// Indices as mathematical integers.
pub open spec fn as_ints(v: Seq<usize>) -> Seq<int> {
    v.map_values(|x: usize| x as int)
}

/// An optional index as a mathematical integer.
pub open spec fn opt_int(r: Option<usize>) -> Option<int> {
    match r {
        Some(x) => Some(x as int),
        None => None,
    }
}

/// The greatest index below `below` whose line is shallower than `d`, if any.
pub open spec fn nearest_shallower(lines: Seq<Seq<char>>, below: int, d: nat) -> Option<int>
    decreases below,
{
    if below <= 0 {
        None
    } else if depth_of(lines[below - 1]) < d {
        Some(below - 1)
    } else {
        nearest_shallower(lines, below - 1, d)
    }
}

/// The parent of line `i`: the nearest preceding line of strictly smaller depth.
pub open spec fn parent_of(lines: Seq<Seq<char>>, i: int) -> Option<int> {
    nearest_shallower(lines, i, depth_of(lines[i]))
}

/// Line `i`, then its parent, its parent's parent, and so on up to a root.
pub open spec fn ancestors(lines: Seq<Seq<char>>, i: int) -> Seq<int>
    decreases i,
{
    match parent_of(lines, i) {
        Some(p) => if 0 <= p < i {
            seq![i].add(ancestors(lines, p))
        } else {
            seq![i]
        },
        None => seq![i],
    }
}

/// What the nearest shallower line is, stated directly.
pub proof fn lemma_nearest_shallower(lines: Seq<Seq<char>>, below: int, d: nat)
    requires
        0 <= below <= lines.len(),
    ensures
        match nearest_shallower(lines, below, d) {
            Some(p) => 0 <= p < below && depth_of(lines[p]) < d && forall|k: int|
                p < k < below ==> depth_of(#[trigger] lines[k]) >= d,
            None => forall|k: int| 0 <= k < below ==> depth_of(#[trigger] lines[k]) >= d,
        },
    decreases below,
{
    if below > 0 {
        lemma_nearest_shallower(lines, below - 1, d);
    }
}

/// The parent of a line precedes it and is strictly shallower; every line in
/// between is at least as deep; a line without parent has no shallower line
/// before it.
pub proof fn lemma_parent_of(lines: Seq<Seq<char>>, i: int)
    requires
        0 <= i < lines.len(),
    ensures
        match parent_of(lines, i) {
            Some(p) => 0 <= p < i && depth_of(lines[p]) < depth_of(lines[i]) && forall|k: int|
                p < k < i ==> depth_of(#[trigger] lines[k]) >= depth_of(lines[i]),
            None => forall|k: int| 0 <= k < i ==> depth_of(#[trigger] lines[k]) >= depth_of(lines[i]),
        },
{
    lemma_nearest_shallower(lines, i, depth_of(lines[i]));
}

/// The ancestor chain of a line starts with the line itself; each next entry
/// is the parent of the one before, at a smaller index and a strictly smaller
/// depth; the last entry has no parent. Every entry lies between zero and the
/// line itself.
pub proof fn lemma_ancestor_chain(lines: Seq<Seq<char>>, i: int)
    requires
        0 <= i < lines.len(),
    ensures
        ancestors(lines, i).len() >= 1,
        ancestors(lines, i)[0] == i,
        forall|k: int|
            #![trigger ancestors(lines, i)[k]]
            0 <= k < ancestors(lines, i).len() - 1 ==> {
                &&& parent_of(lines, ancestors(lines, i)[k]) == Some(ancestors(lines, i)[k + 1])
                &&& ancestors(lines, i)[k + 1] < ancestors(lines, i)[k]
                &&& depth_of(lines[ancestors(lines, i)[k + 1]]) < depth_of(lines[ancestors(lines, i)[k]])
            },
        parent_of(lines, ancestors(lines, i).last()) is None,
        forall|k: int|
            0 <= k < ancestors(lines, i).len() ==> 0 <= #[trigger] ancestors(lines, i)[k] <= i,
    decreases i,
{
    lemma_parent_of(lines, i);
    match parent_of(lines, i) {
        Some(p) => {
            lemma_ancestor_chain(lines, p);
            let a = ancestors(lines, i);
            let b = ancestors(lines, p);
            assert(a =~= seq![i].add(b));
            assert forall|k: int| 0 <= k < a.len() - 1 implies {
                &&& parent_of(lines, #[trigger] a[k]) == Some(a[k + 1])
                &&& a[k + 1] < a[k]
                &&& depth_of(lines[a[k + 1]]) < depth_of(lines[a[k]])
            } by {
                if k > 0 {
                    assert(a[k] == b[k - 1]);
                    assert(a[k + 1] == b[k]);
                }
            }
            assert forall|k: int| 0 <= k < a.len() implies 0 <= #[trigger] a[k] <= i by {
                if k > 0 {
                    assert(a[k] == b[k - 1]);
                }
            }
        },
        None => {},
    }
}

/// The first line of a document never has a parent.
pub proof fn lemma_first_line_is_root(lines: Seq<Seq<char>>)
    requires
        lines.len() > 0,
    ensures
        parent_of(lines, 0) is None,
{
}

/// The nearest shallower line is the one that the direct description picks.
pub proof fn lemma_nearest_shallower_exact(lines: Seq<Seq<char>>, below: int, d: nat, p: Option<int>)
    requires
        0 <= below <= lines.len(),
        match p {
            Some(q) => 0 <= q < below && depth_of(lines[q]) < d && forall|k: int|
                q < k < below ==> depth_of(#[trigger] lines[k]) >= d,
            None => forall|k: int| 0 <= k < below ==> depth_of(#[trigger] lines[k]) >= d,
        },
    ensures
        nearest_shallower(lines, below, d) == p,
    decreases below,
{
    if below > 0 {
        if p != Some(below - 1) {
            assert(depth_of(lines[below - 1]) >= d);
            lemma_nearest_shallower_exact(lines, below - 1, d, p);
        }
    }
}

/// The ancestor chain of an ancestor is what follows it in the chain.
pub proof fn lemma_ancestors_suffix(lines: Seq<Seq<char>>, i: int, t: int)
    requires
        0 <= i < lines.len(),
        0 <= t < ancestors(lines, i).len(),
    ensures
        ancestors(lines, ancestors(lines, i)[t]) =~= ancestors(lines, i).subrange(
            t,
            ancestors(lines, i).len() as int,
        ),
    decreases i,
{
    lemma_parent_of(lines, i);
    if t > 0 {
        let p = parent_of(lines, i)->0;
        lemma_ancestors_suffix(lines, p, t - 1);
    }
}

/// Given a tree output and a line number, returns the index of the given
/// node's parent (or `None` if this node is a root).
pub fn find_parent(data: &[String], line: usize) -> (r: Option<usize>)
    requires
        line < data@.len(),
    ensures
        opt_int(r) == parent_of(texts(data@), line as int),
        match r {
            Some(p) => p < line && depth_of(texts(data@)[p as int]) < depth_of(texts(data@)[line as int])
                && forall|k: int| p < k < line ==> depth_of(#[trigger] texts(data@)[k]) >= depth_of(texts(data@)[line as int]),
            None => forall|k: int| 0 <= k < line ==> depth_of(#[trigger] texts(data@)[k]) >= depth_of(texts(data@)[line as int]),
        },
{
    let ghost lines = texts(data@);
    let d = get_depth(data[line].as_str());
    let mut j: usize = line;
    while j > 0
        invariant
            j <= line < data@.len(),
            lines == texts(data@),
            d == depth_of(lines[line as int]),
            nearest_shallower(lines, j as int, d as nat) == parent_of(lines, line as int),
        decreases j,
    {
        let k = j - 1;
        if get_depth(data[k].as_str()) < d {
            proof {
                lemma_parent_of(lines, line as int);
            }
            return Some(k);
        }
        j = k;
    }
    proof {
        lemma_parent_of(lines, line as int);
    }
    None
}

/// Given a tree output and a line number, returns the indices of the
/// specified node and of all its ancestors, nearest first.
pub fn list_ancestors(data: &[String], line: usize) -> (r: Vec<usize>)
    requires
        line < data@.len(),
    ensures
        as_ints(r@) == ancestors(texts(data@), line as int),
        r@.len() >= 1,
        r@[0] == line,
        forall|k: int|
            0 <= k < r@.len() - 1 ==> {
                &&& parent_of(texts(data@), #[trigger] r@[k] as int) == Some(r@[k + 1] as int)
                &&& depth_of(texts(data@)[r@[k + 1] as int]) < depth_of(texts(data@)[r@[k] as int])
            },
        parent_of(texts(data@), r@.last() as int) is None,
{
    let ghost lines = texts(data@);
    let mut r: Vec<usize> = Vec::new();
    let mut cur: usize = line;
    loop
        invariant_except_break
            as_ints(r@) + ancestors(lines, cur as int) == ancestors(lines, line as int),
        invariant
            cur < data@.len(),
            lines == texts(data@),
        ensures
            as_ints(r@) == ancestors(lines, line as int),
        decreases cur,
    {
        proof {
            lemma_parent_of(lines, cur as int);
        }
        let ghost before = r@;
        r.push(cur);
        proof {
            assert(as_ints(r@) =~= as_ints(before).push(cur as int));
        }
        match find_parent(data, cur) {
            Some(p) => {
                proof {
                    assert(as_ints(r@) + ancestors(lines, p as int) =~= as_ints(before) + ancestors(lines, cur as int));
                }
                cur = p;
            },
            None => {
                proof {
                    assert(as_ints(r@) =~= as_ints(before) + ancestors(lines, cur as int));
                }
                break;
            },
        }
    }
    proof {
        lemma_ancestor_chain(lines, line as int);
        let a = ancestors(lines, line as int);
        assert(as_ints(r@).len() == r@.len());
        assert forall|k: int| 0 <= k < r@.len() implies #[trigger] r@[k] as int == a[k] by {
            assert(as_ints(r@)[k] == r@[k] as int);
        }
    }
    r
}

} // verus!
