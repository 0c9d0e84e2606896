//! Nesting depth of a single line, read from its leading drawing characters.
use vstd::prelude::*;
use vstd::utf8::encode_utf8;

verus! {

/// Whether `c` is alphanumeric in the sense of `char::is_alphanumeric`.
pub uninterp spec fn is_alnum(c: char) -> bool;

/// Relies on `char::is_alphanumeric`: the answer depends on the character alone.
#[verifier::external_body]
fn char_is_alnum(c: char) -> (r: bool)
    ensures
        r == is_alnum(c),
{
    c.is_alphanumeric()
}

/// Number of characters before the first alphanumeric one (all of them if
/// there is none).
pub open spec fn leading_drawing(s: Seq<char>) -> nat
    decreases s.len(),
{
    if s.len() == 0 || is_alnum(s[0]) {
        0
    } else {
        1 + leading_drawing(s.drop_first())
    }
}

/// Width of one nesting level, in drawing characters.
pub const INDENT_WIDTH: usize = 4;

/// Nesting depth of a line: its leading drawing characters, four per level.
pub open spec fn depth_of(s: Seq<char>) -> nat {
    leading_drawing(s) / (INDENT_WIDTH as nat)
}

/// UTF-8 takes at least one byte per character.
proof fn lemma_utf8_len_bound(s: Seq<char>)
    ensures
        s.len() <= encode_utf8(s).len(),
    decreases s.len(),
{
    if s.len() > 0 {
        lemma_utf8_len_bound(s.drop_first());
    }
}

/// Within the leading drawing run, the count is the position plus what follows.
proof fn lemma_leading_drawing_split(s: Seq<char>, k: int)
    requires
        0 <= k <= s.len(),
        forall|j: int| 0 <= j < k ==> !is_alnum(#[trigger] s[j]),
    ensures
        leading_drawing(s) == k + leading_drawing(s.subrange(k, s.len() as int)),
    decreases k,
{
    if k > 0 {
        let t = s.drop_first();
        assert forall|j: int| 0 <= j < k - 1 implies !is_alnum(#[trigger] t[j]) by {
            assert(t[j] == s[j + 1]);
        }
        lemma_leading_drawing_split(t, k - 1);
        assert(t.subrange(k - 1, t.len() as int) =~= s.subrange(k, s.len() as int));
    } else {
        assert(s.subrange(0, s.len() as int) =~= s);
    }
}

/// The nesting depth of `line`: the number of characters before its first
/// alphanumeric one, divided by four.
pub fn get_depth(line: &str) -> (d: usize)
    ensures
        d == depth_of(line@),
{
    let ghost s = line@;
    // the byte length, had in constant time, bounds the number of characters
    let bytes = line.as_bytes();
    let n_bytes = bytes.len();
    proof {
        lemma_utf8_len_bound(s);
    }
    let mut count: usize = 0;
    for c in it: line.chars()
        invariant_except_break
            count == it.index(),
        invariant
            it.seq() == s,
            s.len() <= n_bytes,
            forall|j: int| 0 <= j < count ==> !is_alnum(#[trigger] s[j]),
        ensures
            count <= s.len(),
            count == s.len() || is_alnum(s[count as int]),
    {
        assert(c == s[count as int]);
        if char_is_alnum(c) {
            break;
        }
        count = count + 1;
    }
    proof {
        lemma_leading_drawing_split(s, count as int);
        let rest = s.subrange(count as int, s.len() as int);
        assert(rest.len() == 0 || is_alnum(rest[0]));
    }
    count / INDENT_WIDTH
}

} // verus!
