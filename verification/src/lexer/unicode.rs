//! Text beyond ASCII: decoding, white space, trimming.

use vstd::prelude::*;
use vstd::string::*;
use vstd::utf8::{decode_utf8, valid_utf8};

verus! {

/// The text that bytes spell which are not UTF-8, with replacement characters.
pub uninterp spec fn lossy_text(bytes: Seq<u8>) -> Seq<char>;

/// The text that bytes spell in UTF-8, with a replacement character for what
/// is not UTF-8.
pub open spec fn lossy(bytes: Seq<u8>) -> Seq<char> {
    if valid_utf8(bytes) {
        decode_utf8(bytes)
    } else {
        lossy_text(bytes)
    }
}

/// `String::from_utf8_lossy`: valid UTF-8 is decoded, and the result for other
/// bytes is a function of the bytes alone.
#[verifier::external_body]
pub(crate) fn decode_lossy(bytes: &[u8]) -> (r: String)
    ensures
        valid_utf8(bytes@) ==> r@ == decode_utf8(bytes@),
        !valid_utf8(bytes@) ==> r@ == lossy_text(bytes@),
{
    String::from_utf8_lossy(bytes).into_owned()
}

/// Is the character white space? These are the characters that have the Unicode
/// property of that name.
pub open spec fn white_space(c: char) -> bool {
    let n = c as u32;
    9 <= n <= 13 || n == 0x20 || n == 0x85 || n == 0xa0 || n == 0x1680 || 0x2000 <= n <= 0x200a || n
        == 0x2028 || n == 0x2029 || n == 0x202f || n == 0x205f || n == 0x3000
}

/// `char::is_whitespace`: holds of the characters with the Unicode property
/// `White_Space`.
#[verifier::external_body]
pub(crate) fn is_white_space(c: char) -> (r: bool)
    ensures
        r == white_space(c),
{
    c.is_whitespace()
}

/// The characters of a text.
pub fn chars_vec(s: &str) -> (r: Vec<char>)
    ensures
        r@ == s@,
{
    broadcast use axiom_spec_iter;

    let mut out: Vec<char> = Vec::new();
    for c in it: s.chars()
        invariant
            it.seq() == s@,
            out@ == s@.take(it.index() as int),
    {
        out.push(c);
        proof {
            assert(s@.take(it.index() + 1) =~= s@.take(it.index() as int).push(c));
        }
    }
    proof {
        assert(s@.take(s@.len() as int) =~= s@);
    }
    out
}

/// Is every character of a text white space?
pub open spec fn all_white(s: Seq<char>) -> bool {
    forall|i: int| 0 <= i < s.len() ==> white_space(#[trigger] s[i])
}

/// Is every character of a text white space?
pub fn is_all_white(s: &Vec<char>) -> (r: bool)
    ensures
        r == all_white(s@),
{
    let mut i: usize = 0;
    while i < s.len()
        invariant
            i <= s.len(),
            forall|k: int| 0 <= k < i ==> white_space(#[trigger] s@[k]),
        decreases s.len() - i,
    {
        if !is_white_space(s[i]) {
            return false;
        }
        i = i + 1;
    }
    true
}

/// How many characters of white space open a text.
pub open spec fn white_prefix(s: Seq<char>) -> int
    decreases s.len(),
{
    if s.len() > 0 && white_space(s[0]) {
        1 + white_prefix(s.skip(1))
    } else {
        0
    }
}

/// Where the white space starts that closes a text.
pub open spec fn white_suffix(s: Seq<char>) -> int
    decreases s.len(),
{
    if s.len() > 0 && white_space(s.last()) {
        white_suffix(s.drop_last())
    } else {
        s.len() as int
    }
}

/// A text without the white space at its ends.
pub open spec fn trimmed(s: Seq<char>) -> Seq<char> {
    let tail = s.take(white_suffix(s));
    tail.skip(white_prefix(tail))
}

proof fn lemma_white_bounds(s: Seq<char>)
    ensures
        0 <= white_prefix(s) <= s.len(),
        0 <= white_suffix(s) <= s.len(),
        (white_suffix(s) == 0) == all_white(s),
    decreases s.len(),
{
    if s.len() > 0 {
        lemma_white_bounds(s.skip(1));
        lemma_white_bounds(s.drop_last());
        let t = s.drop_last();
        if white_space(s.last()) {
            if all_white(t) {
                assert forall|i: int| 0 <= i < s.len() implies white_space(#[trigger] s[i]) by {
                    if i < s.len() - 1 {
                        assert(t[i] == s[i]);
                    }
                }
            }
            if all_white(s) {
                assert forall|i: int| 0 <= i < t.len() implies white_space(#[trigger] t[i]) by {
                    assert(t[i] == s[i]);
                }
            }
        } else {
            assert(!white_space(s[s.len() - 1]));
        }
    }
}

proof fn lemma_last_not_white(s: Seq<char>)
    requires
        white_suffix(s) > 0,
    ensures
        0 < white_suffix(s) <= s.len(),
        !white_space(s[white_suffix(s) - 1]),
    decreases s.len(),
{
    if s.len() > 0 && white_space(s.last()) {
        lemma_last_not_white(s.drop_last());
    }
}

proof fn lemma_prefix_short(s: Seq<char>)
    requires
        s.len() > 0,
        !white_space(s.last()),
    ensures
        white_prefix(s) < s.len(),
    decreases s.len(),
{
    if white_space(s[0]) {
        assert(s.len() > 1);
        assert(s.skip(1).last() == s.last());
        lemma_prefix_short(s.skip(1));
    }
}

/// A text without the white space at its ends.
pub fn trim(s: &str) -> (r: String)
    ensures
        r@ == trimmed(s@),
{
    let all = chars_vec(s);
    let mut end: usize = all.len();
    proof {
        assert(all@.take(end as int) =~= all@);
    }
    while end > 0 && is_white_space(all[end - 1])
        invariant
            end <= all.len(),
            all@ == s@,
            white_suffix(all@.take(end as int)) == white_suffix(all@),
        decreases end,
    {
        proof {
            assert(all@.take(end as int).drop_last() =~= all@.take(end - 1));
            assert(all@.take(end as int).last() == all@[end - 1]);
        }
        end = end - 1;
    }
    let ghost tail = all@.take(end as int);
    proof {
        if end > 0 {
            assert(tail.last() == all@[end - 1]);
        }
        assert(white_suffix(all@) == end);
    }
    let mut start: usize = 0;
    proof {
        lemma_white_bounds(tail);
        assert(tail.skip(0) =~= tail);
    }
    while start < end && is_white_space(all[start])
        invariant
            start <= end <= all.len(),
            tail == all@.take(end as int),
            white_prefix(tail) == start + white_prefix(tail.skip(start as int)),
        decreases end - start,
    {
        proof {
            assert(tail.skip(start as int)[0] == all@[start as int]);
            assert(tail.skip(start as int).skip(1) =~= tail.skip(start + 1));
        }
        start = start + 1;
    }
    proof {
        if start < end {
            assert(tail.skip(start as int)[0] == all@[start as int]);
        }
        assert(white_prefix(tail) == start);
    }
    let mut out = String::new();
    let mut i: usize = start;
    proof {
        assert(out@ =~= all@.subrange(start as int, start as int));
    }
    while i < end
        invariant
            start <= i <= end <= all.len(),
            out@ == all@.subrange(start as int, i as int),
        decreases end - i,
    {
        out.push(all[i]);
        proof {
            assert(all@.subrange(start as int, i + 1) =~= all@.subrange(
                start as int,
                i as int,
            ).push(all@[i as int]));
        }
        i = i + 1;
    }
    proof {
        assert(tail.skip(start as int) =~= all@.subrange(start as int, end as int));
    }
    out
}

} // verus!
