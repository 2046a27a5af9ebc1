//! Tests and cuts on names, character by character.

use vstd::prelude::*;
use vstd::string::StrSliceExecFns;
use vstd::string::StringExecFns;

verus! {

/// `text` begins with `prefix`.
pub open spec fn starts_with(text: Seq<char>, prefix: Seq<char>) -> bool {
    prefix.len() <= text.len() && text.take(prefix.len() as int) == prefix
}

/// `needle` stands in `text` at `at`.
pub open spec fn occurs_at(text: Seq<char>, needle: Seq<char>, at: int) -> bool {
    0 <= at && at + needle.len() <= text.len() && text.subrange(at, at + needle.len()) == needle
}

/// `needle` stands somewhere in `text`.
pub open spec fn contains(text: Seq<char>, needle: Seq<char>) -> bool {
    exists|at: int| occurs_at(text, needle, at)
}

/// The number of characters `c` at the beginning of `text`, counted from
/// `from` on.
pub open spec fn leading(text: Seq<char>, c: char, from: int) -> int
    decreases text.len() - from,
{
    if 0 <= from < text.len() && text[from] == c {
        leading(text, c, from + 1)
    } else {
        from
    }
}

/// Where the character `c` stands last in the first `upto` characters of
/// `text`; -1 if it does not stand there.
pub open spec fn last_index(text: Seq<char>, c: char, upto: int) -> int
    decreases upto,
{
    if upto <= 0 {
        -1
    } else if upto <= text.len() && text[upto - 1] == c {
        upto - 1
    } else {
        last_index(text, c, upto - 1)
    }
}

/// Whether `needle` stands in `text` at the character `at`.
pub fn matches_at(text: &str, text_len: usize, needle: &str, needle_len: usize, at: usize) -> (b:
    bool)
    requires
        text_len == text@.len(),
        needle_len == needle@.len(),
        at + needle_len <= text_len,
    ensures
        b == occurs_at(text@, needle@, at as int),
{
    let mut i: usize = 0;
    while i < needle_len
        invariant
            i <= needle_len,
            text_len == text@.len(),
            needle_len == needle@.len(),
            at + needle_len <= text_len,
            forall|j: int| 0 <= j < i ==> text@[at + j] == needle@[j],
        decreases needle_len - i,
    {
        if text.get_char(at + i) != needle.get_char(i) {
            proof {
                assert(text@.subrange(at as int, at + needle_len)[i as int] != needle@[i as int]);
            }
            return false;
        }
        i = i + 1;
    }
    proof {
        assert(text@.subrange(at as int, at + needle_len) =~= needle@);
    }
    true
}

/// Whether `text` begins with `prefix`.
pub fn has_prefix(text: &str, prefix: &str) -> (b: bool)
    ensures
        b == starts_with(text@, prefix@),
{
    let text_len: usize = text.unicode_len();
    let prefix_len: usize = prefix.unicode_len();
    if prefix_len > text_len {
        return false;
    }
    let b = matches_at(text, text_len, prefix, prefix_len, 0);
    proof {
        assert(text@.take(prefix_len as int) =~= text@.subrange(0, 0 + prefix_len));
    }
    b
}

/// Whether `needle` stands somewhere in `text`.
pub fn has_part(text: &str, needle: &str) -> (b: bool)
    ensures
        b == contains(text@, needle@),
{
    let text_len: usize = text.unicode_len();
    let needle_len: usize = needle.unicode_len();
    if needle_len > text_len {
        return false;
    }
    let last: usize = text_len - needle_len;
    let mut at: usize = 0;
    loop
        invariant
            text_len == text@.len(),
            needle_len == needle@.len(),
            needle_len <= text_len,
            last == text_len - needle_len,
            at <= last,
            forall|j: int| 0 <= j < at ==> !occurs_at(text@, needle@, j),
        decreases last - at,
    {
        if matches_at(text, text_len, needle, needle_len, at) {
            return true;
        }
        if at == last {
            return false;
        }
        at = at + 1;
    }
}

/// Whether the character `c` stands in `text`.
pub fn has_char(text: &str, c: char) -> (b: bool)
    ensures
        b == text@.contains(c),
{
    let len: usize = text.unicode_len();
    let mut i: usize = 0;
    while i < len
        invariant
            i <= len,
            len == text@.len(),
            forall|j: int| 0 <= j < i ==> text@[j] != c,
        decreases len - i,
    {
        if text.get_char(i) == c {
            return true;
        }
        i = i + 1;
    }
    false
}

/// `text` without the characters `c` at its beginning, and whether there
/// were any.
pub fn trim_leading(text: &str, c: char) -> (r: (String, bool))
    ensures
        r.0@ == text@.skip(leading(text@, c, 0)),
        r.1 == (text@.len() > 0 && text@[0] == c),
{
    let len: usize = text.unicode_len();
    let mut i: usize = 0;
    while i < len && text.get_char(i) == c
        invariant
            i <= len,
            len == text@.len(),
            leading(text@, c, 0) == leading(text@, c, i as int),
        decreases len - i,
    {
        i = i + 1;
    }
    let rest = text.substring_char(i, len);
    proof {
        assert(text@.subrange(i as int, len as int) =~= text@.skip(i as int));
    }
    (String::from_str(rest), i > 0)
}

/// Whether the last character of `text` is `c`.
pub fn ends_with_char(text: &str, c: char) -> (b: bool)
    ensures
        b == (text@.len() > 0 && text@.last() == c),
{
    let len: usize = text.unicode_len();
    len > 0 && text.get_char(len - 1) == c
}

/// What follows the last `c` in `text`; all of `text` if `c` does not
/// stand in it.
pub fn after_last(text: &str, c: char) -> (r: String)
    ensures
        r@ == text@.skip(last_index(text@, c, text@.len() as int) + 1),
{
    let len: usize = text.unicode_len();
    let mut i: usize = len;
    while i > 0 && text.get_char(i - 1) != c
        invariant
            i <= len,
            len == text@.len(),
            last_index(text@, c, len as int) == last_index(text@, c, i as int),
        decreases i,
    {
        i = i - 1;
    }
    let rest = text.substring_char(i, len);
    proof {
        assert(text@.subrange(i as int, len as int) =~= text@.skip(i as int));
    }
    String::from_str(rest)
}

/// The length of the first `n` characters of `text` without the `c`s at
/// their end.
pub open spec fn trimmed_len(text: Seq<char>, c: char, n: int) -> int
    decreases n,
{
    if n <= 0 {
        0
    } else if text[n - 1] == c {
        trimmed_len(text, c, n - 1)
    } else {
        n
    }
}

/// `text` without the `c`s at its end.
pub fn trim_trailing(text: &str, c: char) -> (r: String)
    ensures
        r@ == text@.take(trimmed_len(text@, c, text@.len() as int)),
{
    let len: usize = text.unicode_len();
    let mut i: usize = len;
    while i > 0 && text.get_char(i - 1) == c
        invariant
            i <= len,
            len == text@.len(),
            trimmed_len(text@, c, len as int) == trimmed_len(text@, c, i as int),
        decreases i,
    {
        i = i - 1;
    }
    let rest = text.substring_char(0, i);
    proof {
        assert(text@.subrange(0, i as int) =~= text@.take(i as int));
    }
    String::from_str(rest)
}

} // verus!
