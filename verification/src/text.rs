//! Text as bytes: comparing names, and putting lines on a terminal.

use vstd::prelude::*;

verus! {

/// The bytes of a name.
pub open spec fn bytes_of(name: Seq<char>) -> Seq<u8> {
    vstd::utf8::encode_utf8(name)
}

/// Whether `needle` occurs in `haystack`.
pub open spec fn occurs(haystack: Seq<u8>, needle: Seq<u8>) -> bool {
    exists|i: int|
        0 <= i && i + needle.len() <= haystack.len() && #[trigger] haystack.subrange(
            i,
            i + needle.len(),
        ) == needle
}

/// Whether `haystack` starts with `needle`.
pub open spec fn begins(haystack: Seq<u8>, needle: Seq<u8>) -> bool {
    needle.len() <= haystack.len() && haystack.subrange(0, needle.len() as int) == needle
}

/// The string that `bytes` spell, if they are valid UTF-8.
///
/// `core::str::from_utf8` decides: it succeeds on exactly the byte strings that
/// are valid UTF-8, and what it returns holds the characters they encode.
#[verifier::external_body]
pub(crate) fn decoded(bytes: &[u8]) -> (r: Option<&str>)
    ensures
        match r {
            Some(s) => vstd::utf8::valid_utf8(bytes@) && s@ == vstd::utf8::decode_utf8(bytes@),
            None => !vstd::utf8::valid_utf8(bytes@),
        },
{
    core::str::from_utf8(bytes).ok()
}

/// Whether the bytes at position `at` are those of `needle`.
fn matches_at(haystack: &[u8], at: usize, needle: &[u8]) -> (r: bool)
    requires
        at + needle@.len() <= haystack@.len(),
    ensures
        r == (haystack@.subrange(at as int, at + needle@.len()) == needle@),
{
    let mut i: usize = 0;
    let n: usize = needle.len();
    let total: usize = haystack.len();
    while i < n
        invariant
            i <= n,
            n == needle@.len(),
            total == haystack@.len(),
            at + n <= total,
            forall|k: int| 0 <= k < i ==> haystack@[at + k] == needle@[k],
        decreases n - i,
    {
        if haystack[at + i] != needle[i] {
            assert(haystack@.subrange(at as int, at + n)[i as int] != needle@[i as int]);
            return false;
        }
        i = i + 1;
    }
    assert(haystack@.subrange(at as int, at + n) =~= needle@);
    true
}

/// Whether two byte strings are the same.
pub fn same(a: &[u8], b: &[u8]) -> (r: bool)
    ensures
        r == (a@ == b@),
{
    if a.len() != b.len() {
        return false;
    }
    let r: bool = matches_at(a, 0, b);
    assert(a@.subrange(0, a@.len() as int) =~= a@);
    r
}

/// Whether a byte string spells `name`.
pub fn is(bytes: &[u8], name: &str) -> (r: bool)
    ensures
        r == (bytes@ == bytes_of(name@)),
{
    same(bytes, name.as_bytes())
}

/// Whether a byte string starts with `name`.
pub fn starts_with(bytes: &[u8], name: &str) -> (r: bool)
    ensures
        r == begins(bytes@, bytes_of(name@)),
{
    let needle: &[u8] = name.as_bytes();
    needle.len() <= bytes.len() && matches_at(bytes, 0, needle)
}

/// Whether `name` occurs anywhere in a byte string.
pub fn contains(haystack: &[u8], name: &str) -> (r: bool)
    ensures
        r == occurs(haystack@, bytes_of(name@)),
{
    let needle: &[u8] = name.as_bytes();
    let n: usize = needle.len();
    let total: usize = haystack.len();
    let mut i: usize = 0;
    while i < total && n <= total - i
        invariant
            i <= total,
            n == needle@.len(),
            total == haystack@.len(),
            needle@ == bytes_of(name@),
            forall|k: int|
                0 <= k < i && k + n <= total ==> #[trigger] haystack@.subrange(k, k + n)
                    != needle@,
        decreases total - i,
    {
        if matches_at(haystack, i, needle) {
            return true;
        }
        i = i + 1;
    }
    if n == 0 && i == total {
        assert(haystack@.subrange(total as int, total + n) =~= needle@);
        return true;
    }
    false
}

/// Whether a byte occurs in a byte string.
pub fn contains_byte(bytes: &[u8], byte: u8) -> (r: bool)
    ensures
        r == bytes@.contains(byte),
{
    let total: usize = bytes.len();
    let mut i: usize = 0;
    while i < total
        invariant
            i <= total,
            total == bytes@.len(),
            forall|k: int| 0 <= k < i ==> bytes@[k] != byte,
        decreases total - i,
    {
        if bytes[i] == byte {
            assert(bytes@[i as int] == byte);
            return true;
        }
        i = i + 1;
    }
    false
}

/// Whether `name` is one of the NUL-separated elements of a list.
pub open spec fn has_element(list: Seq<u8>, name: Seq<u8>) -> bool {
    exists|i: int| #[trigger] element_at(list, i, name)
}

/// Whether the element that starts at `i` is `name`.
pub open spec fn element_at(list: Seq<u8>, i: int, name: Seq<u8>) -> bool {
    &&& 0 <= i
    &&& i + name.len() <= list.len()
    &&& i == 0 || list[i - 1] == 0
    &&& i + name.len() == list.len() || list[i + name.len()] == 0
    &&& list.subrange(i, i + name.len()) == name
}

/// Whether `name` is a whole element of a NUL-separated list, not a substring of
/// one.
pub fn lists(list: &[u8], name: &str) -> (r: bool)
    ensures
        r == has_element(list@, bytes_of(name@)),
{
    let needle: &[u8] = name.as_bytes();
    let n: usize = needle.len();
    let total: usize = list.len();
    if n > total {
        return false;
    }
    let mut i: usize = 0;
    while i <= total - n
        invariant
            i <= total - n + 1,
            n <= total,
            n == needle@.len(),
            total == list@.len(),
            needle@ == bytes_of(name@),
            forall|k: int| 0 <= k < i ==> !#[trigger] element_at(list@, k, needle@),
        decreases total - n + 1 - i,
    {
        if (i == 0 || list[i - 1] == 0) && (i + n == total || list[i + n] == 0) && matches_at(
            list,
            i,
            needle,
        ) {
            assert(element_at(list@, i as int, needle@));
            return true;
        }
        if i == total - n {
            return false;
        }
        i = i + 1;
    }
    false
}

/// What a terminal in raw mode needs for some text: it moves down but not left
/// on a newline, so each gets a carriage return before it.
pub open spec fn with_returns(text: Seq<u8>) -> Seq<u8>
    decreases text.len(),
{
    if text.len() == 0 {
        Seq::empty()
    } else if text.last() == 0x0a {
        with_returns(text.drop_last()).push(0x0d).push(0x0a)
    } else {
        with_returns(text.drop_last()).push(text.last())
    }
}

/// The bytes to send to a terminal for some text.
pub fn terminal_bytes(text: &[u8]) -> (r: Vec<u8>)
    ensures
        r@ == with_returns(text@),
{
    let mut out: Vec<u8> = Vec::new();
    let total: usize = text.len();
    let mut i: usize = 0;
    while i < total
        invariant
            i <= total,
            total == text@.len(),
            out@ == with_returns(text@.take(i as int)),
        decreases total - i,
    {
        assert(text@.take(i + 1).drop_last() =~= text@.take(i as int));
        if text[i] == 0x0a {
            out.push(0x0d);
        }
        out.push(text[i]);
        i = i + 1;
    }
    assert(text@.take(total as int) =~= text@);
    out
}

/// No newline reaches the terminal without a carriage return before it, and
/// everything else arrives in order, unchanged.
pub proof fn every_newline_gets_a_return(text: Seq<u8>)
    ensures
        forall|i: int|
            0 <= i < with_returns(text).len() && #[trigger] with_returns(text)[i] == 0x0a ==> 0 < i
                && with_returns(text)[i - 1] == 0x0d,
        !text.contains(0x0au8) ==> with_returns(text) == text,
    decreases text.len(),
{
    if text.len() > 0 {
        let rest = text.drop_last();
        every_newline_gets_a_return(rest);
        let sent = with_returns(text);
        let before = with_returns(rest);
        assert forall|i: int| 0 <= i < sent.len() && #[trigger] sent[i] == 0x0a implies 0 < i
            && sent[i - 1] == 0x0d by {
            if i < before.len() {
                assert(before[i] == 0x0a);
            }
        }
        if !text.contains(0x0au8) {
            assert(text[text.len() - 1] != 0x0a);
            assert forall|i: int| 0 <= i < rest.len() implies rest[i] != 0x0a by {
                assert(text[i] != 0x0a);
            }
            assert(sent =~= text);
        }
    } else {
        assert(with_returns(text) =~= text);
    }
}

} // verus!
