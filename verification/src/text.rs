//! Text as a sequence of characters: searching for a pattern, replacing every
//! occurrence of one, and trimming white space.
//!
//! Everything here is stated over `Seq<char>`, the view of `str` and `String`.
//! The executable functions work on slices of `char`, with [`chars_of`] and
//! [`string_of`] as the way in and out.

use vstd::prelude::*;
use vstd::utf8::{decode_utf8, valid_utf8};

verus! {

/// `String::push` of the standard library, which appends the given character
/// to the end of the string. This is taken on trust.
pub assume_specification[ String::push ](s: &mut String, ch: char)
    ensures
        final(s)@ == old(s)@.push(ch),
;

/// `pattern` stands in `text` at index `at`.
pub open spec fn occurs_at(text: Seq<char>, pattern: Seq<char>, at: int) -> bool {
    &&& 0 <= at
    &&& at + pattern.len() <= text.len()
    &&& text.subrange(at, at + pattern.len()) == pattern
}

/// `pattern` stands somewhere in `text`. The empty pattern stands in every text.
pub open spec fn contains(text: Seq<char>, pattern: Seq<char>) -> bool {
    exists|at: int| occurs_at(text, pattern, at)
}

/// `text` with every occurrence of `key` replaced by `value`.
///
/// Occurrences are found from left to right and do not overlap: after one is
/// replaced the search goes on behind it, and what was put in is not searched
/// again. An empty `key` is found before every character and at the end.
pub open spec fn replace_all(text: Seq<char>, key: Seq<char>, value: Seq<char>) -> Seq<char>
    decreases text.len(),
{
    if text.len() == 0 {
        if key.len() == 0 {
            value
        } else {
            text
        }
    } else if key.len() == 0 {
        value + text.take(1) + replace_all(text.skip(1), key, value)
    } else if occurs_at(text, key, 0) {
        value + replace_all(text.skip(key.len() as int), key, value)
    } else {
        text.take(1) + replace_all(text.skip(1), key, value)
    }
}

/// White space as Unicode defines it (the property `White_Space`).
pub open spec fn is_whitespace(c: char) -> bool {
    let u = c as u32;
    ||| 0x09 <= u <= 0x0D
    ||| u == 0x20
    ||| u == 0x85
    ||| u == 0xA0
    ||| u == 0x1680
    ||| 0x2000 <= u <= 0x200A
    ||| u == 0x2028
    ||| u == 0x2029
    ||| u == 0x202F
    ||| u == 0x205F
    ||| u == 0x3000
}

/// `text` without the white space it starts with.
pub open spec fn trim_start(text: Seq<char>) -> Seq<char>
    decreases text.len(),
{
    if text.len() > 0 && is_whitespace(text[0]) {
        trim_start(text.skip(1))
    } else {
        text
    }
}

/// `text` without the white space it ends with.
pub open spec fn trim_end(text: Seq<char>) -> Seq<char>
    decreases text.len(),
{
    if text.len() > 0 && is_whitespace(text.last()) {
        trim_end(text.drop_last())
    } else {
        text
    }
}

/// `text` without the white space at either end.
pub open spec fn trimmed(text: Seq<char>) -> Seq<char> {
    trim_end(trim_start(text))
}

/// The error of `std::str::from_utf8`.
#[verifier::external_type_specification]
#[verifier::external_body]
pub struct ExUtf8Error(std::str::Utf8Error);

/// `std::str::from_utf8` of the standard library, which reads bytes as text:
/// it succeeds on exactly the byte sequences that are valid UTF-8, and the
/// text is then what they encode. This is taken on trust.
pub assume_specification[ std::str::from_utf8 ](v: &[u8]) -> (text: Result<
    &str,
    std::str::Utf8Error,
>)
    ensures
        text is Ok <==> valid_utf8(v@),
        text matches Ok(read) ==> read@ == decode_utf8(v@),
;

/// The texts that the strings stand for, one by one.
pub open spec fn texts_of(strings: Seq<String>) -> Seq<Seq<char>> {
    Seq::new(strings.len(), |i: int| strings[i]@)
}

/// The characters of a string, in order.
pub fn chars_of(s: &str) -> (chars: Vec<char>)
    ensures
        chars@ == s@,
{
    let mut chars: Vec<char> = Vec::new();
    for c in it: s.chars()
        invariant
            it.seq() == s@,
            chars@ == it.seq().take(it.index()),
    {
        chars.push(c);
    }
    chars
}

/// The string made of the given characters.
pub fn string_of(chars: &[char]) -> (s: String)
    ensures
        s@ == chars@,
{
    let mut s = String::new();
    let mut i: usize = 0;
    while i < chars.len()
        invariant
            i <= chars.len(),
            s@ == chars@.take(i as int),
        decreases chars.len() - i,
    {
        s.push(chars[i]);
        i += 1;
    }
    s
}

/// Appends a copy of `more` to `out`.
pub fn append_chars(out: &mut Vec<char>, more: &[char])
    ensures
        final(out)@ == old(out)@ + more@,
{
    let mut i: usize = 0;
    while i < more.len()
        invariant
            i <= more.len(),
            out@ == old(out)@ + more@.take(i as int),
        decreases more.len() - i,
    {
        out.push(more[i]);
        i += 1;
    }
}

/// Tells whether `pattern` stands in `text` at index `at`.
pub fn matches_at(text: &[char], pattern: &[char], at: usize) -> (found: bool)
    ensures
        found == occurs_at(text@, pattern@, at as int),
{
    if at > text.len() || pattern.len() > text.len() - at {
        return false;
    }
    let ghost window = text@.subrange(at as int, at + pattern@.len());
    let mut k: usize = 0;
    while k < pattern.len()
        invariant
            at + pattern.len() <= text.len(),
            k <= pattern.len(),
            window == text@.subrange(at as int, at + pattern@.len()),
            forall|j: int| 0 <= j < k ==> window[j] == pattern@[j],
        decreases pattern.len() - k,
    {
        if text[at + k] != pattern[k] {
            return false;
        }
        k += 1;
    }
    assert(window =~= pattern@);
    true
}

/// Tells whether `pattern` stands somewhere in `text`.
pub fn contains_chars(text: &[char], pattern: &[char]) -> (found: bool)
    ensures
        found == contains(text@, pattern@),
{
    if pattern.len() > text.len() {
        return false;
    }
    let last: usize = text.len() - pattern.len();
    let mut at: usize = 0;
    loop
        invariant
            last == text.len() - pattern.len(),
            at <= last,
            forall|j: int| 0 <= j < at ==> !occurs_at(text@, pattern@, j),
        decreases last - at,
    {
        if matches_at(text, pattern, at) {
            return true;
        }
        if at == last {
            return false;
        }
        at += 1;
    }
}

/// Tells whether the string `pattern` stands somewhere in the string `text`.
pub fn contains_str(text: &str, pattern: &str) -> (found: bool)
    ensures
        found == contains(text@, pattern@),
{
    let text_chars = chars_of(text);
    let pattern_chars = chars_of(pattern);
    contains_chars(text_chars.as_slice(), pattern_chars.as_slice())
}

/// Replaces every occurrence of `key` in `text` by `value`.
pub fn replace_chars(text: &[char], key: &[char], value: &[char]) -> (out: Vec<char>)
    ensures
        out@ == replace_all(text@, key@, value@),
{
    let mut out: Vec<char> = Vec::new();
    let mut i: usize = 0;
    assert(text@.skip(0) == text@);
    while i < text.len()
        invariant
            i <= text.len(),
            out@ + replace_all(text@.skip(i as int), key@, value@) == replace_all(
                text@,
                key@,
                value@,
            ),
        decreases text.len() - i,
    {
        let ghost rest = text@.skip(i as int);
        if key.len() == 0 {
            append_chars(&mut out, value);
            out.push(text[i]);
            proof {
                assert(rest.skip(1) == text@.skip(i + 1));
            }
            i += 1;
        } else if matches_at(text, key, i) {
            append_chars(&mut out, value);
            proof {
                assert(rest.subrange(0, key@.len() as int) == text@.subrange(
                    i as int,
                    i + key@.len(),
                ));
                assert(rest.skip(key@.len() as int) == text@.skip(i + key@.len()));
            }
            i += key.len();
        } else {
            out.push(text[i]);
            proof {
                if i + key@.len() <= text@.len() {
                    assert(rest.subrange(0, key@.len() as int) == text@.subrange(
                        i as int,
                        i + key@.len(),
                    ));
                }
                assert(rest.skip(1) == text@.skip(i + 1));
            }
            i += 1;
        }
    }
    if key.len() == 0 {
        append_chars(&mut out, value);
    }
    out
}

/// Tells whether a character is white space.
pub fn whitespace(c: char) -> (yes: bool)
    ensures
        yes == is_whitespace(c),
{
    let u: u32 = c as u32;
    (0x09 <= u && u <= 0x0D) || u == 0x20 || u == 0x85 || u == 0xA0 || u == 0x1680 || (0x2000 <= u
        && u <= 0x200A) || u == 0x2028 || u == 0x2029 || u == 0x202F || u == 0x205F || u == 0x3000
}

/// The string without the white space at either end.
pub fn trim(text: &str) -> (out: String)
    ensures
        out@ == trimmed(text@),
{
    let chars = chars_of(text);
    let mut start: usize = 0;
    assert(chars@.skip(0) == chars@);
    while start < chars.len() && whitespace(chars[start])
        invariant
            start <= chars.len(),
            trim_start(chars@.skip(start as int)) == trim_start(chars@),
        decreases chars.len() - start,
    {
        assert(chars@.skip(start as int).skip(1) == chars@.skip(start + 1));
        start += 1;
    }
    let mut end: usize = chars.len();
    while end > start && whitespace(chars[end - 1])
        invariant
            start <= end <= chars.len(),
            trim_end(chars@.subrange(start as int, end as int)) == trimmed(chars@),
        decreases end - start,
    {
        assert(chars@.subrange(start as int, end as int).drop_last() == chars@.subrange(
            start as int,
            end - 1,
        ));
        end -= 1;
    }
    let kept = vstd::slice::slice_subrange(chars.as_slice(), start, end);
    string_of(kept)
}

/// A text in which `key` does not stand is left as it is.
pub proof fn lemma_replace_absent(text: Seq<char>, key: Seq<char>, value: Seq<char>)
    requires
        !contains(text, key),
    ensures
        replace_all(text, key, value) == text,
    decreases text.len(),
{
    assert(key.len() > 0) by {
        if key.len() == 0 {
            assert(text.subrange(0, 0) == key);
            assert(occurs_at(text, key, 0));
        }
    }
    if text.len() > 0 {
        assert(!occurs_at(text, key, 0));
        let rest = text.skip(1);
        assert(!contains(rest, key)) by {
            if contains(rest, key) {
                let at = choose|at: int| occurs_at(rest, key, at);
                assert(rest.subrange(at, at + key.len()) == text.subrange(
                    at + 1,
                    at + 1 + key.len(),
                ));
                assert(occurs_at(text, key, at + 1));
            }
        }
        lemma_replace_absent(rest, key, value);
        assert(text.take(1) + rest == text);
    }
}

/// A text that holds another is at least as long.
pub proof fn lemma_contains_length(text: Seq<char>, pattern: Seq<char>)
    requires
        contains(text, pattern),
    ensures
        pattern.len() <= text.len(),
        pattern.len() == text.len() ==> pattern == text,
{
    let at = choose|at: int| occurs_at(text, pattern, at);
    if pattern.len() == text.len() {
        assert(text.subrange(0, text.len() as int) == text);
    }
}

/// Where `key` stands in `text`, the text with the key replaced is what
/// stands before the first occurrence, then the value, then what becomes of
/// the text behind that occurrence.
pub proof fn lemma_first_occurrence(text: Seq<char>, key: Seq<char>, value: Seq<char>) -> (first: int)
    requires
        key.len() > 0,
        contains(text, key),
    ensures
        occurs_at(text, key, first),
        forall|at: int| 0 <= at < first ==> !occurs_at(text, key, at),
        replace_all(text, key, value) == text.take(first) + value + replace_all(
            text.skip(first + key.len()),
            key,
            value,
        ),
    decreases text.len(),
{
    let found = choose|at: int| occurs_at(text, key, at);
    if occurs_at(text, key, 0) {
        assert(text.take(0) + value =~= value);
        0
    } else {
        let rest = text.skip(1);
        assert(occurs_at(rest, key, found - 1)) by {
            assert(rest.subrange(found - 1, found - 1 + key.len()) == text.subrange(
                found,
                found + key.len(),
            ));
        }
        let below = lemma_first_occurrence(rest, key, value);
        let first = below + 1;
        assert(occurs_at(text, key, first)) by {
            assert(rest.subrange(below, below + key.len()) == text.subrange(
                first,
                first + key.len(),
            ));
        }
        assert forall|at: int| 0 <= at < first implies !occurs_at(text, key, at) by {
            if at > 0 && occurs_at(text, key, at) {
                assert(rest.subrange(at - 1, at - 1 + key.len()) == text.subrange(
                    at,
                    at + key.len(),
                ));
                assert(occurs_at(rest, key, at - 1));
            }
        }
        assert(rest.skip(below + key.len()) == text.skip(first + key.len()));
        assert(text.take(1) + (rest.take(below) + value + replace_all(
            text.skip(first + key.len()),
            key,
            value,
        )) =~= text.take(first) + value + replace_all(text.skip(first + key.len()), key, value));
        first
    }
}

} // verus!
