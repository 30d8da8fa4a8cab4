//! Putting secrets into a text.
//!
//! Each secret of the table, in the table's order, has every occurrence of
//! its key replaced by its value, in the whole text as the secrets before it
//! have left it. The table has its longest keys first, so where one key is
//! part of another the longer one is replaced before the shorter one can
//! take a piece out of it.

use crate::config::{is_table, pairs_of, Pair, Secrets};
use crate::text::{
    chars_of, contains, contains_chars, lemma_contains_length, lemma_first_occurrence,
    lemma_replace_absent, occurs_at, replace_all, replace_chars, string_of,
};
use vstd::prelude::*;

verus! {

/// The text after each secret of the table, in the table's order, has had
/// every occurrence of its key replaced by its value. Each secret works on
/// the whole text that the secrets before it have left.
pub open spec fn substituted(text: Seq<char>, table: Seq<Pair>) -> Seq<char>
    decreases table.len(),
{
    if table.len() == 0 {
        text
    } else {
        substituted(replace_all(text, table[0].0, table[0].1), table.skip(1))
    }
}

/// Some secret of the table found its key in the text that the secrets
/// before it had left.
pub open spec fn any_found(text: Seq<char>, table: Seq<Pair>) -> bool
    decreases table.len(),
{
    if table.len() == 0 {
        false
    } else {
        contains(text, table[0].0) || any_found(
            replace_all(text, table[0].0, table[0].1),
            table.skip(1),
        )
    }
}

/// A text with its secrets in place.
#[derive(Debug, PartialEq, Eq)]
pub struct SecretInsertionResult {
    pub text: String,
    /// Whether any key was found.
    pub inserted: bool,
}

/// Puts the secrets into a text.
pub fn insert_secrets(text: String, secrets: &Secrets) -> (result: SecretInsertionResult)
    ensures
        result.text@ == substituted(text@, secrets@),
        result.inserted == any_found(text@, secrets@),
{
    let entries = secrets.entries();
    let ghost table = secrets@;
    let mut chars = chars_of(text.as_str());
    let mut inserted = false;
    let mut i: usize = 0;
    assert(table.skip(0) == table);
    while i < entries.len()
        invariant
            i <= entries.len(),
            table == pairs_of(entries@),
            substituted(chars@, table.skip(i as int)) == substituted(text@, table),
            (inserted || any_found(chars@, table.skip(i as int))) == any_found(text@, table),
            !inserted ==> chars@ == text@,
        decreases entries.len() - i,
    {
        let ghost rest = table.skip(i as int);
        assert(rest.skip(1) == table.skip(i + 1));
        let key = chars_of(entries[i].0.as_str());
        if contains_chars(chars.as_slice(), key.as_slice()) {
            let value = chars_of(entries[i].1.as_str());
            chars = replace_chars(chars.as_slice(), key.as_slice(), value.as_slice());
            inserted = true;
        } else {
            proof {
                lemma_replace_absent(chars@, key@, entries@[i as int].1@);
            }
        }
        i += 1;
    }
    if inserted {
        SecretInsertionResult { text: string_of(chars.as_slice()), inserted }
    } else {
        SecretInsertionResult { text, inserted }
    }
}

/// A text in which no key of the table stands is left as it is.
pub proof fn lemma_nothing_to_substitute(text: Seq<char>, table: Seq<Pair>)
    requires
        forall|i: int| 0 <= i < table.len() ==> !contains(text, (#[trigger] table[i]).0),
    ensures
        substituted(text, table) == text,
        !any_found(text, table),
    decreases table.len(),
{
    if table.len() > 0 {
        assert(!contains(text, table[0].0));
        lemma_replace_absent(text, table[0].0, table[0].1);
        let rest = table.skip(1);
        assert forall|i: int| 0 <= i < rest.len() implies !contains(text, (#[trigger] rest[i]).0) by {
            assert(rest[i] == table[i + 1]);
        }
        lemma_nothing_to_substitute(text, rest);
    }
}

/// Putting the secrets in a second time changes nothing, where the first
/// time has left no key in the text.
pub proof fn lemma_substitution_idempotent(text: Seq<char>, table: Seq<Pair>)
    requires
        forall|i: int|
            0 <= i < table.len() ==> !contains(substituted(text, table), (#[trigger] table[i]).0),
    ensures
        substituted(substituted(text, table), table) == substituted(text, table),
{
    lemma_nothing_to_substitute(substituted(text, table), table);
}

/// Where one key of a table is part of another, the longer one stands first:
/// it is replaced before the shorter one can take a piece out of it.
pub proof fn lemma_longer_key_first(table: Seq<Pair>, i: int, j: int)
    requires
        is_table(table),
        0 <= i < table.len(),
        0 <= j < table.len(),
        i != j,
        contains(table[i].0, table[j].0),
    ensures
        i < j,
{
    lemma_contains_length(table[i].0, table[j].0);
}

/// `value` stays clear of `key`: it is no part of the key, and it holds
/// neither the first nor the last character of the key.
pub open spec fn stays_clear(value: Seq<char>, key: Seq<char>) -> bool {
    &&& key.len() > 0
    &&& !contains(key, value)
    &&& !value.contains(key.first())
    &&& !value.contains(key.last())
}

/// Every value of the table stays clear of every key of the table.
pub open spec fn values_stay_clear(table: Seq<Pair>) -> bool {
    forall|i: int, j: int|
        0 <= i < table.len() && 0 <= j < table.len() ==> stays_clear(
            (#[trigger] table[j]).1,
            (#[trigger] table[i]).0,
        )
}

/// Replacing a key by a value that stays clear of a pattern brings the
/// pattern into no text in which it stood, if at all, only where the key
/// stood.
proof fn lemma_replace_leaves_none(
    text: Seq<char>,
    key: Seq<char>,
    value: Seq<char>,
    pattern: Seq<char>,
)
    requires
        key.len() > 0,
        stays_clear(value, pattern),
        forall|at: int| occurs_at(text, pattern, at) ==> occurs_at(text, key, at),
    ensures
        !contains(replace_all(text, key, value), pattern),
    decreases text.len(),
{
    let out = replace_all(text, key, value);
    if !contains(text, key) {
        lemma_replace_absent(text, key, value);
        if contains(text, pattern) {
            let at = choose|at: int| occurs_at(text, pattern, at);
            assert(occurs_at(text, key, at));
        }
    } else {
        let first = lemma_first_occurrence(text, key, value);
        let behind = first + key.len();
        let rest = text.skip(behind);
        let tail = replace_all(rest, key, value);
        assert forall|at: int| occurs_at(rest, pattern, at) implies occurs_at(rest, key, at) by {
            assert(rest.subrange(at, at + pattern.len()) == text.subrange(
                at + behind,
                at + behind + pattern.len(),
            ));
            assert(occurs_at(text, pattern, at + behind));
            assert(rest.subrange(at, at + key.len()) == text.subrange(
                at + behind,
                at + behind + key.len(),
            ));
        }
        lemma_replace_leaves_none(rest, key, value, pattern);
        let put = first + value.len();
        assert(out == text.take(first) + value + tail);
        if contains(out, pattern) {
            let at = choose|at: int| occurs_at(out, pattern, at);
            let end = at + pattern.len();
            let window = out.subrange(at, end);
            assert(window == pattern);
            if end <= first {
                assert(window =~= text.subrange(at, end));
                assert(occurs_at(text, pattern, at));
                assert(occurs_at(text, key, at));
            } else if at >= put {
                assert(window =~= tail.subrange(at - put, end - put));
                assert(occurs_at(tail, pattern, at - put));
            } else if at >= first {
                assert(window[0] == out[at]);
                assert(out[at] == value[at - first]);
                assert(value.contains(pattern.first()));
            } else if end <= put {
                assert(window[pattern.len() - 1] == out[end - 1]);
                assert(out[end - 1] == value[end - 1 - first]);
                assert(value.contains(pattern.last()));
            } else {
                assert(pattern.subrange(first - at, put - at) =~= value) by {
                    assert forall|k: int| 0 <= k < value.len() implies pattern[first - at + k]
                        == value[k] by {
                        assert(window[first - at + k] == out[first + k]);
                    }
                }
                assert(occurs_at(pattern, value, first - at));
            }
        }
    }
}

/// A pattern of which every value of the table stays clear is brought by the
/// secrets into no text in which it did not stand.
proof fn lemma_substitution_brings_none(text: Seq<char>, table: Seq<Pair>, pattern: Seq<char>)
    requires
        !contains(text, pattern),
        forall|i: int|
            0 <= i < table.len() ==> (#[trigger] table[i]).0.len() > 0 && stays_clear(
                table[i].1,
                pattern,
            ),
    ensures
        !contains(substituted(text, table), pattern),
    decreases table.len(),
{
    if table.len() > 0 {
        assert(table[0].0.len() > 0);
        lemma_replace_leaves_none(text, table[0].0, table[0].1, pattern);
        let rest = table.skip(1);
        assert forall|i: int| 0 <= i < rest.len() implies (#[trigger] rest[i]).0.len() > 0
            && stays_clear(rest[i].1, pattern) by {
            assert(rest[i] == table[i + 1]);
        }
        lemma_substitution_brings_none(replace_all(text, table[0].0, table[0].1), rest, pattern);
    }
}

/// Where every value of a table stays clear of every key, the secrets leave
/// no key in any text.
pub proof fn lemma_clear_values_leave_no_key(text: Seq<char>, table: Seq<Pair>, which: int)
    requires
        values_stay_clear(table),
        0 <= which < table.len(),
    ensures
        !contains(substituted(text, table), table[which].0),
    decreases table.len(),
{
    let key = table[0].0;
    let value = table[0].1;
    let next = replace_all(text, key, value);
    let rest = table.skip(1);
    assert(stays_clear(table[0].1, table[0].0));
    if which == 0 {
        lemma_replace_leaves_none(text, key, value, key);
        assert forall|i: int| 0 <= i < rest.len() implies (#[trigger] rest[i]).0.len() > 0
            && stays_clear(rest[i].1, key) by {
            assert(rest[i] == table[i + 1]);
            assert(stays_clear(table[i + 1].1, table[0].0));
            assert(stays_clear(table[i + 1].1, table[i + 1].0));
        }
        lemma_substitution_brings_none(next, rest, key);
    } else {
        assert forall|i: int, j: int|
            0 <= i < rest.len() && 0 <= j < rest.len() implies stays_clear(
            (#[trigger] rest[j]).1,
            (#[trigger] rest[i]).0,
        ) by {
            assert(rest[i] == table[i + 1]);
            assert(rest[j] == table[j + 1]);
            assert(stays_clear(table[j + 1].1, table[i + 1].0));
        }
        assert(rest[which - 1] == table[which]);
        lemma_clear_values_leave_no_key(next, rest, which - 1);
    }
}

/// Where every value of a table stays clear of every key, putting the
/// secrets in a second time changes nothing.
pub proof fn lemma_clear_values_idempotent(text: Seq<char>, table: Seq<Pair>)
    requires
        values_stay_clear(table),
    ensures
        substituted(substituted(text, table), table) == substituted(text, table),
{
    assert forall|i: int| 0 <= i < table.len() implies !contains(
        substituted(text, table),
        (#[trigger] table[i]).0,
    ) by {
        lemma_clear_values_leave_no_key(text, table, i);
    }
    lemma_substitution_idempotent(text, table);
}

} // verus!
