//! The settings of a run, and the table of secrets among them.

use crate::path::{joined, FilePath};
use vstd::prelude::*;
use vstd::string::StrSliceExecFns;

verus! {

/// A secret as text: the key that stands in the files, and the value that
/// takes its place.
pub type Pair = (Seq<char>, Seq<char>);

/// What the pairs of strings stand for, one by one.
pub open spec fn pairs_of(pairs: Seq<(String, String)>) -> Seq<Pair> {
    Seq::new(pairs.len(), |i: int| (pairs[i].0@, pairs[i].1@))
}

/// No key is longer than a key before it.
pub open spec fn longest_first(table: Seq<Pair>) -> bool {
    forall|i: int, j: int|
        0 <= i < j < table.len() ==> (#[trigger] table[i]).0.len() >= (#[trigger] table[j]).0.len()
}

/// No key stands twice.
pub open spec fn keys_differ(table: Seq<Pair>) -> bool {
    forall|i: int, j: int|
        0 <= i < j < table.len() ==> (#[trigger] table[i]).0 != (#[trigger] table[j]).0
}

/// What holds of every table of secrets.
pub open spec fn is_table(table: Seq<Pair>) -> bool {
    longest_first(table) && keys_differ(table)
}

/// `key` is a key of the table.
pub open spec fn has_key(table: Seq<Pair>, key: Seq<char>) -> bool {
    exists|i: int| 0 <= i < table.len() && (#[trigger] table[i]).0 == key
}

/// Where `key` stands in a table that has it.
pub open spec fn index_of(table: Seq<Pair>, key: Seq<char>) -> int {
    choose|i: int| 0 <= i < table.len() && (#[trigger] table[i]).0 == key
}

/// Where a new key of `length` characters belongs in the table: behind every
/// key that is at least as long.
pub open spec fn slot(table: Seq<Pair>, length: nat) -> int
    decreases table.len(),
{
    if table.len() > 0 && table.last().0.len() < length {
        slot(table.drop_last(), length)
    } else {
        table.len() as int
    }
}

/// The table with `value` for `key`: in the place of the old value where the
/// table has the key, else as a new entry.
pub open spec fn with_secret(table: Seq<Pair>, key: Seq<char>, value: Seq<char>) -> Seq<Pair> {
    if has_key(table, key) {
        table.update(index_of(table, key), (key, value))
    } else {
        table.insert(slot(table, key.len()), (key, value))
    }
}

/// The table made of `pairs`, taken in one after the other. Of two pairs with
/// one key the later gives the value; of two keys of one length the one that
/// came first stands first.
pub open spec fn table_of(pairs: Seq<Pair>) -> Seq<Pair>
    decreases pairs.len(),
{
    if pairs.len() == 0 {
        Seq::empty()
    } else {
        with_secret(table_of(pairs.drop_last()), pairs.last().0, pairs.last().1)
    }
}

/// Taking in a secret keeps a table a table.
pub proof fn lemma_with_secret_is_table(table: Seq<Pair>, key: Seq<char>, value: Seq<char>)
    requires
        is_table(table),
    ensures
        is_table(with_secret(table, key, value)),
{
    let next = with_secret(table, key, value);
    if has_key(table, key) {
        let at = index_of(table, key);
        assert forall|i: int, j: int| 0 <= i < j < next.len() implies (#[trigger] next[i]).0.len()
            >= (#[trigger] next[j]).0.len() && next[i].0 != next[j].0 by {
            assert(next[i].0 == table[i].0);
            assert(next[j].0 == table[j].0);
        }
    } else {
        let at = slot(table, key.len());
        lemma_slot(table, key.len());
        assert forall|i: int, j: int| 0 <= i < j < next.len() implies (#[trigger] next[i]).0.len()
            >= (#[trigger] next[j]).0.len() && next[i].0 != next[j].0 by {
            let a = if i < at {
                i
            } else {
                i - 1
            };
            let b = if j < at {
                j
            } else {
                j - 1
            };
            if i != at {
                assert(next[i] == table[a]);
            }
            if j != at {
                assert(next[j] == table[b]);
            }
        }
    }
}

/// The place for a new key lies behind the keys that are at least as long and
/// before those that are shorter.
pub proof fn lemma_slot(table: Seq<Pair>, length: nat)
    requires
        longest_first(table),
    ensures
        0 <= slot(table, length) <= table.len(),
        forall|i: int| 0 <= i < slot(table, length) ==> (#[trigger] table[i]).0.len() >= length,
        forall|i: int|
            slot(table, length) <= i < table.len() ==> (#[trigger] table[i]).0.len() < length,
    decreases table.len(),
{
    if table.len() > 0 && table.last().0.len() < length {
        let before = table.drop_last();
        assert forall|i: int, j: int| 0 <= i < j < before.len() implies (#[trigger] before[i]).0.len()
            >= (#[trigger] before[j]).0.len() by {
            assert(before[i] == table[i]);
            assert(before[j] == table[j]);
        }
        lemma_slot(before, length);
        assert forall|i: int| 0 <= i < slot(table, length) implies (#[trigger] table[i]).0.len()
            >= length by {
            assert(before[i] == table[i]);
        }
        assert forall|i: int| slot(table, length) <= i < table.len() implies (
        #[trigger] table[i]).0.len() < length by {
            if i < before.len() {
                assert(before[i] == table[i]);
            }
        }
    } else if table.len() > 0 {
        assert forall|i: int| 0 <= i < table.len() implies (#[trigger] table[i]).0.len()
            >= length by {
            if i < table.len() - 1 {
                assert(table[i].0.len() >= table[table.len() - 1].0.len());
            }
        }
    }
}

/// What is made of pairs is a table.
pub proof fn lemma_table_of_is_table(pairs: Seq<Pair>)
    ensures
        is_table(table_of(pairs)),
    decreases pairs.len(),
{
    if pairs.len() > 0 {
        lemma_table_of_is_table(pairs.drop_last());
        lemma_with_secret_is_table(table_of(pairs.drop_last()), pairs.last().0, pairs.last().1);
    }
}

/// The value that the table has for `key`, where it has the key.
pub open spec fn value_of(table: Seq<Pair>, key: Seq<char>) -> Option<Seq<char>> {
    if has_key(table, key) {
        Some(table[index_of(table, key)].1)
    } else {
        None
    }
}

/// The value of the last of `pairs` that has `key`, where one has it.
pub open spec fn last_value(pairs: Seq<Pair>, key: Seq<char>) -> Option<Seq<char>>
    decreases pairs.len(),
{
    if pairs.len() == 0 {
        None
    } else if pairs.last().0 == key {
        Some(pairs.last().1)
    } else {
        last_value(pairs.drop_last(), key)
    }
}

/// In a table every key stands at one place only.
proof fn lemma_one_place(table: Seq<Pair>, at: int)
    requires
        keys_differ(table),
        0 <= at < table.len(),
    ensures
        has_key(table, table[at].0),
        index_of(table, table[at].0) == at,
{
    let found = index_of(table, table[at].0);
    if found < at {
        assert(table[found].0 != table[at].0);
    } else if found > at {
        assert(table[at].0 != table[found].0);
    }
}

/// A table that has taken in a secret has its value for its key, and for
/// every other key what it had before.
pub proof fn lemma_with_secret_values(
    table: Seq<Pair>,
    key: Seq<char>,
    value: Seq<char>,
    other: Seq<char>,
)
    requires
        is_table(table),
    ensures
        value_of(with_secret(table, key, value), other) == (if other == key {
            Some(value)
        } else {
            value_of(table, other)
        }),
{
    let next = with_secret(table, key, value);
    lemma_with_secret_is_table(table, key, value);
    let at = if has_key(table, key) {
        index_of(table, key)
    } else {
        lemma_slot(table, key.len());
        slot(table, key.len())
    };
    assert(next[at] == (key, value));
    let before = |i: int|
        if has_key(table, key) || i < at {
            i
        } else {
            i - 1
        };
    let after = |i: int|
        if has_key(table, key) || i < at {
            i
        } else {
            i + 1
        };
    assert forall|i: int| 0 <= i < next.len() && i != at implies #[trigger] next[i] == table[before(
        i,
    )] by {}
    assert forall|i: int|
        0 <= i < table.len() && !(has_key(table, key) && i == at) implies #[trigger] table[i]
        == next[after(i)] by {}
    if other == key {
        lemma_one_place(next, at);
    } else if has_key(table, other) {
        let old = index_of(table, other);
        assert(table[old] == next[after(old)]);
        lemma_one_place(next, after(old));
    } else if has_key(next, other) {
        let new = index_of(next, other);
        assert(next[new] == table[before(new)]);
    }
}

/// The table made of pairs has, for every key, the value of the last pair
/// with that key, and has no other keys.
pub proof fn lemma_table_of_values(pairs: Seq<Pair>, key: Seq<char>)
    ensures
        value_of(table_of(pairs), key) == last_value(pairs, key),
    decreases pairs.len(),
{
    if pairs.len() > 0 {
        let before = pairs.drop_last();
        lemma_table_of_is_table(before);
        lemma_table_of_values(before, key);
        lemma_with_secret_values(table_of(before), pairs.last().0, pairs.last().1, key);
    }
}

/// The secrets of a run: keys with their values, no key twice, and no key
/// behind a shorter one, a key being as long as it has characters. So where
/// one key is part of another, the longer is met first.
#[derive(Debug, PartialEq, Eq)]
pub struct Secrets {
    entries: Vec<(String, String)>,
}

impl View for Secrets {
    type V = Seq<Pair>;

    closed spec fn view(&self) -> Seq<Pair> {
        pairs_of(self.entries@)
    }
}

impl Clone for Secrets {
    fn clone(&self) -> (copy: Self)
        ensures
            copy@ == self@,
    {
        proof {
            use_type_invariant(self);
        }
        let entries = copy_pairs(&self.entries);
        Secrets { entries }
    }
}

impl Secrets {
    /// The secrets are a table.
    #[verifier::type_invariant]
    pub open spec fn valid(&self) -> bool {
        is_table(self@)
    }

    /// The table without secrets.
    pub fn new() -> (secrets: Secrets)
        ensures
            secrets@ == Seq::<Pair>::empty(),
    {
        let entries: Vec<(String, String)> = Vec::new();
        Secrets { entries }
    }

    /// The table made of the given pairs, taken in one after the other.
    pub fn from_pairs(pairs: Vec<(String, String)>) -> (secrets: Secrets)
        ensures
            secrets@ == table_of(pairs_of(pairs@)),
            is_table(secrets@),
    {
        let mut entries: Vec<(String, String)> = Vec::new();
        let mut i: usize = 0;
        while i < pairs.len()
            invariant
                i <= pairs.len(),
                pairs_of(entries@) == table_of(pairs_of(pairs@).take(i as int)),
                is_table(pairs_of(entries@)),
            decreases pairs.len() - i,
        {
            let ghost taken = pairs_of(pairs@).take(i + 1);
            assert(taken.drop_last() == pairs_of(pairs@).take(i as int));
            proof {
                lemma_with_secret_is_table(
                    pairs_of(entries@),
                    pairs@[i as int].0@,
                    pairs@[i as int].1@,
                );
            }
            put(&mut entries, pairs[i].0.clone(), pairs[i].1.clone());
            i += 1;
        }
        assert(pairs_of(pairs@).take(pairs.len() as int) == pairs_of(pairs@));
        Secrets { entries }
    }

    /// The secrets in their order.
    pub fn entries(&self) -> (entries: &Vec<(String, String)>)
        ensures
            pairs_of(entries@) == self@,
            is_table(self@),
    {
        proof {
            use_type_invariant(self);
        }
        &self.entries
    }
}

/// A copy of the pairs.
fn copy_pairs(pairs: &Vec<(String, String)>) -> (copy: Vec<(String, String)>)
    ensures
        pairs_of(copy@) == pairs_of(pairs@),
{
    let mut copy: Vec<(String, String)> = Vec::new();
    let mut i: usize = 0;
    while i < pairs.len()
        invariant
            i <= pairs.len(),
            copy@.len() == i,
            forall|k: int|
                0 <= k < i ==> (#[trigger] copy@[k]).0@ == pairs@[k].0@ && copy@[k].1@
                    == pairs@[k].1@,
        decreases pairs.len() - i,
    {
        copy.push((pairs[i].0.clone(), pairs[i].1.clone()));
        i += 1;
    }
    copy
}

/// Takes `value` for `key` into the entries of a table.
fn put(entries: &mut Vec<(String, String)>, key: String, value: String)
    requires
        is_table(pairs_of(old(entries)@)),
    ensures
        pairs_of(final(entries)@) == with_secret(pairs_of(old(entries)@), key@, value@),
{
    let ghost table = pairs_of(entries@);
    let mut i: usize = 0;
    while i < entries.len()
        invariant
            i <= entries.len(),
            entries@ == old(entries)@,
            table == pairs_of(entries@),
            is_table(table),
            forall|k: int| 0 <= k < i ==> (#[trigger] table[k]).0 != key@,
        decreases entries.len() - i,
    {
        if entries[i].0 == key {
            assert(table[i as int].0 == key@);
            entries.set(i, (key, value));
            return ;
        }
        i += 1;
    }
    let length = key.as_str().unicode_len();
    let mut at: usize = entries.len();
    assert(table.take(at as int) == table);
    while at > 0 && entries[at - 1].0.as_str().unicode_len() < length
        invariant
            at <= entries.len(),
            entries@ == old(entries)@,
            table == pairs_of(entries@),
            length == key@.len(),
            slot(table.take(at as int), key@.len()) == slot(table, key@.len()),
        decreases at,
    {
        assert(table.take(at as int).drop_last() == table.take(at - 1));
        at -= 1;
    }
    entries.insert(at, (key, value));
}

/// The directories as the user's file names them.
#[derive(Debug, PartialEq, Eq)]
pub struct UserDirectories {
    pub source: FilePath,
    pub dry_run: FilePath,
}

/// The directories of a run.
#[derive(Debug, PartialEq, Eq)]
pub struct Directories {
    pub home: FilePath,
    pub source: FilePath,
    pub dry_run: FilePath,
}

/// How texts are templated.
#[derive(Debug, PartialEq, Eq)]
pub struct Matchpick {
    /// Files larger than this many bytes are not templated.
    pub max_file_size: u64,
    /// The marker that opens a block and starts each of its cases.
    pub start_pattern: String,
    /// The marker that closes a block.
    pub end_pattern: String,
    /// A line that holds this marker is never read as a marker line.
    pub ignore_pattern: Option<String>,
}

/// The settings as the user's file holds them.
#[derive(Debug, PartialEq, Eq)]
pub struct UserConfiguration {
    pub hostname: Option<String>,
    pub directories: UserDirectories,
    pub matchpick: Matchpick,
    pub variables: Vec<(String, String)>,
}

/// The settings of a run.
#[derive(Debug, PartialEq, Eq)]
pub struct Config {
    pub hostname: String,
    pub dirs: Directories,
    pub matchpick: Matchpick,
    pub secrets: Secrets,
}

impl Config {
    /// The settings of a run, from what the user's files hold.
    ///
    /// The directories of the user's file are taken from `home_dir`. The host
    /// is the one that the file names, else `machine_hostname`. The table of
    /// secrets takes in the file's variables and then `secrets`, so that of a
    /// key in both the secret counts.
    pub fn new(
        home_dir: FilePath,
        user: UserConfiguration,
        secrets: Vec<(String, String)>,
        machine_hostname: String,
    ) -> (config: Config)
        ensures
            config.hostname@ == (match user.hostname {
                Some(name) => name@,
                None => machine_hostname@,
            }),
            config.dirs.home@ == home_dir@,
            config.dirs.source@ == joined(home_dir@, user.directories.source@),
            config.dirs.dry_run@ == joined(home_dir@, user.directories.dry_run@),
            config.matchpick == user.matchpick,
            config.secrets@ == table_of(pairs_of(user.variables@) + pairs_of(secrets@)),
    {
        let hostname = match user.hostname {
            Some(name) => name,
            None => machine_hostname,
        };
        let dirs = Directories {
            source: home_dir.join(&user.directories.source),
            dry_run: home_dir.join(&user.directories.dry_run),
            home: home_dir,
        };
        let mut pairs = user.variables;
        let mut more = secrets;
        pairs.append(&mut more);
        assert(pairs_of(pairs@) =~= pairs_of(user.variables@) + pairs_of(secrets@));
        Config { hostname, dirs, matchpick: user.matchpick, secrets: Secrets::from_pairs(pairs) }
    }
}

} // verus!
