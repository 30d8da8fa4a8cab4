//! File paths as lists of names.
//!
//! A path is either absolute or relative and holds the names that lead from
//! its start to the file. Written as text the names are separated by `/`;
//! empty names and the name `.` say nothing about where a file is and are left
//! out when a text is read (`a//b`, `a/./b` and `a/b/` are the path `a/b`).
//! The name `..` is kept like any other name: nothing here looks at the disk.
//! The relative path without names is the empty path; it names no file, and
//! joined to a path it leaves that path as it is.

use crate::text::{append_chars, chars_of, string_of, texts_of};
use vstd::prelude::*;

verus! {

/// What a path says: whether it starts at the root, and its names in order.
pub struct PathView {
    pub absolute: bool,
    pub parts: Seq<Seq<char>>,
}

/// A text that can be one name of a path.
pub open spec fn is_name(name: Seq<char>) -> bool {
    &&& name.len() > 0
    &&& name != seq!['.']
    &&& forall|i: int| 0 <= i < name.len() ==> name[i] != '/'
}

/// Each of the texts is a name.
pub open spec fn all_names(parts: Seq<Seq<char>>) -> bool {
    forall|i: int| 0 <= i < parts.len() ==> is_name(#[trigger] parts[i])
}

/// Every name of the path is a name.
pub open spec fn well_formed(path: PathView) -> bool {
    all_names(path.parts)
}

/// `parts` followed by `name`, where `name` says something.
pub open spec fn with_name(parts: Seq<Seq<char>>, name: Seq<char>) -> Seq<Seq<char>> {
    if name.len() == 0 || name == seq!['.'] {
        parts
    } else {
        parts.push(name)
    }
}

/// The names of `text`, read from left to right, after the names `parts` that
/// were read before and the characters `name` of the name that is being read.
pub open spec fn split(text: Seq<char>, parts: Seq<Seq<char>>, name: Seq<char>) -> Seq<
    Seq<char>,
>
    decreases text.len(),
{
    if text.len() == 0 {
        with_name(parts, name)
    } else if text[0] == '/' {
        split(text.skip(1), with_name(parts, name), Seq::empty())
    } else {
        split(text.skip(1), parts, name.push(text[0]))
    }
}

/// The path that a text stands for.
pub open spec fn path_of(text: Seq<char>) -> PathView {
    PathView {
        absolute: text.len() > 0 && text[0] == '/',
        parts: split(text, Seq::empty(), Seq::empty()),
    }
}

/// The names with a `/` between each two of them.
pub open spec fn names_text(parts: Seq<Seq<char>>) -> Seq<char>
    decreases parts.len(),
{
    if parts.len() == 0 {
        Seq::empty()
    } else if parts.len() == 1 {
        parts[0]
    } else {
        names_text(parts.drop_last()) + seq!['/'] + parts.last()
    }
}

/// A path written as text. The relative path without names is the empty
/// text.
pub open spec fn text_of(path: PathView) -> Seq<char> {
    if path.absolute {
        seq!['/'] + names_text(path.parts)
    } else {
        names_text(path.parts)
    }
}

/// `other` as seen from `base`: an absolute `other` stays what it is, a
/// relative one goes on where `base` ends.
pub open spec fn joined(base: PathView, other: PathView) -> PathView {
    if other.absolute {
        other
    } else {
        PathView { absolute: base.absolute, parts: base.parts + other.parts }
    }
}

/// `path` starts with all of `base`, name by name.
pub open spec fn is_under(path: PathView, base: PathView) -> bool {
    &&& path.absolute == base.absolute
    &&& base.parts.len() <= path.parts.len()
    &&& path.parts.take(base.parts.len() as int) == base.parts
}

/// What is left of `path` behind `base`.
pub open spec fn relative_to(path: PathView, base: PathView) -> PathView {
    PathView { absolute: false, parts: path.parts.skip(base.parts.len() as int) }
}

/// The path without its last name; a path without names has no parent.
pub open spec fn parent_of(path: PathView) -> Option<PathView> {
    if path.parts.len() == 0 {
        None
    } else {
        Some(PathView { absolute: path.absolute, parts: path.parts.drop_last() })
    }
}

/// A file path.
#[derive(Debug, PartialEq, Eq)]
pub struct FilePath {
    absolute: bool,
    parts: Vec<String>,
}

impl View for FilePath {
    type V = PathView;

    closed spec fn view(&self) -> PathView {
        PathView { absolute: self.absolute, parts: texts_of(self.parts@) }
    }
}

impl Clone for FilePath {
    fn clone(&self) -> (copy: Self)
        ensures
            copy@ == self@,
    {
        proof {
            use_type_invariant(self);
        }
        let parts = self.parts.clone();
        FilePath { absolute: self.absolute, parts }
    }
}

impl FilePath {
    /// Every name of a path is a name.
    #[verifier::type_invariant]
    pub open spec fn valid(&self) -> bool {
        well_formed(self@)
    }

    /// Reads a path from its text.
    pub fn parse(text: &str) -> (path: FilePath)
        ensures
            path@ == path_of(text@),
            well_formed(path@),
    {
        let chars = chars_of(text);
        let absolute = chars.len() > 0 && chars[0] == '/';
        let mut parts: Vec<String> = Vec::new();
        let mut name: Vec<char> = Vec::new();
        let mut i: usize = 0;
        assert(chars@.skip(0) == chars@);
        assert(texts_of(parts@) =~= Seq::<Seq<char>>::empty());
        while i < chars.len()
            invariant
                i <= chars.len(),
                split(chars@.skip(i as int), texts_of(parts@), name@) == split(
                    chars@,
                    Seq::empty(),
                    Seq::empty(),
                ),
                all_names(texts_of(parts@)),
                forall|k: int| 0 <= k < name.len() ==> name@[k] != '/',
            decreases chars.len() - i,
        {
            assert(chars@.skip(i as int).skip(1) == chars@.skip(i + 1));
            if chars[i] == '/' {
                close_name(&mut parts, &mut name);
            } else {
                name.push(chars[i]);
            }
            i += 1;
        }
        close_name(&mut parts, &mut name);
        FilePath { absolute, parts }
    }

    /// Writes the path as text.
    pub fn render(&self) -> (text: String)
        ensures
            text@ == text_of(self@),
    {
        let mut out: Vec<char> = Vec::new();
        if self.absolute {
            out.push('/');
        }
        let ghost start = out@;
        let mut i: usize = 0;
        while i < self.parts.len()
            invariant
                i <= self.parts.len(),
                out@ == start + names_text(texts_of(self.parts@).take(i as int)),
            decreases self.parts.len() - i,
        {
            let ghost done = texts_of(self.parts@).take(i as int);
            let ghost next = texts_of(self.parts@).take(i + 1);
            assert(next.drop_last() == done);
            if i > 0 {
                out.push('/');
            }
            let name = chars_of(self.parts[i].as_str());
            append_chars(&mut out, name.as_slice());
            i += 1;
        }
        assert(texts_of(self.parts@).take(self.parts.len() as int) == texts_of(self.parts@));
        string_of(out.as_slice())
    }

    /// Tells whether the path starts at the root.
    pub fn is_absolute(&self) -> (absolute: bool)
        ensures
            absolute == self@.absolute,
    {
        self.absolute
    }

    /// The path `other` as seen from this one.
    pub fn join(&self, other: &FilePath) -> (path: FilePath)
        ensures
            path@ == joined(self@, other@),
    {
        proof {
            use_type_invariant(self);
            use_type_invariant(other);
        }
        if other.absolute {
            return other.clone();
        }
        let mut parts = self.parts.clone();
        let mut i: usize = 0;
        while i < other.parts.len()
            invariant
                i <= other.parts.len(),
                texts_of(parts@) == texts_of(self.parts@) + texts_of(other.parts@).take(i as int),
            decreases other.parts.len() - i,
        {
            let ghost before = texts_of(parts@);
            parts.push(other.parts[i].clone());
            assert(texts_of(parts@) =~= before.push(other.parts@[i as int]@));
            i += 1;
        }
        assert(texts_of(other.parts@).take(other.parts.len() as int) == texts_of(other.parts@));
        FilePath { absolute: self.absolute, parts }
    }

    /// Tells whether this path starts with all of `base`.
    pub fn starts_with(&self, base: &FilePath) -> (under: bool)
        ensures
            under == is_under(self@, base@),
    {
        if self.absolute != base.absolute || base.parts.len() > self.parts.len() {
            return false;
        }
        let ghost mine = texts_of(self.parts@);
        let ghost theirs = texts_of(base.parts@);
        let mut i: usize = 0;
        while i < base.parts.len()
            invariant
                i <= base.parts.len() <= self.parts.len(),
                mine == texts_of(self.parts@),
                theirs == texts_of(base.parts@),
                forall|k: int| 0 <= k < i ==> mine[k] == theirs[k],
            decreases base.parts.len() - i,
        {
            if self.parts[i] != base.parts[i] {
                assert(mine.take(theirs.len() as int)[i as int] != theirs[i as int]);
                return false;
            }
            i += 1;
        }
        assert(mine.take(theirs.len() as int) =~= theirs);
        true
    }

    /// What is left of this path behind `base`, where it starts with `base`.
    pub fn strip_prefix(&self, base: &FilePath) -> (rest: Option<FilePath>)
        ensures
            rest is Some <==> is_under(self@, base@),
            rest matches Some(path) ==> path@ == relative_to(self@, base@),
    {
        proof {
            use_type_invariant(self);
        }
        if !self.starts_with(base) {
            return None;
        }
        let mut parts: Vec<String> = Vec::new();
        let mut i: usize = base.parts.len();
        while i < self.parts.len()
            invariant
                base.parts.len() <= i <= self.parts.len(),
                texts_of(parts@) == texts_of(self.parts@).subrange(
                    base.parts.len() as int,
                    i as int,
                ),
            decreases self.parts.len() - i,
        {
            let ghost before = texts_of(parts@);
            parts.push(self.parts[i].clone());
            assert(texts_of(self.parts@).subrange(base.parts.len() as int, i + 1) =~= before.push(
                self.parts@[i as int]@,
            ));
            i += 1;
        }
        Some(FilePath { absolute: false, parts })
    }

    /// The path without its last name.
    pub fn parent(&self) -> (up: Option<FilePath>)
        ensures
            match up {
                Some(path) => parent_of(self@) == Some(path@),
                None => parent_of(self@) is None,
            },
    {
        proof {
            use_type_invariant(self);
        }
        if self.parts.len() == 0 {
            return None;
        }
        let mut parts = self.parts.clone();
        parts.pop();
        assert(texts_of(parts@) =~= texts_of(self.parts@).drop_last());
        Some(FilePath { absolute: self.absolute, parts })
    }
}

/// Ends the name that is being read: it joins `parts` where it says something.
fn close_name(parts: &mut Vec<String>, name: &mut Vec<char>)
    requires
        all_names(texts_of(old(parts)@)),
        forall|k: int| 0 <= k < old(name).len() ==> old(name)@[k] != '/',
    ensures
        texts_of(final(parts)@) == with_name(texts_of(old(parts)@), old(name)@),
        all_names(texts_of(final(parts)@)),
        final(name)@ == Seq::<char>::empty(),
{
    let single_dot = name.len() == 1 && name[0] == '.';
    if name.len() > 0 && !single_dot {
        parts.push(string_of(name.as_slice()));
    } else {
        assert(single_dot ==> name@ =~= seq!['.']);
    }
    name.clear();
}

/// What is left of a path behind a base leads back to the path from that base.
pub proof fn lemma_join_relative(path: PathView, base: PathView)
    requires
        is_under(path, base),
    ensures
        joined(base, relative_to(path, base)) == path,
{
    let n = base.parts.len() as int;
    assert(path.parts.take(n) + path.parts.skip(n) == path.parts);
}

/// A relative path joined to a base lies under that base, and what is left
/// of it behind the base is the relative path.
pub proof fn lemma_relative_join(base: PathView, rest: PathView)
    requires
        !rest.absolute,
    ensures
        is_under(joined(base, rest), base),
        relative_to(joined(base, rest), base) == rest,
{
    let n = base.parts.len() as int;
    assert((base.parts + rest.parts).take(n) == base.parts);
    assert((base.parts + rest.parts).skip(n) == rest.parts);
}

/// Every path lies under itself, and nothing is left of it behind itself.
pub proof fn lemma_under_itself(path: PathView)
    ensures
        is_under(path, path),
        relative_to(path, path).parts.len() == 0,
{
    assert(path.parts.take(path.parts.len() as int) == path.parts);
}

/// What lies under a path that lies under another lies under that other.
pub proof fn lemma_under_under(path: PathView, middle: PathView, root: PathView)
    requires
        is_under(path, middle),
        is_under(middle, root),
    ensures
        is_under(path, root),
{
    let short = root.parts.len() as int;
    let long = middle.parts.len() as int;
    assert(path.parts.take(short) == path.parts.take(long).take(short));
}

/// Reading characters that hold no `/` lengthens the name that is being read.
proof fn lemma_split_name(name: Seq<char>, rest: Seq<char>, parts: Seq<Seq<char>>, read: Seq<char>)
    requires
        forall|i: int| 0 <= i < name.len() ==> name[i] != '/',
    ensures
        split(name + rest, parts, read) == split(rest, parts, read + name),
    decreases name.len(),
{
    if name.len() == 0 {
        assert(name + rest == rest);
        assert(read + name == read);
    } else {
        let text = name + rest;
        assert(text[0] == name[0]);
        assert(text.skip(1) == name.skip(1) + rest);
        lemma_split_name(name.skip(1), rest, parts, read.push(name[0]));
        assert(read.push(name[0]) + name.skip(1) == read + name);
    }
}

/// Reading the text of some names leaves the last of them as the name that
/// is being read, and the others read.
proof fn lemma_split_names(names: Seq<Seq<char>>, rest: Seq<char>, parts: Seq<Seq<char>>)
    requires
        names.len() > 0,
        all_names(names),
    ensures
        split(names_text(names) + rest, parts, Seq::empty()) == split(
            rest,
            parts + names.drop_last(),
            names.last(),
        ),
    decreases names.len(),
{
    let none = Seq::<char>::empty();
    let last = names.last();
    assert(is_name(last));
    if names.len() == 1 {
        assert(names_text(names) == last);
        lemma_split_name(last, rest, parts, none);
        assert(none + last == last);
        assert(parts + names.drop_last() == parts);
    } else {
        let before = names.drop_last();
        assert(all_names(before)) by {
            assert forall|i: int| 0 <= i < before.len() implies is_name(#[trigger] before[i]) by {
                assert(before[i] == names[i]);
            }
        }
        let tail = seq!['/'] + (last + rest);
        assert(names_text(names) + rest == names_text(before) + tail);
        lemma_split_names(before, tail, parts);
        let read = parts + before.drop_last();
        assert(is_name(before.last()));
        assert(tail[0] == '/');
        assert(tail.skip(1) == last + rest);
        assert(with_name(read, before.last()) == parts + before) by {
            assert(read.push(before.last()) == parts + before);
        }
        lemma_split_name(last, rest, parts + before, none);
        assert(none + last == last);
    }
}

/// The text of some names starts with the first character of the first name.
proof fn lemma_names_text_head(names: Seq<Seq<char>>)
    requires
        names.len() > 0,
        all_names(names),
    ensures
        names_text(names).len() > 0,
        names_text(names)[0] == names[0][0],
    decreases names.len(),
{
    assert(is_name(names[0]));
    if names.len() > 1 {
        let before = names.drop_last();
        assert forall|i: int| 0 <= i < before.len() implies is_name(#[trigger] before[i]) by {
            assert(before[i] == names[i]);
        }
        lemma_names_text_head(before);
        assert(before[0] == names[0]);
    }
}

/// A path that is written as text and read again is the same path.
pub proof fn lemma_read_written(path: PathView)
    requires
        well_formed(path),
    ensures
        path_of(text_of(path)) == path,
{
    let none = Seq::<char>::empty();
    let no_parts = Seq::<Seq<char>>::empty();
    let names = path.parts;
    let text = text_of(path);
    if names.len() == 0 {
        if path.absolute {
            assert(text == seq!['/']);
            assert(text.skip(1) == none);
        } else {
            assert(text == none);
        }
        reveal_with_fuel(split, 3);
        assert(split(text, no_parts, none) == names);
    } else {
        assert(is_name(names.last()));
        assert(no_parts + names.drop_last() == names.drop_last());
        assert(names.drop_last().push(names.last()) == names);
        lemma_names_text_head(names);
        assert(is_name(names[0]));
        if path.absolute {
            assert(text[0] == '/');
            assert(text.skip(1) == names_text(names));
            assert(names_text(names) + none == names_text(names));
            lemma_split_names(names, none, no_parts);
        } else {
            assert(text == names_text(names));
            assert(names_text(names) + none == names_text(names));
            lemma_split_names(names, none, no_parts);
        }
        assert(split(text, no_parts, none) == names);
    }
}

/// Reading never yields anything but names.
proof fn lemma_split_names_only(text: Seq<char>, parts: Seq<Seq<char>>, read: Seq<char>)
    requires
        all_names(parts),
        forall|i: int| 0 <= i < read.len() ==> read[i] != '/',
    ensures
        all_names(split(text, parts, read)),
    decreases text.len(),
{
    if text.len() > 0 {
        if text[0] == '/' {
            lemma_split_names_only(text.skip(1), with_name(parts, read), Seq::empty());
        } else {
            lemma_split_names_only(text.skip(1), parts, read.push(text[0]));
        }
    }
}

/// Every text stands for a well-formed path.
pub proof fn lemma_path_of_well_formed(text: Seq<char>)
    ensures
        well_formed(path_of(text)),
{
    lemma_split_names_only(text, Seq::empty(), Seq::empty());
}

} // verus!
