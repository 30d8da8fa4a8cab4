//! Walking a directory tree, depth first.
//!
//! The walk itself reads no directory. It asks for one directory at a time
//! ([`Walk::next_dir`]) and is handed what that directory holds
//! ([`Walk::listed`]). Each entry is recorded as it is met: a file among the
//! files; a directory among the directories, and then all that lies in it
//! before the entry that follows it.

use crate::files::{paths_of, RecursiveDirContents};
use crate::path::{is_under, lemma_under_under, FilePath, PathView};
use vstd::prelude::*;

verus! {

/// One entry of a directory.
#[derive(Debug, PartialEq, Eq)]
pub struct Entry {
    pub path: FilePath,
    /// Whether the entry is a directory, or leads to one.
    pub is_dir: bool,
}

/// What an [`Entry`] holds.
pub struct EntryView {
    pub path: PathView,
    pub is_dir: bool,
}

impl View for Entry {
    type V = EntryView;

    open spec fn view(&self) -> EntryView {
        EntryView { path: self.path@, is_dir: self.is_dir }
    }
}

/// What the entries hold, one by one.
pub open spec fn entries_of(entries: Seq<Entry>) -> Seq<EntryView> {
    Seq::new(entries.len(), |i: int| entries[i]@)
}

/// The paths of the entries, one by one.
pub open spec fn entry_paths(entries: Seq<EntryView>) -> Seq<PathView> {
    Seq::new(entries.len(), |i: int| entries[i].path)
}

/// How many entries stand before the first directory among `entries`.
pub open spec fn leading_files(entries: Seq<EntryView>) -> int
    decreases entries.len(),
{
    if entries.len() == 0 || entries[0].is_dir {
        0
    } else {
        1 + leading_files(entries.skip(1))
    }
}

/// What a [`Walk`] holds.
pub struct WalkView {
    /// The directories found so far.
    pub dirs: Seq<PathView>,
    /// The files found so far.
    pub files: Seq<PathView>,
    /// For each directory that is being walked, the outermost first: its
    /// entries that are yet to be looked at.
    pub open: Seq<Seq<EntryView>>,
    /// The directory whose entries are asked for.
    pub asked: Option<PathView>,
}

/// Looks at the entries that are at hand until a directory is met, whose
/// entries are then asked for, or until none is left.
pub open spec fn settled(dirs: Seq<PathView>, files: Seq<PathView>, open: Seq<Seq<EntryView>>) -> WalkView
    decreases open.len(),
{
    if open.len() == 0 {
        WalkView { dirs, files, open, asked: None }
    } else {
        let innermost = open.last();
        let count = leading_files(innermost);
        let found = files + entry_paths(innermost.take(count));
        if count < innermost.len() {
            WalkView {
                dirs: dirs.push(innermost[count].path),
                files: found,
                open: open.drop_last().push(innermost.skip(count + 1)),
                asked: Some(innermost[count].path),
            }
        } else {
            settled(dirs, found, open.drop_last())
        }
    }
}

/// The walk after the entries of the directory that it asked for have come
/// in. A walk that asked for nothing stays as it is.
pub open spec fn listed(walk: WalkView, entries: Seq<EntryView>) -> WalkView {
    if walk.asked is Some {
        settled(walk.dirs, walk.files, walk.open.push(entries))
    } else {
        walk
    }
}

/// The entries of one directory, and how many of them have been looked at.
#[derive(Debug, PartialEq, Eq)]
struct Listing {
    entries: Vec<Entry>,
    seen: usize,
}

impl Listing {
    /// The entries that are yet to be looked at.
    spec fn rest(&self) -> Seq<EntryView> {
        entries_of(self.entries@).skip(self.seen as int)
    }
}

/// What is yet to be looked at in each of the listings.
spec fn rests_of(listings: Seq<Listing>) -> Seq<Seq<EntryView>> {
    Seq::new(listings.len(), |i: int| listings[i].rest())
}

/// A walk of a directory tree.
#[derive(Debug, PartialEq, Eq)]
pub struct Walk {
    contents: RecursiveDirContents,
    open: Vec<Listing>,
    asked: Option<FilePath>,
}

impl View for Walk {
    type V = WalkView;

    closed spec fn view(&self) -> WalkView {
        WalkView {
            dirs: paths_of(self.contents.dirs@),
            files: paths_of(self.contents.files@),
            open: rests_of(self.open@),
            asked: match self.asked {
                Some(dir) => Some(dir@),
                None => None,
            },
        }
    }
}

impl Walk {
    /// No listing has more entries seen than it has entries.
    #[verifier::type_invariant]
    closed spec fn valid(&self) -> bool {
        forall|i: int|
            0 <= i < self.open@.len() ==> (#[trigger] self.open@[i]).seen
                <= self.open@[i].entries@.len()
    }

    /// The directory whose entries the walk needs next; none when the walk
    /// is over.
    pub fn next_dir(&self) -> (dir: Option<FilePath>)
        ensures
            match dir {
                Some(path) => self@.asked == Some(path@),
                None => self@.asked is None,
            },
    {
        match &self.asked {
            Some(dir) => Some(dir.clone()),
            None => None,
        }
    }

    /// Takes in the entries of the directory that was asked for.
    pub fn listed(self, entries: Vec<Entry>) -> (walk: Walk)
        ensures
            walk@ == listed(self@, entries_of(entries@)),
    {
        proof {
            use_type_invariant(&self);
        }
        if self.asked.is_none() {
            return self;
        }
        let mut contents = self.contents;
        let mut open = self.open;
        let ghost before = rests_of(open@);
        open.push(Listing { entries, seen: 0 });
        assert(entries_of(entries@).skip(0) == entries_of(entries@));
        assert(rests_of(open@) =~= before.push(entries_of(entries@)));
        let ghost goal = settled(
            paths_of(contents.dirs@),
            paths_of(contents.files@),
            rests_of(open@),
        );
        let mut asked: Option<FilePath> = None;
        while open.len() > 0
            invariant_except_break
                asked is None,
                goal == settled(
                    paths_of(contents.dirs@),
                    paths_of(contents.files@),
                    rests_of(open@),
                ),
            invariant
                forall|i: int|
                    0 <= i < open@.len() ==> (#[trigger] open@[i]).seen <= open@[i].entries@.len(),
            ensures
                goal == (WalkView {
                    dirs: paths_of(contents.dirs@),
                    files: paths_of(contents.files@),
                    open: rests_of(open@),
                    asked: match asked {
                        Some(dir) => Some(dir@),
                        None => None,
                    },
                }),
            decreases open.len(),
        {
            let ghost all = rests_of(open@);
            let listing = open.pop().unwrap();
            let ghost innermost = listing.rest();
            assert(rests_of(open@) =~= all.drop_last());
            let next = pass_files(&listing.entries, listing.seen, &mut contents.files);
            if next < listing.entries.len() {
                let dir = listing.entries[next].path.clone();
                let ghost was = paths_of(contents.dirs@);
                contents.dirs.push(dir.clone());
                assert(paths_of(contents.dirs@) =~= was.push(dir@));
                let ghost outer = rests_of(open@);
                let ghost count = next - listing.seen;
                open.push(Listing { entries: listing.entries, seen: next + 1 });
                assert(innermost.skip(count + 1) == entries_of(listing.entries@).skip(next + 1));
                assert(rests_of(open@) =~= outer.push(innermost.skip(count + 1)));
                asked = Some(dir);
                break ;
            }
        }
        Walk { contents, open, asked }
    }

    /// What the walk has found.
    pub fn into_contents(self) -> (contents: RecursiveDirContents)
        ensures
            paths_of(contents.dirs@) == self@.dirs,
            paths_of(contents.files@) == self@.files,
    {
        self.contents
    }
}

/// Starts the walk of the tree under `path`: nothing is found yet, and the
/// entries of `path` are asked for.
pub fn walk_dir(path: &FilePath) -> (walk: Walk)
    ensures
        walk@ == started(path@),
{
    let walk = Walk {
        contents: RecursiveDirContents::default(),
        open: Vec::new(),
        asked: Some(path.clone()),
    };
    assert(walk@.dirs =~= Seq::<PathView>::empty());
    assert(walk@.files =~= Seq::<PathView>::empty());
    assert(walk@.open =~= Seq::<Seq<EntryView>>::empty());
    walk
}

/// Looks at the entries from the one at `seen` on until a directory is met:
/// the files before it join `files`. Returns where the directory stands, or
/// the number of entries where there is none.
fn pass_files(entries: &Vec<Entry>, seen: usize, files: &mut Vec<FilePath>) -> (next: usize)
    requires
        seen <= entries.len(),
    ensures
        seen <= next <= entries.len(),
        next - seen == leading_files(entries_of(entries@).skip(seen as int)),
        paths_of(final(files)@) == paths_of(old(files)@) + entry_paths(
            entries_of(entries@).skip(seen as int).take(next - seen),
        ),
{
    let ghost rest = entries_of(entries@).skip(seen as int);
    let mut next = seen;
    assert(rest.skip(0) == rest);
    while next < entries.len() && !entries[next].is_dir
        invariant
            seen <= next <= entries.len(),
            rest == entries_of(entries@).skip(seen as int),
            leading_files(rest) == (next - seen) + leading_files(rest.skip(next - seen)),
            paths_of(files@) == paths_of(old(files)@) + entry_paths(rest.take(next - seen)),
        decreases entries.len() - next,
    {
        let ghost here = rest.skip(next - seen);
        let ghost was = paths_of(files@);
        assert(here.skip(1) == rest.skip(next - seen + 1));
        files.push(entries[next].path.clone());
        assert(paths_of(files@) =~= was.push(here[0].path));
        next += 1;
    }
    next
}

/// A directory tree: for each directory, the entries that it holds.
pub type Tree = spec_fn(PathView) -> Seq<EntryView>;

/// The directories and the files of a tree.
pub struct Found {
    pub dirs: Seq<PathView>,
    pub files: Seq<PathView>,
}

/// What lies among `entries` and below them, met depth first: each file, and
/// each directory followed by all that lies in it. Directories are entered
/// down to `depth` levels below the entries.
pub open spec fn found_in(tree: Tree, entries: Seq<EntryView>, depth: nat) -> Found
    decreases depth, entries.len(),
{
    if entries.len() == 0 {
        Found { dirs: Seq::empty(), files: Seq::empty() }
    } else {
        let first = entries[0];
        let rest = found_in(tree, entries.skip(1), depth);
        if !first.is_dir {
            Found { dirs: rest.dirs, files: seq![first.path] + rest.files }
        } else if depth == 0 {
            Found { dirs: seq![first.path] + rest.dirs, files: rest.files }
        } else {
            let below = found_in(tree, tree(first.path), (depth - 1) as nat);
            Found {
                dirs: seq![first.path] + below.dirs + rest.dirs,
                files: below.files + rest.files,
            }
        }
    }
}

/// No directory lies more than `depth` levels below the entries.
pub open spec fn fits(tree: Tree, entries: Seq<EntryView>, depth: nat) -> bool
    decreases depth, entries.len(),
{
    entries.len() == 0 || {
        &&& entries[0].is_dir ==> depth > 0 && fits(
            tree,
            tree(entries[0].path),
            (depth - 1) as nat,
        )
        &&& fits(tree, entries.skip(1), depth)
    }
}

/// The walk of the tree under `root` before anything is known of it.
pub open spec fn started(root: PathView) -> WalkView {
    WalkView { dirs: Seq::empty(), files: Seq::empty(), open: Seq::empty(), asked: Some(root) }
}

/// The walk that is over and has found `found`.
pub open spec fn finished(found: Found) -> WalkView {
    WalkView { dirs: found.dirs, files: found.files, open: Seq::empty(), asked: None }
}

/// The walk after `steps` of its questions have been answered from the tree,
/// or all of them where there are fewer.
pub open spec fn answered(tree: Tree, walk: WalkView, steps: nat) -> WalkView
    decreases steps,
{
    if steps == 0 || walk.asked is None {
        walk
    } else {
        answered(tree, listed(walk, tree(walk.asked->0)), (steps - 1) as nat)
    }
}

/// The entries of a directory that are yet to be looked at, and how deep the
/// tree may go below them.
struct Level {
    entries: Seq<EntryView>,
    depth: nat,
}

/// The number of entries among `entries` and below them.
spec fn weight(tree: Tree, entries: Seq<EntryView>, depth: nat) -> nat
    decreases depth, entries.len(),
{
    if entries.len() == 0 {
        0
    } else {
        let below = if entries[0].is_dir && depth > 0 {
            weight(tree, tree(entries[0].path), (depth - 1) as nat)
        } else {
            0
        };
        1 + below + weight(tree, entries.skip(1), depth)
    }
}

/// The number of entries that a walk with these levels has yet to meet.
spec fn weight_of(tree: Tree, levels: Seq<Level>) -> nat
    decreases levels.len(),
{
    if levels.len() == 0 {
        0
    } else {
        weight(tree, levels.last().entries, levels.last().depth) + weight_of(
            tree,
            levels.drop_last(),
        )
    }
}

/// What a walk with these levels has yet to find: what lies in the innermost
/// level, then what lies in the levels around it.
spec fn yet_to_find(tree: Tree, levels: Seq<Level>) -> Found
    decreases levels.len(),
{
    if levels.len() == 0 {
        Found { dirs: Seq::empty(), files: Seq::empty() }
    } else {
        let inner = found_in(tree, levels.last().entries, levels.last().depth);
        let outer = yet_to_find(tree, levels.drop_last());
        Found { dirs: inner.dirs + outer.dirs, files: inner.files + outer.files }
    }
}

/// The entries of the levels.
spec fn open_of(levels: Seq<Level>) -> Seq<Seq<EntryView>> {
    Seq::new(levels.len(), |i: int| levels[i].entries)
}

/// Every level fits its depth.
spec fn all_fit(tree: Tree, levels: Seq<Level>) -> bool {
    forall|i: int| 0 <= i < levels.len() ==> fits(tree, (#[trigger] levels[i]).entries, levels[i].depth)
}

/// What lies among some entries is the files before the first directory,
/// then that directory with what lies in it, then what lies among the
/// entries behind it.
proof fn lemma_first_dir(tree: Tree, entries: Seq<EntryView>, depth: nat)
    requires
        fits(tree, entries, depth),
    ensures
        ({
            let count = leading_files(entries);
            let files = entry_paths(entries.take(count));
            &&& 0 <= count <= entries.len()
            &&& count == entries.len() ==> {
                &&& found_in(tree, entries, depth) == Found { dirs: Seq::empty(), files }
                &&& weight(tree, entries, depth) == count
            }
            &&& count < entries.len() ==> {
                let dir = entries[count].path;
                let below = found_in(tree, tree(dir), (depth - 1) as nat);
                let rest = found_in(tree, entries.skip(count + 1), depth);
                &&& depth > 0
                &&& fits(tree, tree(dir), (depth - 1) as nat)
                &&& fits(tree, entries.skip(count + 1), depth)
                &&& found_in(tree, entries, depth).dirs == seq![dir] + below.dirs + rest.dirs
                &&& found_in(tree, entries, depth).files == files + below.files + rest.files
                &&& weight(tree, entries, depth) == count + 1 + weight(
                    tree,
                    tree(dir),
                    (depth - 1) as nat,
                ) + weight(tree, entries.skip(count + 1), depth)
            }
        }),
    decreases entries.len(),
{
    let count = leading_files(entries);
    if entries.len() == 0 {
        assert(entry_paths(entries.take(count)) =~= Seq::<PathView>::empty());
    } else if entries[0].is_dir {
        assert(entries.take(0) =~= Seq::<EntryView>::empty());
        assert(entry_paths(entries.take(0)) =~= Seq::<PathView>::empty());
        let below = found_in(tree, tree(entries[0].path), (depth - 1) as nat);
        let rest = found_in(tree, entries.skip(1), depth);
        assert(entry_paths(entries.take(0)) + below.files + rest.files =~= below.files
            + rest.files);
    } else {
        let tail = entries.skip(1);
        lemma_first_dir(tree, tail, depth);
        let tail_count = leading_files(tail);
        assert(count == tail_count + 1);
        assert(entry_paths(entries.take(count)) =~= seq![entries[0].path] + entry_paths(
            tail.take(tail_count),
        ));
        if tail_count < tail.len() {
            assert(tail[tail_count] == entries[count]);
            assert(tail.skip(tail_count + 1) == entries.skip(count + 1));
            let dir = entries[count].path;
            let below = found_in(tree, tree(dir), (depth - 1) as nat);
            let rest = found_in(tree, entries.skip(count + 1), depth);
            assert(seq![entries[0].path] + (entry_paths(tail.take(tail_count)) + below.files
                + rest.files) =~= entry_paths(entries.take(count)) + below.files + rest.files);
        } else {
            assert(found_in(tree, entries, depth).files =~= entry_paths(entries.take(count)));
        }
    }
}

/// A walk whose questions are answered from the tree comes to an end and has
/// then found all that was yet to find.
proof fn lemma_walk_ends(tree: Tree, dirs: Seq<PathView>, files: Seq<PathView>, levels: Seq<Level>) -> (steps:
    nat)
    requires
        all_fit(tree, levels),
    ensures
        answered(tree, settled(dirs, files, open_of(levels)), steps) == finished(
            Found {
                dirs: dirs + yet_to_find(tree, levels).dirs,
                files: files + yet_to_find(tree, levels).files,
            },
        ),
    decreases weight_of(tree, levels), levels.len(),
{
    let open = open_of(levels);
    if levels.len() == 0 {
        assert(open =~= Seq::<Seq<EntryView>>::empty());
        assert(dirs + yet_to_find(tree, levels).dirs =~= dirs);
        assert(files + yet_to_find(tree, levels).files =~= files);
        0
    } else {
        let level = levels.last();
        let outer = levels.drop_last();
        let entries = level.entries;
        let count = leading_files(entries);
        let lead = entry_paths(entries.take(count));
        assert(open.last() == entries);
        assert(open.drop_last() =~= open_of(outer));
        assert(fits(tree, entries, level.depth));
        lemma_first_dir(tree, entries, level.depth);
        assert(all_fit(tree, outer)) by {
            assert forall|i: int| 0 <= i < outer.len() implies fits(
                tree,
                (#[trigger] outer[i]).entries,
                outer[i].depth,
            ) by {
                assert(outer[i] == levels[i]);
            }
        }
        let rest = yet_to_find(tree, outer);
        if count == entries.len() {
            let steps = lemma_walk_ends(tree, dirs, files + lead, outer);
            assert(dirs + yet_to_find(tree, levels).dirs =~= dirs + rest.dirs);
            assert(files + yet_to_find(tree, levels).files =~= files + lead + rest.files);
            steps
        } else {
            let dir = entries[count].path;
            let behind = Level { entries: entries.skip(count + 1), depth: level.depth };
            let below = Level { entries: tree(dir), depth: (level.depth - 1) as nat };
            let next = outer.push(behind).push(below);
            let met = settled(dirs, files, open);
            assert(met == WalkView {
                dirs: dirs.push(dir),
                files: files + lead,
                open: open_of(outer).push(behind.entries),
                asked: Some(dir),
            });
            assert(open_of(next) =~= met.open.push(tree(dir)));
            assert(listed(met, tree(dir)) == settled(dirs.push(dir), files + lead, open_of(next)));
            assert(all_fit(tree, next)) by {
                assert forall|i: int| 0 <= i < next.len() implies fits(
                    tree,
                    (#[trigger] next[i]).entries,
                    next[i].depth,
                ) by {
                    if i < outer.len() {
                        assert(next[i] == outer[i]);
                    }
                }
            }
            assert(next.drop_last() == outer.push(behind));
            assert(outer.push(behind).drop_last() == outer);
            let middle = outer.push(behind);
            assert(weight_of(tree, middle) == weight(tree, behind.entries, behind.depth)
                + weight_of(tree, outer));
            assert(weight_of(tree, next) == weight(tree, below.entries, below.depth) + weight_of(
                tree,
                middle,
            ));
            assert(weight_of(tree, next) < weight_of(tree, levels));
            let steps = lemma_walk_ends(tree, dirs.push(dir), files + lead, next);
            let inner = found_in(tree, tree(dir), below.depth);
            let after = found_in(tree, behind.entries, behind.depth);
            assert(yet_to_find(tree, middle).dirs == after.dirs + rest.dirs);
            assert(yet_to_find(tree, middle).files == after.files + rest.files);
            assert(yet_to_find(tree, next).dirs == inner.dirs + (after.dirs + rest.dirs));
            assert(yet_to_find(tree, next).files == inner.files + (after.files + rest.files));
            assert(dirs.push(dir) + yet_to_find(tree, next).dirs =~= dirs + yet_to_find(
                tree,
                levels,
            ).dirs);
            assert(files + lead + yet_to_find(tree, next).files =~= files + yet_to_find(
                tree,
                levels,
            ).files);
            steps + 1
        }
    }
}

/// A walk whose questions are answered from a tree comes to an end, and has
/// then found what lies in the tree, depth first: every file, and every
/// directory before what lies in it.
pub proof fn lemma_walk_finds_the_tree(tree: Tree, root: PathView, depth: nat) -> (steps: nat)
    requires
        fits(tree, tree(root), depth),
    ensures
        answered(tree, started(root), steps) == finished(found_in(tree, tree(root), depth)),
{
    let none = Seq::<PathView>::empty();
    let levels = seq![Level { entries: tree(root), depth }];
    assert(open_of(levels) =~= Seq::<Seq<EntryView>>::empty().push(tree(root)));
    assert(levels.drop_last() =~= Seq::<Level>::empty());
    let steps = lemma_walk_ends(tree, none, none, levels);
    let found = found_in(tree, tree(root), depth);
    assert(yet_to_find(tree, levels.drop_last()).dirs =~= none);
    assert(none + yet_to_find(tree, levels).dirs =~= found.dirs);
    assert(none + yet_to_find(tree, levels).files =~= found.files);
    steps + 1
}

/// Every entry of every directory of the tree lies under that directory.
pub open spec fn entries_lie_within(tree: Tree) -> bool {
    forall|dir: PathView, i: int|
        0 <= i < tree(dir).len() ==> is_under((#[trigger] tree(dir)[i]).path, dir)
}

/// Every one of the paths lies under `root`.
pub open spec fn all_under(paths: Seq<PathView>, root: PathView) -> bool {
    forall|i: int| 0 <= i < paths.len() ==> is_under(#[trigger] paths[i], root)
}

/// In a tree whose entries lie within their directories, all that is found
/// among entries under `root` lies under `root`.
pub proof fn lemma_found_lies_under(tree: Tree, entries: Seq<EntryView>, depth: nat, root: PathView)
    requires
        entries_lie_within(tree),
        all_under(entry_paths(entries), root),
    ensures
        all_under(found_in(tree, entries, depth).dirs, root),
        all_under(found_in(tree, entries, depth).files, root),
    decreases depth, entries.len(),
{
    if entries.len() > 0 {
        let first = entries[0];
        let others = entries.skip(1);
        assert(is_under(entry_paths(entries)[0], root));
        assert forall|i: int| 0 <= i < others.len() implies is_under(
            #[trigger] entry_paths(others)[i],
            root,
        ) by {
            assert(entry_paths(others)[i] == entry_paths(entries)[i + 1]);
        }
        lemma_found_lies_under(tree, others, depth, root);
        if first.is_dir && depth > 0 {
            let inside = tree(first.path);
            assert forall|i: int| 0 <= i < inside.len() implies is_under(
                #[trigger] entry_paths(inside)[i],
                root,
            ) by {
                assert(is_under(inside[i].path, first.path));
                lemma_under_under(inside[i].path, first.path, root);
            }
            lemma_found_lies_under(tree, inside, (depth - 1) as nat, root);
        }
    }
}

/// In a tree whose entries lie within their directories, all that a walk of
/// the tree under `root` finds lies under `root`.
pub proof fn lemma_walk_stays_under_root(tree: Tree, root: PathView, depth: nat)
    requires
        entries_lie_within(tree),
    ensures
        all_under(found_in(tree, tree(root), depth).dirs, root),
        all_under(found_in(tree, tree(root), depth).files, root),
{
    assert forall|i: int| 0 <= i < tree(root).len() implies is_under(
        #[trigger] entry_paths(tree(root))[i],
        root,
    ) by {
        assert(is_under(tree(root)[i].path, root));
    }
    lemma_found_lies_under(tree, tree(root), depth, root);
}

} // verus!
