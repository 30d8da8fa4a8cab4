//! What a directory holds, where a path lies under a base, and the steps
//! that carry a tree from one place to another.

use crate::fault::{Fault, FaultView};
use crate::path::{
    is_under, joined, lemma_join_relative, lemma_relative_join, relative_to, FilePath, PathView,
};
use vstd::prelude::*;

verus! {

/// What the paths stand for, one by one.
pub open spec fn paths_of(paths: Seq<FilePath>) -> Seq<PathView> {
    Seq::new(paths.len(), |i: int| paths[i]@)
}

/// The directories and the files found under a directory, at any depth.
#[derive(Debug, PartialEq, Eq)]
pub struct RecursiveDirContents {
    pub dirs: Vec<FilePath>,
    pub files: Vec<FilePath>,
}

impl Default for RecursiveDirContents {
    fn default() -> (contents: Self)
        ensures
            contents.dirs@.len() == 0,
            contents.files@.len() == 0,
    {
        RecursiveDirContents { dirs: Vec::new(), files: Vec::new() }
    }
}

impl Clone for RecursiveDirContents {
    fn clone(&self) -> (copy: Self)
        ensures
            paths_of(copy.dirs@) == paths_of(self.dirs@),
            paths_of(copy.files@) == paths_of(self.files@),
    {
        let dirs = self.dirs.clone();
        let files = self.files.clone();
        RecursiveDirContents { dirs, files }
    }
}

impl RecursiveDirContents {
    /// Every entry, the directories first.
    pub open spec fn entries(&self) -> Seq<PathView> {
        paths_of(self.dirs@) + paths_of(self.files@)
    }
}

/// The part of `absolute_path` that lies behind `base`.
///
/// Joined to `base` it gives `absolute_path` again. A path that does not start
/// with `base` is refused.
pub fn get_relative_path(base: &FilePath, absolute_path: &FilePath) -> (relative: Result<
    FilePath,
    Fault,
>)
    ensures
        relative is Ok <==> is_under(absolute_path@, base@),
        relative matches Ok(path) ==> {
            &&& path@ == relative_to(absolute_path@, base@)
            &&& joined(base@, path@) == absolute_path@
        },
        relative matches Err(failure) ==> failure@ == (FaultView::PathNotUnderBase {
            path: absolute_path@,
            base: base@,
        }),
{
    match absolute_path.strip_prefix(base) {
        Some(path) => {
            proof {
                lemma_join_relative(absolute_path@, base@);
            }
            Ok(path)
        },
        None => Err(Fault::PathNotUnderBase { path: absolute_path.clone(), base: base.clone() }),
    }
}

/// Where `path`, which lies under `from`, belongs under `to`.
pub open spec fn moved(path: PathView, from: PathView, to: PathView) -> PathView {
    joined(to, relative_to(path, from))
}

/// One thing to do on disk.
#[derive(Debug, PartialEq, Eq)]
pub enum Step {
    /// Make the directory, and the directories above it that are missing; a
    /// directory that is there is left as it is.
    MakeDir { path: FilePath },
    /// Write to `to` what becomes of the content of `from` on its way out of
    /// the source tree ([`crate::transform::transform_content`]).
    WriteTransformed { from: FilePath, to: FilePath },
    /// Write to `to` the content of `from`, byte for byte.
    CopyFile { from: FilePath, to: FilePath },
    /// Give `to` the permission bits of `from`.
    MirrorMode { from: FilePath, to: FilePath },
}

/// What a [`Step`] holds.
pub enum StepView {
    MakeDir { path: PathView },
    WriteTransformed { from: PathView, to: PathView },
    CopyFile { from: PathView, to: PathView },
    MirrorMode { from: PathView, to: PathView },
}

impl View for Step {
    type V = StepView;

    open spec fn view(&self) -> StepView {
        match self {
            Step::MakeDir { path } => StepView::MakeDir { path: path@ },
            Step::WriteTransformed { from, to } => StepView::WriteTransformed {
                from: from@,
                to: to@,
            },
            Step::CopyFile { from, to } => StepView::CopyFile { from: from@, to: to@ },
            Step::MirrorMode { from, to } => StepView::MirrorMode { from: from@, to: to@ },
        }
    }
}

/// What the steps hold, one by one.
pub open spec fn steps_of(steps: Seq<Step>) -> Seq<StepView> {
    Seq::new(steps.len(), |i: int| steps[i]@)
}

/// The step that brings the content of `from` to `to`.
pub open spec fn content_step(transformed: bool, from: PathView, to: PathView) -> StepView {
    if transformed {
        StepView::WriteTransformed { from, to }
    } else {
        StepView::CopyFile { from, to }
    }
}

/// The steps that carry the directories `dirs` and the files `files`, found
/// under `from`, to the same relative places under `to`.
///
/// First every directory is made, in the order of `dirs`. Then every file, in
/// the order of `files`, has its content brought over and, right after that,
/// is given the permission bits of the file that it came from.
pub open spec fn carried(
    dirs: Seq<PathView>,
    files: Seq<PathView>,
    from: PathView,
    to: PathView,
    transformed: bool,
) -> Seq<StepView> {
    Seq::new(dirs.len(), |i: int| StepView::MakeDir { path: moved(dirs[i], from, to) })
        + Seq::new(
        2 * files.len(),
        |k: int|
            if k % 2 == 0 {
                content_step(transformed, files[k / 2], moved(files[k / 2], from, to))
            } else {
                StepView::MirrorMode { from: files[k / 2], to: moved(files[k / 2], from, to) }
            },
    )
}

/// The first of `entries` that does not lie under `base` is the one at `at`.
pub open spec fn first_outside(entries: Seq<PathView>, base: PathView, at: int) -> bool {
    &&& 0 <= at < entries.len()
    &&& !is_under(entries[at], base)
    &&& forall|i: int| 0 <= i < at ==> is_under(#[trigger] entries[i], base)
}

/// Plans how everything in `contents`, found under `from`, gets to the same
/// relative places under `to`; the files are written transformed or copied as
/// they are.
///
/// Nothing is planned when an entry does not lie under `from`: the first such
/// entry, directories first, is reported.
pub fn carry(from: &FilePath, to: &FilePath, contents: &RecursiveDirContents, transformed: bool) -> (plan:
    Result<Vec<Step>, Fault>)
    ensures
        plan is Ok <==> forall|i: int|
            0 <= i < contents.entries().len() ==> is_under(#[trigger] contents.entries()[i], from@),
        plan matches Ok(steps) ==> steps_of(steps@) == carried(
            paths_of(contents.dirs@),
            paths_of(contents.files@),
            from@,
            to@,
            transformed,
        ),
        plan matches Err(failure) ==> exists|at: int|
            first_outside(contents.entries(), from@, at) && failure@ == (
            FaultView::PathNotUnderBase { path: contents.entries()[at], base: from@ }),
{
    let ghost entries = contents.entries();
    let ghost dirs = paths_of(contents.dirs@);
    let ghost files = paths_of(contents.files@);
    let mut steps: Vec<Step> = Vec::new();
    let mut i: usize = 0;
    while i < contents.dirs.len()
        invariant
            i <= contents.dirs.len(),
            entries == contents.entries(),
            dirs == paths_of(contents.dirs@),
            steps@.len() == i,
            forall|k: int| 0 <= k < i ==> is_under(#[trigger] entries[k], from@),
            forall|k: int|
                0 <= k < i ==> (#[trigger] steps@[k])@ == (StepView::MakeDir {
                    path: moved(dirs[k], from@, to@),
                }),
        decreases contents.dirs.len() - i,
    {
        match get_relative_path(from, &contents.dirs[i]) {
            Ok(relative) => {
                steps.push(Step::MakeDir { path: to.join(&relative) });
            },
            Err(failure) => {
                assert(first_outside(entries, from@, i as int));
                return Err(failure);
            },
        }
        i += 1;
    }
    let mut j: usize = 0;
    while j < contents.files.len()
        invariant
            j <= contents.files.len(),
            entries == contents.entries(),
            dirs == paths_of(contents.dirs@),
            files == paths_of(contents.files@),
            steps@.len() == dirs.len() + 2 * j,
            forall|k: int| 0 <= k < dirs.len() + j ==> is_under(#[trigger] entries[k], from@),
            forall|k: int|
                0 <= k < dirs.len() ==> (#[trigger] steps@[k])@ == (StepView::MakeDir {
                    path: moved(dirs[k], from@, to@),
                }),
            forall|k: int|
                0 <= k < j ==> {
                    &&& (#[trigger] steps@[dirs.len() + 2 * k])@ == content_step(
                        transformed,
                        files[k],
                        moved(files[k], from@, to@),
                    )
                    &&& steps@[dirs.len() + 2 * k + 1]@ == (StepView::MirrorMode {
                        from: files[k],
                        to: moved(files[k], from@, to@),
                    })
                },
        decreases contents.files.len() - j,
    {
        match get_relative_path(from, &contents.files[j]) {
            Ok(relative) => {
                let target = to.join(&relative);
                let source = contents.files[j].clone();
                if transformed {
                    steps.push(Step::WriteTransformed { from: source, to: target.clone() });
                } else {
                    steps.push(Step::CopyFile { from: source, to: target.clone() });
                }
                steps.push(Step::MirrorMode { from: contents.files[j].clone(), to: target });
            },
            Err(failure) => {
                assert(first_outside(entries, from@, dirs.len() + j));
                return Err(failure);
            },
        }
        j += 1;
    }
    proof {
        let planned = carried(dirs, files, from@, to@, transformed);
        assert forall|k: int| 0 <= k < planned.len() implies steps_of(steps@)[k] == planned[k] by {
            if k >= dirs.len() {
                let file = (k - dirs.len()) / 2;
                assert(steps@[dirs.len() + 2 * file]@ == content_step(
                    transformed,
                    files[file],
                    moved(files[file], from@, to@),
                ));
            }
        }
    }
    Ok(steps)
}

/// Plans the copy of everything in `contents`, found under `from`, to the
/// same relative places under `to`.
///
/// Directories come before files, so that each file finds its directory made,
/// and each file is given the permission bits of the file that it is copied
/// from. Nothing is planned when an entry does not lie under `from`: the
/// first such entry, directories first, is reported.
pub fn copy_directory_full(from: &FilePath, to: &FilePath, contents: &RecursiveDirContents) -> (plan:
    Result<Vec<Step>, Fault>)
    ensures
        plan is Ok <==> forall|i: int|
            0 <= i < contents.entries().len() ==> is_under(#[trigger] contents.entries()[i], from@),
        plan matches Ok(steps) ==> steps_of(steps@) == carried(
            paths_of(contents.dirs@),
            paths_of(contents.files@),
            from@,
            to@,
            false,
        ),
        plan matches Err(failure) ==> exists|at: int|
            first_outside(contents.entries(), from@, at) && failure@ == (
            FaultView::PathNotUnderBase { path: contents.entries()[at], base: from@ }),
{
    carry(from, to, contents, false)
}

/// The place that a step fills on disk: the directory that it makes, or the
/// file whose content it writes.
pub open spec fn place_of(step: StepView) -> Option<PathView> {
    match step {
        StepView::MakeDir { path } => Some(path),
        StepView::WriteTransformed { from, to } => Some(to),
        StepView::CopyFile { from, to } => Some(to),
        StepView::MirrorMode { from, to } => None,
    }
}

/// The places that the steps fill, as seen from `base`.
pub open spec fn places_filled(steps: Seq<StepView>, base: PathView) -> Set<PathView> {
    Set::new(
        |place: PathView|
            exists|k: int|
                0 <= k < steps.len() && #[trigger] place_of(steps[k]) == Some(joined(base, place))
                    && !place.absolute,
    )
}

/// The places of the paths, as seen from `base`.
pub open spec fn places_found(paths: Seq<PathView>, base: PathView) -> Set<PathView> {
    Set::new(
        |place: PathView|
            exists|i: int| 0 <= i < paths.len() && place == relative_to(#[trigger] paths[i], base),
    )
}

/// Every file whose content is brought over is given, by the very next step,
/// the permission bits of the file that it came from.
pub proof fn lemma_mode_follows_content(
    dirs: Seq<PathView>,
    files: Seq<PathView>,
    from: PathView,
    to: PathView,
    transformed: bool,
    at: int,
)
    requires
        0 <= at < carried(dirs, files, from, to, transformed).len(),
    ensures
        ({
            let steps = carried(dirs, files, from, to, transformed);
            &&& steps[at] matches StepView::WriteTransformed { from: source, to: target } ==> at
                + 1 < steps.len() && steps[at + 1] == (StepView::MirrorMode {
                from: source,
                to: target,
            })
            &&& steps[at] matches StepView::CopyFile { from: source, to: target } ==> at + 1
                < steps.len() && steps[at + 1] == (StepView::MirrorMode {
                from: source,
                to: target,
            })
        }),
{
    let k = at - dirs.len();
    if k >= 0 && k % 2 == 0 {
        assert((k + 1) / 2 == k / 2 && (k + 1) % 2 == 1);
    }
}

/// No directory is made after the content of a file has been brought over.
pub proof fn lemma_directories_first(
    dirs: Seq<PathView>,
    files: Seq<PathView>,
    from: PathView,
    to: PathView,
    transformed: bool,
    early: int,
    late: int,
)
    requires
        0 <= early < late < carried(dirs, files, from, to, transformed).len(),
        carried(dirs, files, from, to, transformed)[late] is MakeDir,
    ensures
        carried(dirs, files, from, to, transformed)[early] is MakeDir,
{
}

/// The tree that the steps make under `to` has what was found under `from`,
/// at the same relative paths: the places that the steps fill, seen from
/// `to`, are the places of the entries, seen from `from`.
pub proof fn lemma_carried_keeps_relative_paths(
    dirs: Seq<PathView>,
    files: Seq<PathView>,
    from: PathView,
    to: PathView,
    transformed: bool,
)
    ensures
        places_filled(carried(dirs, files, from, to, transformed), to) == places_found(
            dirs + files,
            from,
        ),
{
    let steps = carried(dirs, files, from, to, transformed);
    let entries = dirs + files;
    let filled = places_filled(steps, to);
    let found = places_found(entries, from);
    assert forall|place: PathView| filled.contains(place) implies found.contains(place) by {
        let k = choose|k: int|
            0 <= k < steps.len() && #[trigger] place_of(steps[k]) == Some(joined(to, place))
                && !place.absolute;
        let i = if k < dirs.len() {
            k
        } else {
            dirs.len() + (k - dirs.len()) / 2
        };
        assert(place_of(steps[k]) == Some(moved(entries[i], from, to)));
        lemma_relative_join(to, place);
        lemma_relative_join(to, relative_to(entries[i], from));
        assert(place == relative_to(entries[i], from));
    }
    assert forall|place: PathView| found.contains(place) implies filled.contains(place) by {
        let i = choose|i: int|
            0 <= i < entries.len() && place == relative_to(#[trigger] entries[i], from);
        let k = if i < dirs.len() {
            i
        } else {
            dirs.len() + 2 * (i - dirs.len())
        };
        if i >= dirs.len() {
            assert((2 * (i - dirs.len())) / 2 == i - dirs.len());
            assert((2 * (i - dirs.len())) % 2 == 0);
        }
        assert(place_of(steps[k]) == Some(joined(to, place)));
    }
    assert(filled =~= found);
}

} // verus!
