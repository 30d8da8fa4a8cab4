//! Adding a file to the source tree.
//!
//! A file that lies under the home directory is taken into the source tree
//! at the place that it has under the home directory, as it is: what is
//! added is what will later be templated on its way out.

use crate::config::Config;
use crate::fault::{Fault, FaultView};
use crate::files::{get_relative_path, moved, steps_of, Step, StepView};
use crate::path::{is_under, joined, parent_of, FilePath, PathView};
use vstd::prelude::*;

verus! {

/// What the user asks to add.
#[derive(Debug, PartialEq, Eq)]
pub struct Args {
    /// The file to add.
    pub new_file: FilePath,
}

/// One file to take into the source tree.
#[derive(Debug, PartialEq, Eq)]
pub struct Addition {
    /// The file to copy, as an absolute path where the working directory is
    /// one.
    pub origin: FilePath,
    /// Where the copy belongs in the source tree.
    pub target: FilePath,
    /// What is to be done, in this order.
    pub steps: Vec<Step>,
}

/// A path as seen from the working directory.
pub open spec fn resolved(path: PathView, cwd: PathView) -> PathView {
    if path.absolute {
        path
    } else {
        joined(cwd, path)
    }
}

/// The steps that bring `origin` to `target`: the directory of `target` is
/// made, where it has one; the file is copied as it is, and is given the
/// permission bits of `origin`.
pub open spec fn addition_steps(origin: PathView, target: PathView) -> Seq<StepView> {
    let copy = seq![
        StepView::CopyFile { from: origin, to: target },
        StepView::MirrorMode { from: origin, to: target },
    ];
    match parent_of(target) {
        Some(parent) => seq![StepView::MakeDir { path: parent }] + copy,
        None => copy,
    }
}

/// Plans the addition of a file to the source tree.
///
/// A relative `new_file` is taken from `cwd`, the working directory, which is
/// not looked at otherwise. The file must lie under the home directory; what
/// is left of its path behind the home directory is its place under the
/// source directory.
pub fn add(args: &Args, config: &Config, cwd: &FilePath) -> (addition: Result<Addition, Fault>)
    ensures
        addition is Ok <==> is_under(resolved(args.new_file@, cwd@), config.dirs.home@),
        addition matches Ok(planned) ==> {
            &&& planned.origin@ == resolved(args.new_file@, cwd@)
            &&& planned.target@ == moved(planned.origin@, config.dirs.home@, config.dirs.source@)
            &&& steps_of(planned.steps@) == addition_steps(planned.origin@, planned.target@)
        },
        addition matches Err(failure) ==> failure@ == (FaultView::PathNotUnderBase {
            path: resolved(args.new_file@, cwd@),
            base: config.dirs.home@,
        }),
{
    let origin = if args.new_file.is_absolute() {
        args.new_file.clone()
    } else {
        cwd.join(&args.new_file)
    };
    match get_relative_path(&config.dirs.home, &origin) {
        Ok(relative) => {
            let target = config.dirs.source.join(&relative);
            let mut steps: Vec<Step> = Vec::new();
            match target.parent() {
                Some(parent) => {
                    steps.push(Step::MakeDir { path: parent });
                },
                None => {},
            }
            steps.push(Step::CopyFile { from: origin.clone(), to: target.clone() });
            steps.push(Step::MirrorMode { from: origin.clone(), to: target.clone() });
            Ok(Addition { origin, target, steps })
        },
        Err(failure) => Err(failure),
    }
}

} // verus!
