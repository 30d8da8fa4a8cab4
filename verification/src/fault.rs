//! The ways in which a run can go wrong.

use crate::path::{text_of, FilePath, PathView};
use vstd::prelude::*;
use vstd::string::StringExecFns;

verus! {

/// What a [`Fault`] says.
pub enum FaultView {
    Io { message: Seq<char> },
    PathNotUnderBase { path: PathView, base: PathView },
    Templating { message: Seq<char> },
}

/// What went wrong. Every fault ends the run in which it comes up.
#[derive(Debug, PartialEq, Eq)]
pub enum Fault {
    /// Reading, writing, creating or removing something on disk failed, or a
    /// helper program could not be run or understood.
    Io { message: String },
    /// `path` does not lie under `base`.
    PathNotUnderBase { path: FilePath, base: FilePath },
    /// The templating engine refused a text; `message` is what it said.
    Templating { message: String },
}

impl View for Fault {
    type V = FaultView;

    open spec fn view(&self) -> FaultView {
        match self {
            Fault::Io { message } => FaultView::Io { message: message@ },
            Fault::PathNotUnderBase { path, base } => FaultView::PathNotUnderBase {
                path: path@,
                base: base@,
            },
            Fault::Templating { message } => FaultView::Templating { message: message@ },
        }
    }
}

/// The words in which a fault is reported.
pub open spec fn message_of(error: FaultView) -> Seq<char> {
    match error {
        FaultView::Io { message } => message,
        FaultView::PathNotUnderBase { path, base } => text_of(path) + " is not relative to "@
            + text_of(base),
        FaultView::Templating { message } => message,
    }
}

impl Clone for Fault {
    fn clone(&self) -> (copy: Self)
        ensures
            copy@ == self@,
    {
        match self {
            Fault::Io { message } => Fault::Io { message: message.clone() },
            Fault::PathNotUnderBase { path, base } => Fault::PathNotUnderBase {
                path: path.clone(),
                base: base.clone(),
            },
            Fault::Templating { message } => Fault::Templating { message: message.clone() },
        }
    }
}

impl Fault {
    /// The words in which this fault is reported.
    pub fn message(&self) -> (text: String)
        ensures
            text@ == message_of(self@),
    {
        match self {
            Fault::Io { message } => message.clone(),
            Fault::PathNotUnderBase { path, base } => {
                let mut text = path.render();
                text.append(" is not relative to ");
                text.append(base.render().as_str());
                text
            },
            Fault::Templating { message } => message.clone(),
        }
    }
}

} // verus!
