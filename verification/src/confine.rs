//! Confinement of managed paths: descriptor-relative access that keeps them inside
//! the workspace without following links.

use vstd::prelude::*;

use crate::error;
use crate::error::{ErrorCategory, GitveilError};
use crate::manifest_document::FileKind;
use crate::path;
use crate::path::ManagedPath;
use crate::segment;
use crate::text;

verus! {

/// What happened on the way to a managed file.
#[derive(Debug, PartialEq, Eq)]
pub enum WalkEvent {
    /// The component was opened without following links, and is of this kind.
    Opened(FileKind),
    /// The component is not there.
    Absent,
    /// The component could not be opened, for this reason.
    OpenFailed(String),
    /// The component was opened but could not be inspected, for this reason.
    InspectFailed(String),
    /// The directory holds metadata of a repository, or not.
    Boundary(bool),
    /// The directory could not be searched for such metadata, for this reason.
    BoundaryFailed(String),
}

pub enum EventModel {
    Opened(FileKind),
    Absent,
    OpenFailed(Seq<char>),
    InspectFailed(Seq<char>),
    Boundary(bool),
    BoundaryFailed(Seq<char>),
}

impl View for WalkEvent {
    type V = EventModel;

    open spec fn view(&self) -> EventModel {
        match self {
            WalkEvent::Opened(kind) => EventModel::Opened(*kind),
            WalkEvent::Absent => EventModel::Absent,
            WalkEvent::OpenFailed(reason) => EventModel::OpenFailed(reason@),
            WalkEvent::InspectFailed(reason) => EventModel::InspectFailed(reason@),
            WalkEvent::Boundary(found) => EventModel::Boundary(*found),
            WalkEvent::BoundaryFailed(reason) => EventModel::BoundaryFailed(reason@),
        }
    }
}

/// What is done next on the way to a managed file.
#[derive(Debug)]
pub enum WalkAction {
    /// Open a component as a directory.
    OpenDirectory(String),
    /// Open the last component as a file.
    OpenLeaf(String),
    /// Look for repository metadata in the directory that was opened.
    ProbeBoundary,
    /// The file is the one that was opened.
    Found,
    /// Some component is missing; the target may be created.
    Missing,
    /// The path must not be used.
    Refuse(GitveilError),
}

pub enum ActionModel {
    OpenDirectory(Seq<char>),
    OpenLeaf(Seq<char>),
    ProbeBoundary,
    Found,
    Missing,
    Refuse((ErrorCategory, Seq<char>)),
}

impl View for WalkAction {
    type V = ActionModel;

    open spec fn view(&self) -> ActionModel {
        match self {
            WalkAction::OpenDirectory(name) => ActionModel::OpenDirectory(name@),
            WalkAction::OpenLeaf(name) => ActionModel::OpenLeaf(name@),
            WalkAction::ProbeBoundary => ActionModel::ProbeBoundary,
            WalkAction::Found => ActionModel::Found,
            WalkAction::Missing => ActionModel::Missing,
            WalkAction::Refuse(e) => ActionModel::Refuse(e@),
        }
    }
}

/// The components of a managed path.
pub open spec fn components(p: Seq<char>) -> Seq<Seq<char>> {
    segment::split(p, '/')
}

/// Opening the component at a position.
pub open spec fn open_component(p: Seq<char>, at: int) -> ActionModel {
    if at + 1 == components(p).len() {
        ActionModel::OpenLeaf(components(p)[at])
    } else {
        ActionModel::OpenDirectory(components(p)[at])
    }
}

pub open spec fn refused(p: Seq<char>, reason: Seq<char>) -> ActionModel {
    ActionModel::Refuse(error::path_error(p, reason))
}

/// One step on the way, at the component that is being dealt with: the component that
/// is dealt with next, and what is done.
pub open spec fn walk_step(p: Seq<char>, at: int, event: EventModel) -> (int, ActionModel) {
    let leaf = at + 1 == components(p).len();
    match event {
        EventModel::Absent => (at, ActionModel::Missing),
        EventModel::OpenFailed(reason) => (
            at,
            refused(p, "component cannot be opened without following links: "@ + reason),
        ),
        EventModel::InspectFailed(reason) => (
            at,
            refused(p, "component metadata is unavailable: "@ + reason),
        ),
        EventModel::Opened(kind) => if leaf {
            if kind == FileKind::Regular {
                (at, ActionModel::Found)
            } else {
                (at, refused(p, "managed leaf is not a regular file"@))
            }
        } else if kind == FileKind::Directory {
            (at, ActionModel::ProbeBoundary)
        } else {
            (at, refused(p, "managed parent is not a directory"@))
        },
        EventModel::Boundary(found) => if found {
            (at, refused(p, "submodule boundary is not allowed"@))
        } else if leaf {
            (at, ActionModel::Missing)
        } else {
            (at + 1, open_component(p, at + 1))
        },
        EventModel::BoundaryFailed(reason) => (
            at,
            refused(p, "could not inspect submodule boundary: "@ + reason),
        ),
    }
}

/// The way to a managed file.
#[derive(Debug)]
pub struct Walk {
    path: ManagedPath,
    parts: Vec<String>,
    at: usize,
}

pub struct WalkModel {
    pub path: Seq<char>,
    pub at: int,
}

impl View for Walk {
    type V = WalkModel;

    closed spec fn view(&self) -> WalkModel {
        WalkModel { path: self.path@, at: self.at as int }
    }
}

impl Walk {
    #[verifier::type_invariant]
    spec fn valid(self) -> bool {
        text::texts(self.parts@) == components(self.path@) && self.at < self.parts@.len()
    }

    /// Begins at the first component.
    pub fn start(path: &ManagedPath) -> (r: (Walk, WalkAction))
        ensures
            r.0@ == (WalkModel { path: path@, at: 0 }),
            r.1@ == open_component(path@, 0),
    {
        let chars = text::chars_of(path.as_str());
        let pieces = segment::split_at_char(chars.as_slice(), '/');
        let ghost all = components(path@);
        let mut parts: Vec<String> = Vec::new();
        let mut i: usize = 0;
        while i < pieces.len()
            invariant
                i <= pieces.len(),
                all == text::pieces(pieces@),
                parts@.len() == i,
                forall|j: int| 0 <= j < i ==> (#[trigger] parts@[j])@ == all[j],
            decreases pieces.len() - i,
        {
            parts.push(text::string_of(pieces[i].as_slice()));
            i = i + 1;
        }
        assert(text::texts(parts@) =~= all);
        assert(all.len() > 0) by {
            lemma_has_component(path@);
        }
        let first = parts[0].clone();
        let only: bool = parts.len() == 1;
        let walk = Walk { path: path.clone(), parts, at: 0 };
        if only {
            (walk, WalkAction::OpenLeaf(first))
        } else {
            (walk, WalkAction::OpenDirectory(first))
        }
    }

    /// Takes an event and says what is done next.
    pub fn next(self, event: WalkEvent) -> (r: (Walk, WalkAction))
        ensures
            r.0@.path == self@.path,
            (r.0@.at, r.1@) == walk_step(self@.path, self@.at, event@),
    {
        proof {
            use_type_invariant(&self);
        }
        let mut walk = self;
        let ghost all = components(walk.path@);
        assert(all.len() == walk.parts@.len());
        let count: usize = walk.parts.len();
        let leaf: bool = walk.at + 1 == count;
        match event {
            WalkEvent::Absent => (walk, WalkAction::Missing),
            WalkEvent::OpenFailed(reason) => {
                let error = GitveilError::path(
                    &walk.path,
                    text::cat2(
                        "component cannot be opened without following links: ",
                        reason.as_str(),
                    ).as_str(),
                );
                (walk, WalkAction::Refuse(error))
            },
            WalkEvent::InspectFailed(reason) => {
                let error = GitveilError::path(
                    &walk.path,
                    text::cat2("component metadata is unavailable: ", reason.as_str()).as_str(),
                );
                (walk, WalkAction::Refuse(error))
            },
            WalkEvent::Opened(kind) => {
                if leaf {
                    if kind == FileKind::Regular {
                        return (walk, WalkAction::Found);
                    }
                    let error = GitveilError::path(
                        &walk.path,
                        "managed leaf is not a regular file",
                    );
                    return (walk, WalkAction::Refuse(error));
                }
                if kind == FileKind::Directory {
                    return (walk, WalkAction::ProbeBoundary);
                }
                let error = GitveilError::path(&walk.path, "managed parent is not a directory");
                (walk, WalkAction::Refuse(error))
            },
            WalkEvent::Boundary(found) => {
                if found {
                    let error = GitveilError::path(
                        &walk.path,
                        "submodule boundary is not allowed",
                    );
                    return (walk, WalkAction::Refuse(error));
                }
                if leaf {
                    return (walk, WalkAction::Missing);
                }
                let at: usize = walk.at + 1;
                assert(all[at as int] == walk.parts@[at as int]@);
                let name = walk.parts[at].clone();
                let last: bool = at + 1 == count;
                walk.at = at;
                if last {
                    (walk, WalkAction::OpenLeaf(name))
                } else {
                    (walk, WalkAction::OpenDirectory(name))
                }
            },
            WalkEvent::BoundaryFailed(reason) => {
                let error = GitveilError::path(
                    &walk.path,
                    text::cat2("could not inspect submodule boundary: ", reason.as_str()).as_str(),
                );
                (walk, WalkAction::Refuse(error))
            },
        }
    }
}

proof fn lemma_has_component(p: Seq<char>)
    ensures
        components(p).len() > 0,
    decreases p.len(),
{
    reveal_with_fuel(segment::split, 2);
}

/// Where a way stands after some events.
pub open spec fn course(p: Seq<char>, events: Seq<EventModel>) -> (int, ActionModel)
    decreases events.len(),
{
    if events.len() == 0 {
        (0, open_component(p, 0))
    } else {
        walk_step(p, course(p, events.drop_last()).0, events.last())
    }
}

/// Some event of a list says that a directory without repository metadata was passed
/// at a component.
pub open spec fn passed(p: Seq<char>, events: Seq<EventModel>, at: int) -> bool {
    exists|n: int|
        0 < n <= events.len() && course(p, #[trigger] events.take(n)).0 == at + 1 && course(
            p,
            events.take(n - 1),
        ).0 == at && events[n - 1] == EventModel::Boundary(false)
}

/// Law: a way comes to a component only past all components before it, each of which
/// was found to hold no repository metadata.
pub proof fn law_way_passes_every_parent(p: Seq<char>, events: Seq<EventModel>, at: int)
    requires
        0 <= at < course(p, events).0,
    ensures
        passed(p, events, at),
    decreases events.len(),
{
    let head = events.drop_last();
    let before = course(p, head).0;
    if at < before {
        law_way_passes_every_parent(p, head, at);
        let n = choose|n: int|
            0 < n <= head.len() && course(p, #[trigger] head.take(n)).0 == at + 1 && course(
                p,
                head.take(n - 1),
            ).0 == at && head[n - 1] == EventModel::Boundary(false);
        assert(events.take(n) =~= head.take(n));
        assert(events.take(n - 1) =~= head.take(n - 1));
        assert(events[n - 1] == head[n - 1]);
    } else {
        let n = events.len() as int;
        assert(events.take(n) =~= events);
        assert(events.take(n - 1) =~= head);
        assert(course(p, events.take(n)).0 == at + 1);
    }
}

/// Law: a file is accepted only at the last component, and only where it is a regular
/// file that was opened without following links.
pub proof fn law_only_regular_leaves_are_found(p: Seq<char>, at: int, event: EventModel)
    requires
        walk_step(p, at, event).1 == ActionModel::Found,
    ensures
        at + 1 == components(p).len(),
        event == EventModel::Opened(FileKind::Regular),
{
}

/// Law: on the way to a file every parent must be a directory without repository metadata,
/// and the file itself a regular one. A regular file at the end is accepted, a directory on
/// the way is looked into, and then the next component is opened; anything that is neither is
/// refused, and what is absent is reported as missing.
pub proof fn law_every_component_is_judged(p: Seq<char>, at: int, event: EventModel)
    requires
        0 <= at < components(p).len(),
    ensures
        ({
            let (next, action) = walk_step(p, at, event);
            let leaf = at == components(p).len() - 1;
            &&& action == ActionModel::Found <==> leaf && event == EventModel::Opened(
                FileKind::Regular,
            )
            &&& action == ActionModel::ProbeBoundary <==> !leaf && event == EventModel::Opened(
                FileKind::Directory,
            )
            &&& next == at + 1 <==> !leaf && event == EventModel::Boundary(false)
            &&& next == at || next == at + 1
            &&& next == at + 1 ==> action == open_component(p, at + 1)
            &&& action == ActionModel::Missing <==> event == EventModel::Absent || (leaf && event
                == EventModel::Boundary(false))
            &&& event == EventModel::Boundary(true) ==> action is Refuse
            &&& event is OpenFailed || event is InspectFailed || event is BoundaryFailed ==> action
                is Refuse
        }),
{
}

/// Law: a component is opened as the file where it is the last, and as a directory otherwise.
pub proof fn law_only_the_last_component_is_a_file(p: Seq<char>, at: int)
    requires
        0 <= at < components(p).len(),
    ensures
        open_component(p, at) == ActionModel::OpenLeaf(components(p)[at]) <==> at
            == components(p).len() - 1,
        open_component(p, at) == ActionModel::OpenDirectory(components(p)[at]) <==> at
            < components(p).len() - 1,
{
}

} // verus!
