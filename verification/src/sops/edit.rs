//! The course of an edit: SOPS asks for its editor once and gets the payload.

use vstd::prelude::*;

use crate::error::{ErrorCategory, GitveilError};
use crate::sops::classify;
use crate::sops::command;
use crate::text;

verus! {

/// What happened in an edit.
#[derive(Debug)]
pub enum EditEvent {
    /// The editor's side was attended to. Before the delivery this tells whether the
    /// payload was handed over; after it, whether the editor called again.
    Editor(Result<bool, GitveilError>),
    /// The process was asked whether it has ended, and the clock whether the time is
    /// up.
    Polled { ended: bool, late: bool },
    /// The process could not be asked, for a reason of this kind.
    PollFailed(String),
    /// A moment has passed.
    Paused,
    /// The process has ended, and what it wrote has been read.
    Collected { success: bool, code: Option<i32>, stderr: Vec<u8> },
}

/// What is done next in an edit.
#[derive(Debug)]
pub enum EditAction {
    /// Hand the payload to the editor, if it has called.
    ServeEditor,
    /// Turn the editor away, if it has called again.
    RejectReuse,
    /// Ask whether the process has ended.
    PollProcess,
    /// Wait a moment.
    Pause,
    /// Read what the process wrote.
    Collect,
    /// Kill the process and report the failure.
    Kill(GitveilError),
    /// Report the result.
    Finish(Result<(), GitveilError>),
}

pub enum EventModel {
    Editor(Result<bool, (ErrorCategory, Seq<char>)>),
    Polled { ended: bool, late: bool },
    PollFailed(Seq<char>),
    Paused,
    Collected { success: bool, code: Option<i32>, stderr: Seq<u8> },
}

pub enum ActionModel {
    ServeEditor,
    RejectReuse,
    PollProcess,
    Pause,
    Collect,
    Kill((ErrorCategory, Seq<char>)),
    Finish(Result<(), (ErrorCategory, Seq<char>)>),
}

impl View for EditEvent {
    type V = EventModel;

    open spec fn view(&self) -> EventModel {
        match *self {
            EditEvent::Editor(Ok(called)) => EventModel::Editor(Ok(called)),
            EditEvent::Editor(Err(e)) => EventModel::Editor(Err(e@)),
            EditEvent::Polled { ended, late } => EventModel::Polled { ended, late },
            EditEvent::PollFailed(kind) => EventModel::PollFailed(kind@),
            EditEvent::Paused => EventModel::Paused,
            EditEvent::Collected { success, code, stderr } => EventModel::Collected {
                success,
                code,
                stderr: stderr@,
            },
        }
    }
}

impl View for EditAction {
    type V = ActionModel;

    open spec fn view(&self) -> ActionModel {
        match *self {
            EditAction::ServeEditor => ActionModel::ServeEditor,
            EditAction::RejectReuse => ActionModel::RejectReuse,
            EditAction::PollProcess => ActionModel::PollProcess,
            EditAction::Pause => ActionModel::Pause,
            EditAction::Collect => ActionModel::Collect,
            EditAction::Kill(e) => ActionModel::Kill(e@),
            EditAction::Finish(Ok(_)) => ActionModel::Finish(Ok(())),
            EditAction::Finish(Err(e)) => ActionModel::Finish(Err(e@)),
        }
    }
}

/// The result of an edit whose process has ended. It succeeds only where the payload
/// was handed over.
pub open spec fn edit_result(
    delivered: bool,
    success: bool,
    code: Option<i32>,
    stderr: Seq<u8>,
) -> Result<(), (ErrorCategory, Seq<char>)> {
    if success && delivered {
        Ok(())
    } else {
        Err(
            (
                classify::failure_category(classify::classified(stderr)),
                "SOPS edit failed with exit code "@ + command::code_text(code)
                    + command::detail_suffix(stderr),
            ),
        )
    }
}

/// One step of an edit: whether the payload has been handed over after the event, and
/// what is done next.
pub open spec fn edit_step(delivered: bool, event: EventModel) -> (bool, ActionModel) {
    match event {
        EventModel::Editor(Err(fault)) => (delivered, ActionModel::Kill(fault)),
        EventModel::Editor(Ok(called)) => if delivered && called {
            (
                true,
                ActionModel::Kill(
                    (
                        ErrorCategory::Process,
                        "SOPS requested the one-time editor more than once"@,
                    ),
                ),
            )
        } else {
            (delivered || called, ActionModel::PollProcess)
        },
        EventModel::PollFailed(kind) => (
            delivered,
            ActionModel::Finish(
                Err((ErrorCategory::Process, "could not poll SOPS edit process: "@ + kind)),
            ),
        ),
        EventModel::Polled { ended, late } => (
            delivered,
            if ended {
                ActionModel::Collect
            } else if late {
                ActionModel::Kill((ErrorCategory::Process, "SOPS edit process timed out"@))
            } else {
                ActionModel::Pause
            },
        ),
        EventModel::Paused => (
            delivered,
            if delivered {
                ActionModel::RejectReuse
            } else {
                ActionModel::ServeEditor
            },
        ),
        EventModel::Collected { success, code, stderr } => (
            delivered,
            ActionModel::Finish(edit_result(delivered, success, code, stderr)),
        ),
    }
}

fn process(message: &str) -> (r: GitveilError)
    ensures
        r@ == (ErrorCategory::Process, message@),
{
    GitveilError::new(ErrorCategory::Process, message.to_owned())
}

/// Judges an edit whose process has ended.
pub fn finish_edit(delivered: bool, success: bool, code: Option<i32>, stderr: &[u8]) -> (r: Result<
    (),
    GitveilError,
>)
    ensures
        match edit_result(delivered, success, code, stderr@) {
            Ok(_) => r.is_ok(),
            Err(fault) => r matches Err(e) && e@ == fault,
        },
{
    if success && delivered {
        return Ok(());
    }
    Err(
        GitveilError::new(
            classify::category_of(classify::classify(stderr)),
            text::cat3(
                "SOPS edit failed with exit code ",
                command::show_code(code).as_str(),
                command::show_detail(stderr).as_str(),
            ),
        ),
    )
}

/// Takes an event and says what is done next. An edit starts with nothing delivered
/// and the editor to be served.
pub fn run_edit(delivered: bool, event: EditEvent) -> (r: (bool, EditAction))
    ensures
        (r.0, r.1@) == edit_step(delivered, event@),
{
    match event {
        EditEvent::Editor(Err(error)) => (delivered, EditAction::Kill(error)),
        EditEvent::Editor(Ok(called)) => if delivered && called {
            (
                true,
                EditAction::Kill(process("SOPS requested the one-time editor more than once")),
            )
        } else {
            (delivered || called, EditAction::PollProcess)
        },
        EditEvent::PollFailed(kind) => (
            delivered,
            EditAction::Finish(
                Err(
                    process(
                        text::cat2("could not poll SOPS edit process: ", kind.as_str()).as_str(),
                    ),
                ),
            ),
        ),
        EditEvent::Polled { ended, late } => if ended {
            (delivered, EditAction::Collect)
        } else if late {
            (delivered, EditAction::Kill(process("SOPS edit process timed out")))
        } else {
            (delivered, EditAction::Pause)
        },
        EditEvent::Paused => if delivered {
            (delivered, EditAction::RejectReuse)
        } else {
            (delivered, EditAction::ServeEditor)
        },
        EditEvent::Collected { success, code, stderr } => (
            delivered,
            EditAction::Finish(finish_edit(delivered, success, code, stderr.as_slice())),
        ),
    }
}

/// The state of an edit after some events.
pub open spec fn edit_course(events: Seq<EventModel>) -> (bool, ActionModel)
    decreases events.len(),
{
    if events.len() == 0 {
        (false, ActionModel::ServeEditor)
    } else {
        edit_step(edit_course(events.drop_last()).0, events.last())
    }
}

/// Law: the payload is handed over at most once. From the moment it is, the editor is
/// never served again, whatever happens, and a second call kills the process.
pub proof fn law_payload_is_delivered_once(events: Seq<EventModel>, n: int)
    requires
        0 <= n <= events.len(),
        edit_course(events.take(n)).0,
    ensures
        edit_course(events).0,
        n > 0 ==> edit_course(events).1 != ActionModel::ServeEditor,
        edit_step(true, EventModel::Editor(Ok(true))).1 is Kill,
    decreases events.len(),
{
    if n < events.len() {
        assert(events.drop_last().take(n) =~= events.take(n));
        law_payload_is_delivered_once(events.drop_last(), n);
    } else {
        assert(events.take(n) =~= events);
        if n > 0 {
            assert(edit_course(events) == edit_step(
                edit_course(events.drop_last()).0,
                events.last(),
            ));
        }
    }
}

/// Law: an edit succeeds only after the payload was handed over and the process ended
/// well.
pub proof fn law_success_needs_delivery(delivered: bool, event: EventModel)
    requires
        edit_step(delivered, event).1 == ActionModel::Finish(Ok(())),
    ensures
        delivered,
        event matches EventModel::Collected { success, .. } && success,
{
}

/// Some event handed the payload over.
pub open spec fn handed_over(events: Seq<EventModel>) -> bool {
    exists|i: int| 0 <= i < events.len() && #[trigger] events[i] == EventModel::Editor(Ok(true))
}

/// Law: an edit remembers whether the payload was handed over, and ends well exactly where
/// it was and the process then ended well. The editor is served only as long as it was not.
pub proof fn law_edits_end_as_they_went(events: Seq<EventModel>)
    ensures
        edit_course(events).0 <==> handed_over(events),
        edit_course(events).1 == ActionModel::Finish(Ok(())) <==> events.len() > 0 && handed_over(
            events,
        ) && (events.last() matches EventModel::Collected { success, .. } && success),
        edit_course(events).1 == ActionModel::ServeEditor ==> !handed_over(events),
        edit_course(events).1 == ActionModel::RejectReuse ==> handed_over(events),
        events.len() > 0 ==> (match events.last() {
            EventModel::Polled { ended, late } => {
                &&& edit_course(events).1 == ActionModel::Collect <==> ended
                &&& edit_course(events).1 is Kill <==> late && !ended
                &&& edit_course(events).1 == ActionModel::Pause <==> !late && !ended
            },
            EventModel::Paused => edit_course(events).1 == if handed_over(events) {
                ActionModel::RejectReuse
            } else {
                ActionModel::ServeEditor
            },
            EventModel::Editor(Err(fault)) => edit_course(events).1 == ActionModel::Kill(fault),
            EventModel::Editor(Ok(called)) => edit_course(events).1 is Kill <==> called
                && handed_over(events.drop_last()),
            _ => edit_course(events).1 is Finish,
        }),
    decreases events.len(),
{
    if events.len() > 0 {
        let before = events.drop_last();
        law_edits_end_as_they_went(before);
        if handed_over(before) {
            let i = choose|i: int|
                0 <= i < before.len() && #[trigger] before[i] == EventModel::Editor(Ok(true));
            assert(events[i] == EventModel::Editor(Ok(true)));
        }
        if handed_over(events) && events.last() != EventModel::Editor(Ok(true)) {
            let i = choose|i: int|
                0 <= i < events.len() && #[trigger] events[i] == EventModel::Editor(Ok(true));
            assert(before[i] == EventModel::Editor(Ok(true)));
        }
        if events.last() == EventModel::Editor(Ok(true)) {
            assert(events[events.len() - 1] == EventModel::Editor(Ok(true)));
        }
    }
}

} // verus!
