//! What commands report, and the exit codes that they end with.

use vstd::prelude::*;

use crate::configure::step;
use crate::configure::step::{AddOutcome, AddOutcomeKind};
use crate::error::{ErrorCategory, GitveilError};
use crate::open::step as open_step;
use crate::open::step::OpenOutcome;
use crate::path::ManagedPath;
use crate::resolve::step::ResolveOutcome;
use crate::seal::step::SealOutcome;
use crate::segment;
use crate::shell;
use crate::source::node;
use crate::status;
use crate::status::PairStatus;
use crate::text;

verus! {

/// Severity tone for one report line; rendered as color on a TTY.
#[derive(Clone, Copy, Debug, PartialEq, Eq, Structural)]
pub enum Tone {
    Good,
    Quiet,
    Attention,
    Bad,
}

impl Tone {
    /// The color of a tone, as terminals number them.
    pub open spec fn code(self) -> Seq<char> {
        match self {
            Tone::Good => "32"@,
            Tone::Quiet => "2"@,
            Tone::Attention => "33"@,
            Tone::Bad => "31"@,
        }
    }

    fn as_code(self) -> (r: &'static str)
        ensures
            r@ == self.code(),
    {
        match self {
            Tone::Good => "32",
            Tone::Quiet => "2",
            Tone::Attention => "33",
            Tone::Bad => "31",
        }
    }
}

pub open spec fn painted(s: Seq<char>, tone: Tone, enabled: bool) -> Seq<char> {
    if enabled {
        "\x1b["@ + tone.code() + "m"@ + s + "\x1b[0m"@
    } else {
        s
    }
}

pub fn paint(text: &str, tone: Tone, enabled: bool) -> (r: String)
    ensures
        r@ == painted(text@, tone, enabled),
{
    if !enabled {
        return text.to_owned();
    }
    text::cat5("\x1b[", tone.as_code(), "m", text, "\x1b[0m")
}

pub open spec fn tone_of(s: status::StatusModel) -> Tone {
    if s.bad() {
        Tone::Bad
    } else if s.clean() {
        Tone::Good
    } else {
        Tone::Attention
    }
}

pub fn status_tone(state: &PairStatus) -> (r: Tone)
    ensures
        r == tone_of(state@),
{
    if state.is_bad() {
        Tone::Bad
    } else if state.is_clean() {
        Tone::Good
    } else {
        Tone::Attention
    }
}

#[derive(Clone, Copy, Debug, PartialEq, Eq, Structural)]
pub enum RunOutcome {
    Success,
    Attention,
}

impl RunOutcome {
    pub open spec fn code(self) -> u8 {
        match self {
            RunOutcome::Success => 0,
            RunOutcome::Attention => 1,
        }
    }

    pub fn exit_code(self) -> (r: u8)
        ensures
            r == self.code(),
    {
        match self {
            RunOutcome::Success => 0,
            RunOutcome::Attention => 1,
        }
    }
}

pub open spec fn error_code(category: ErrorCategory) -> u8 {
    match category {
        ErrorCategory::Integrity | ErrorCategory::Ciphertext => 3,
        _ => 1,
    }
}

/// Maps an error category to the documented CLI exit code.
///
/// The mapping is part of the public interface: `3` means repository content
/// failed ciphertext or integrity verification, and every other runtime
/// failure exits `1`. Usage errors exit `2` before any command runs.
pub fn error_exit_code(category: ErrorCategory) -> (r: u8)
    ensures
        r == error_code(category),
{
    match category {
        ErrorCategory::Integrity | ErrorCategory::Ciphertext => 3,
        _ => 1,
    }
}

/// Law: a run ends with code 0 exactly if nothing failed and nothing needs attention,
/// with code 3 exactly if content failed verification, and never with the code of a
/// usage error.
pub proof fn law_exit_codes(r: Result<RunOutcome, ErrorCategory>)
    ensures
        ({
            let code = match r {
                Ok(outcome) => outcome.code(),
                Err(category) => error_code(category),
            };
            &&& code == 0 <==> r == Ok::<RunOutcome, ErrorCategory>(RunOutcome::Success)
            &&& code == 3 <==> (r matches Err(category) && (category == ErrorCategory::Integrity
                || category == ErrorCategory::Ciphertext))
            &&& code != 2
        }),
{
}

/// What is printed of one file.
#[derive(Debug, PartialEq, Eq)]
pub struct Report {
    /// Lines of the standard output.
    pub lines: Vec<String>,
    /// The line of the standard error, if there is one.
    pub error: Option<String>,
    /// The run needs attention.
    pub attention: bool,
}

pub struct ReportModel {
    pub lines: Seq<Seq<char>>,
    pub error: Option<Seq<char>>,
    pub attention: bool,
}

impl View for Report {
    type V = ReportModel;

    open spec fn view(&self) -> ReportModel {
        ReportModel {
            lines: text::texts(self.lines@),
            error: text::view_option(self.error),
            attention: self.attention,
        }
    }
}

/// How the two outputs are styled.
#[derive(Clone, Copy, Debug, PartialEq, Eq, Structural)]
pub struct Styling {
    pub output: bool,
    pub errors: bool,
}

pub open spec fn line(p: Seq<char>, label: Seq<char>, tone: Tone, s: Styling) -> Seq<char> {
    p + ": "@ + painted(label, tone, s.output)
}

/// A report of one line.
pub open spec fn single(
    p: Seq<char>,
    label: Seq<char>,
    tone: Tone,
    s: Styling,
    attention: bool,
) -> ReportModel {
    ReportModel { lines: seq![line(p, label, tone, s)], error: None, attention }
}

/// The report of a failure.
pub open spec fn failed(p: Seq<char>, message: Seq<char>, s: Styling) -> ReportModel {
    ReportModel {
        lines: Seq::empty(),
        error: Some(painted("gitveil: "@ + p + ": "@ + message, Tone::Bad, s.errors)),
        attention: true,
    }
}

fn build_single(path: &ManagedPath, label: &str, tone: Tone, s: Styling, attention: bool) -> (r: Report)
    ensures
        r@ == single(path@, label@, tone, s, attention),
{
    let lines = vec![text::cat3(path.as_str(), ": ", paint(label, tone, s.output).as_str())];
    assert(text::texts(lines@) =~= seq![line(path@, label@, tone, s)]);
    Report { lines, error: None, attention }
}

pub fn report_error(path: &ManagedPath, error: &GitveilError, s: Styling) -> (r: Report)
    ensures
        r@ == failed(path@, error@.1, s),
{
    let message = text::cat4("gitveil: ", path.as_str(), ": ", error.message());
    let lines: Vec<String> = Vec::new();
    assert(text::texts(lines@) =~= Seq::<Seq<char>>::empty());
    Report { lines, error: Some(paint(message.as_str(), Tone::Bad, s.errors)), attention: true }
}

/// The conflicts of an opened file, each on a line of its own.
pub open spec fn conflict_lines(conflicts: Seq<crate::open::plan::ConflictModel>) -> Seq<
    Seq<char>,
> {
    conflicts.map_values(|c: crate::open::plan::ConflictModel| "  "@ + c.text())
}

pub open spec fn open_model(
    p: Seq<char>,
    r: Result<open_step::OutcomeModel, Seq<char>>,
    s: Styling,
) -> ReportModel {
    match r {
        Ok(open_step::OutcomeModel::Opened) => single(p, "opened"@, Tone::Good, s, false),
        Ok(open_step::OutcomeModel::UpToDate) => single(p, "up to date"@, Tone::Quiet, s, false),
        Ok(open_step::OutcomeModel::Conflicts(conflicts)) => ReportModel {
            lines: seq![line(p, "conflicts; edit and run gitveil seal"@, Tone::Bad, s)]
                + conflict_lines(conflicts),
            error: None,
            attention: true,
        },
        Err(message) => failed(p, message, s),
    }
}

pub fn open_report(path: &ManagedPath, result: &Result<OpenOutcome, GitveilError>, s: Styling) -> (r: Report)
    ensures
        r@ == open_model(
            path@,
            match result {
                Ok(outcome) => Ok(outcome@),
                Err(error) => Err(error@.1),
            },
            s,
        ),
{
    match result {
        Ok(OpenOutcome::Opened) => build_single(path, "opened", Tone::Good, s, false),
        Ok(OpenOutcome::UpToDate) => build_single(path, "up to date", Tone::Quiet, s, false),
        Ok(OpenOutcome::Conflicts(conflicts)) => {
            let mut report = build_single(
                path,
                "conflicts; edit and run gitveil seal",
                Tone::Bad,
                s,
                true,
            );
            let ghost first = report@.lines;
            let ghost all = crate::open::plan::conflict_models(conflicts@);
            let mut i: usize = 0;
            assert(first + conflict_lines(all.take(0)) =~= first);
            while i < conflicts.len()
                invariant
                    i <= conflicts.len(),
                    all == crate::open::plan::conflict_models(conflicts@),
                    report@.lines == first + conflict_lines(all.take(i as int)),
                    report@.error is None,
                    report@.attention,
                decreases conflicts.len() - i,
            {
                let ghost held = report.lines@;
                report.lines.push(text::cat2("  ", conflicts[i].describe().as_str()));
                assert(text::texts(report.lines@) =~= text::texts(held).push(
                    "  "@ + all[i as int].text(),
                ));
                assert(conflict_lines(all.take(i + 1)) =~= conflict_lines(
                    all.take(i as int),
                ).push("  "@ + all[i as int].text()));
                assert(first + conflict_lines(all.take(i as int)).push("  "@ + all[i as int].text())
                    =~= (first + conflict_lines(all.take(i as int))).push(
                    "  "@ + all[i as int].text(),
                ));
                i = i + 1;
            }
            assert(all.take(i as int) =~= all);
            report
        },
        Err(error) => report_error(path, error, s),
    }
}

pub open spec fn seal_model(
    p: Seq<char>,
    r: Result<SealOutcome, Seq<char>>,
    s: Styling,
) -> ReportModel {
    match r {
        Ok(SealOutcome::Sealed) => single(p, "sealed"@, Tone::Good, s, false),
        Ok(SealOutcome::Unchanged) => single(p, "unchanged"@, Tone::Quiet, s, false),
        Err(message) => failed(p, message, s),
    }
}

pub fn seal_report(path: &ManagedPath, result: &Result<SealOutcome, GitveilError>, s: Styling) -> (r: Report)
    ensures
        r@ == seal_model(
            path@,
            match result {
                Ok(outcome) => Ok(*outcome),
                Err(error) => Err(error@.1),
            },
            s,
        ),
{
    match result {
        Ok(SealOutcome::Sealed) => build_single(path, "sealed", Tone::Good, s, false),
        Ok(SealOutcome::Unchanged) => build_single(path, "unchanged", Tone::Quiet, s, false),
        Err(error) => report_error(path, error, s),
    }
}

pub open spec fn status_model(
    p: Seq<char>,
    r: Result<status::StatusModel, Seq<char>>,
    s: Styling,
) -> ReportModel {
    match r {
        Ok(state) => single(p, state.text(), tone_of(state), s, !state.clean()),
        Err(message) => failed(p, message, s),
    }
}

pub fn status_report(path: &ManagedPath, result: &Result<PairStatus, GitveilError>, s: Styling) -> (r: Report)
    ensures
        r@ == status_model(
            path@,
            match result {
                Ok(state) => Ok(state@),
                Err(error) => Err(error@.1),
            },
            s,
        ),
{
    match result {
        Ok(state) => build_single(
            path,
            state.describe().as_str(),
            status_tone(state),
            s,
            !state.is_clean(),
        ),
        Err(error) => report_error(path, error, s),
    }
}

/// What became of a conflicted file, or the message of the failure.
pub enum ResolveModel {
    Resolved { data_key_rotated: bool },
    ConflictWritten(Seq<node::Step>),
    Failed(Seq<char>),
}

pub open spec fn view_resolved(r: Result<ResolveOutcome, GitveilError>) -> ResolveModel {
    match r {
        Ok(ResolveOutcome::Resolved { data_key_rotated, recipient_drift }) =>
            ResolveModel::Resolved { data_key_rotated },
        Ok(ResolveOutcome::ConflictWritten(at)) => ResolveModel::ConflictWritten(at@),
        Err(error) => ResolveModel::Failed(error@.1),
    }
}

pub open spec fn resolve_model(p: Seq<char>, r: ResolveModel, s: Styling) -> ReportModel {
    match r {
        ResolveModel::Resolved { data_key_rotated } => single(
            p,
            if data_key_rotated {
                "resolved; data key rotated; review and git add"@
            } else {
                "resolved; review and git add"@
            },
            Tone::Good,
            s,
            false,
        ),
        ResolveModel::ConflictWritten(at) => single(
            p,
            "conflict at "@ + node::path_text(at) + "; edit the plaintext and run gitveil seal"@,
            Tone::Bad,
            s,
            true,
        ),
        ResolveModel::Failed(message) => failed(p, message, s),
    }
}

pub fn resolve_report(
    path: &ManagedPath,
    result: &Result<ResolveOutcome, GitveilError>,
    s: Styling,
) -> (r: Report)
    ensures
        r@ == resolve_model(path@, view_resolved(*result), s),
{
    match result {
        Ok(ResolveOutcome::Resolved { data_key_rotated, .. }) => if *data_key_rotated {
            build_single(
                path,
                "resolved; data key rotated; review and git add",
                Tone::Good,
                s,
                false,
            )
        } else {
            build_single(path, "resolved; review and git add", Tone::Good, s, false)
        },
        Ok(ResolveOutcome::ConflictWritten(at)) => {
            let label = text::cat3(
                "conflict at ",
                at.to_text().as_str(),
                "; edit the plaintext and run gitveil seal",
            );
            build_single(path, label.as_str(), Tone::Bad, s, true)
        },
        Err(error) => report_error(path, error, s),
    }
}

/// The outcome of a run over some files.
pub fn run_outcome(reports: &[Report]) -> (r: RunOutcome)
    ensures
        r == RunOutcome::Attention <==> exists|i: int|
            0 <= i < reports@.len() && (#[trigger] reports@[i])@.attention,
{
    let mut i: usize = 0;
    while i < reports.len()
        invariant
            i <= reports.len(),
            forall|j: int| 0 <= j < i ==> !(#[trigger] reports@[j])@.attention,
        decreases reports.len() - i,
    {
        if reports[i].attention {
            assert(reports@[i as int]@.attention);
            return RunOutcome::Attention;
        }
        i = i + 1;
    }
    RunOutcome::Success
}

/// How a run over the history ends.
pub fn verify_outcome(violations: usize) -> (r: Result<RunOutcome, GitveilError>)
    ensures
        if violations == 0 {
            r matches Ok(outcome) && outcome == RunOutcome::Success
        } else {
            r matches Err(e) && e@ == (
                ErrorCategory::Integrity,
                segment::decimal(violations as nat) + " history violation(s) found"@,
            )
        },
{
    if violations == 0 {
        return Ok(RunOutcome::Success);
    }
    Err(
        GitveilError::new(
            ErrorCategory::Integrity,
            text::cat2(segment::decimal_of(violations).as_str(), " history violation(s) found"),
        ),
    )
}

/// The line that an initialization prints.
pub fn init_line(policy: &str, recipients: usize) -> (r: String)
    ensures
        r@ == "initialized .gitveilrc.json with recipient policy "@ + policy@ + " ("@
            + segment::decimal(recipients as nat) + (if recipients == 1 {
            " recipient)"@
        } else {
            " recipients)"@
        }),
{
    let end: &str = if recipients == 1 {
        " recipient)"
    } else {
        " recipients)"
    };
    text::cat5(
        "initialized .gitveilrc.json with recipient policy ",
        policy,
        " (",
        segment::decimal_of(recipients).as_str(),
        end,
    )
}

pub open spec fn add_label(o: step::AddModel) -> Seq<char> {
    match o.kind {
        AddOutcomeKind::AddedExisting => ": added; existing plaintext protected"@,
        AddOutcomeKind::AddedMissing => ": added; create the plaintext before sealing"@,
        AddOutcomeKind::AlreadyManaged => if o.plaintext_exists {
            ": already managed; existing plaintext protected"@
        } else {
            ": already managed; create the plaintext before sealing"@
        },
    }
}

/// The line that a registered file prints.
pub fn add_line(outcome: &AddOutcome) -> (r: String)
    ensures
        r@ == outcome@.path + add_label(outcome@),
{
    let label: &str = match outcome.kind() {
        AddOutcomeKind::AddedExisting => ": added; existing plaintext protected",
        AddOutcomeKind::AddedMissing => ": added; create the plaintext before sealing",
        AddOutcomeKind::AlreadyManaged => if outcome.plaintext_exists() {
            ": already managed; existing plaintext protected"
        } else {
            ": already managed; create the plaintext before sealing"
        },
    };
    text::cat2(outcome.path().as_str(), label)
}

pub open spec fn all_plain(s: Seq<char>) -> bool {
    forall|i: int| 0 <= i < s.len() ==> shell::plain(#[trigger] s[i])
}

/// A word for a shell: as it is where that is safe, between single quotes otherwise.
pub open spec fn quoted(value: Seq<char>) -> Seq<char> {
    if all_plain(value) {
        value
    } else {
        shell::enclosed(value, "'\"'\"'"@)
    }
}

pub fn shell_quote(value: &str) -> (r: String)
    ensures
        r@ == quoted(value@),
{
    let chars = text::chars_of(value);
    let mut i: usize = 0;
    while i < chars.len()
        invariant
            i <= chars.len(),
            chars@ == value@,
            forall|j: int| 0 <= j < i ==> shell::plain(#[trigger] chars@[j]),
        decreases chars.len() - i,
    {
        if !shell::is_plain(chars[i]) {
            assert(!shell::plain(value@[i as int]));
            return shell::enclose(value, "'\"'\"'");
        }
        i = i + 1;
    }
    value.to_owned()
}

/// Law: a shell reads a quoted word as the text that was quoted. (An empty text is no
/// word at all.)
pub proof fn law_quoted_words_are_literal(value: Seq<char>)
    requires
        value.len() > 0,
    ensures
        shell::word_value(quoted(value), shell::Quoting::Plain) == Some(value),
        quoted(value).len() > 0,
{
    if all_plain(value) {
        shell::lemma_plain(value);
    } else {
        shell::lemma_double_quotes_escape();
        shell::lemma_enclosed(value, "'\"'\"'"@);
        reveal_strlit("'");
    }
}

/// The words for the files whose plaintext is there.
pub open spec fn sealable(outcomes: Seq<step::AddModel>) -> Seq<Seq<char>>
    decreases outcomes.len(),
{
    if outcomes.len() == 0 {
        Seq::empty()
    } else if outcomes.last().plaintext_exists {
        sealable(outcomes.drop_last()).push(quoted(outcomes.last().path))
    } else {
        sealable(outcomes.drop_last())
    }
}

/// The next command to run, where some plaintext can be sealed.
pub fn seal_hint(outcomes: &[AddOutcome]) -> (r: Option<String>)
    ensures
        ({
            let words = sealable(step::add_models(outcomes@));
            if words.len() == 0 {
                r is None
            } else {
                r matches Some(s) && s@ == "next: gitveil seal -- "@ + segment::join(words, " "@)
            }
        }),
{
    let ghost all = step::add_models(outcomes@);
    let mut words: Vec<String> = Vec::new();
    let mut i: usize = 0;
    assert(all.take(0) =~= Seq::<step::AddModel>::empty());
    assert(text::texts(words@) =~= Seq::<Seq<char>>::empty());
    while i < outcomes.len()
        invariant
            i <= outcomes.len(),
            all == step::add_models(outcomes@),
            text::texts(words@) == sealable(all.take(i as int)),
        decreases outcomes.len() - i,
    {
        assert(all.take(i + 1).drop_last() =~= all.take(i as int));
        assert(all.take(i + 1).last() == outcomes@[i as int]@);
        if outcomes[i].plaintext_exists() {
            let ghost held = words@;
            words.push(shell_quote(outcomes[i].path().as_str()));
            assert(text::texts(words@) =~= text::texts(held).push(
                quoted(outcomes@[i as int]@.path),
            ));
        }
        i = i + 1;
    }
    assert(all.take(i as int) =~= all);
    assert(words@.len() == sealable(all).len());
    if words.len() == 0 {
        return None;
    }
    Some(text::cat2("next: gitveil seal -- ", segment::joined(words.as_slice(), " ").as_str()))
}

/// Law: what is printed of a file calls for attention exactly where something failed, is in
/// conflict or is not as it should be; a failure is printed as an error, and nothing else is.
pub proof fn law_reports_call_for_attention(
    p: Seq<char>,
    s: Styling,
    opened: Result<open_step::OutcomeModel, Seq<char>>,
    sealed: Result<SealOutcome, Seq<char>>,
    state: Result<status::StatusModel, Seq<char>>,
    resolved: ResolveModel,
)
    ensures
        open_model(p, opened, s).attention <==> opened is Err || (opened matches Ok(
            open_step::OutcomeModel::Conflicts(_),
        )),
        seal_model(p, sealed, s).attention <==> sealed is Err,
        status_model(p, state, s).attention <==> state is Err || (state matches Ok(found) && !(
        found.data is Clean && found.recipients is Aligned)),
        resolve_model(p, resolved, s).attention <==> !(resolved is Resolved),
        open_model(p, opened, s).error is Some <==> opened is Err,
        seal_model(p, sealed, s).error is Some <==> sealed is Err,
        status_model(p, state, s).error is Some <==> state is Err,
        resolve_model(p, resolved, s).error is Some <==> resolved is Failed,
{
}

/// Law: every conflict of an opened file is printed on a line of its own, in their order,
/// below the line of the file.
pub proof fn law_every_conflict_is_printed(
    p: Seq<char>,
    conflicts: Seq<crate::open::plan::ConflictModel>,
    s: Styling,
    i: int,
)
    requires
        0 <= i < conflicts.len(),
    ensures
        ({
            let report = open_model(p, Ok(open_step::OutcomeModel::Conflicts(conflicts)), s);
            &&& report.lines.len() == conflicts.len() + 1
            &&& report.lines[i + 1] == "  "@ + conflicts[i].text()
            &&& p.is_prefix_of(report.lines[0])
        }),
{
}

/// Law: a state is shown as bad exactly where it is, and as good exactly where nothing is to
/// be done; without styling a text is printed as it is.
pub proof fn law_tones_fit_the_state(state: status::StatusModel, text: Seq<char>, tone: Tone)
    ensures
        tone_of(state) == Tone::Bad <==> state.data is Conflicted || state.data is Corrupt,
        tone_of(state) == Tone::Good <==> state.data is Clean && state.recipients is Aligned,
        tone_of(state) != Tone::Quiet,
        painted(text, tone, false) == text,
        text::contains(painted(text, tone, true), text),
{
    let lead = "\x1b["@ + tone.code() + "m"@;
    let all = painted(text, tone, true);
    assert(all.subrange(lead.len() as int, (lead.len() + text.len()) as int) =~= text);
    assert(text::occurs_at(all, text, lead.len() as int));
}

} // verus!
