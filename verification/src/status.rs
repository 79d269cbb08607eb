//! Keyless, direction-aware data and recipient drift of managed pairs.

use vstd::prelude::*;

use crate::baseline::cipher;
use crate::baseline::difference;
use crate::baseline::record;
use crate::baseline::unit;
use crate::baseline::{BaselineDiff, BaselineRecord, CipherSummary};
use crate::config::SourceFormat;
use crate::envelope::ciphertext;
use crate::envelope::CiphertextEnvelope;
use crate::manifest::ResolvedManifestEntry;
use crate::open::plan;
use crate::pair;
use crate::path;
use crate::recipient;
use crate::recipient::{PolicyModel, RecipientSetDiff};
use crate::recipients::plan as lists;
use crate::seal::history;
use crate::seal::step;
use crate::segment;
use crate::source::document;
use crate::source::node;
use crate::source::strict::StrictNode;
use crate::source::yaml;
use crate::source::{SourceDocument, SourceError};
use crate::text;
use crate::text_map;

verus! {

#[derive(Debug, PartialEq, Eq)]
pub enum PairDataStatus {
    Clean,
    /// Plaintext is ahead of the ciphertext.
    LocalEdits(BaselineDiff),
    /// Ciphertext is ahead of the plaintext.
    Behind(BaselineDiff),
    /// Both sides changed since the last sync.
    Diverged { local: BaselineDiff, remote: BaselineDiff },
    /// No baseline: only key-set differences are observable without a key.
    Differs { keys: Vec<String> },
    /// No baseline and identical key sets: value drift is not observable without a
    /// key.
    Unknown,
    /// Merge conflict markers or an unmerged index entry.
    Conflicted,
    PlaintextMissing,
    CiphertextMissing,
    /// Neither side of the pair exists yet.
    Missing,
    /// A side exists but cannot be parsed.
    Corrupt(String),
}

pub enum DataModel {
    Clean,
    LocalEdits(record::DiffModel),
    Behind(record::DiffModel),
    Diverged { local: record::DiffModel, remote: record::DiffModel },
    Differs { keys: Seq<Seq<char>> },
    Unknown,
    Conflicted,
    PlaintextMissing,
    CiphertextMissing,
    Missing,
    Corrupt(Seq<char>),
}

impl View for PairDataStatus {
    type V = DataModel;

    open spec fn view(&self) -> DataModel {
        match self {
            PairDataStatus::Clean => DataModel::Clean,
            PairDataStatus::LocalEdits(d) => DataModel::LocalEdits(d@),
            PairDataStatus::Behind(d) => DataModel::Behind(d@),
            PairDataStatus::Diverged { local, remote } => DataModel::Diverged {
                local: local@,
                remote: remote@,
            },
            PairDataStatus::Differs { keys } => DataModel::Differs { keys: text::texts(keys@) },
            PairDataStatus::Unknown => DataModel::Unknown,
            PairDataStatus::Conflicted => DataModel::Conflicted,
            PairDataStatus::PlaintextMissing => DataModel::PlaintextMissing,
            PairDataStatus::CiphertextMissing => DataModel::CiphertextMissing,
            PairDataStatus::Missing => DataModel::Missing,
            PairDataStatus::Corrupt(reason) => DataModel::Corrupt(reason@),
        }
    }
}

/// The parts of a difference that are shown.
pub open spec fn diff_parts(d: record::DiffModel) -> Seq<Seq<char>> {
    let named = |label: Seq<char>, keys: Seq<Seq<char>>|
        if keys.len() == 0 {
            Seq::<Seq<char>>::empty()
        } else {
            seq![label + segment::join(keys, ", "@)]
        };
    named("changed "@, d.changed) + named("added "@, d.added) + named("removed "@, d.removed) + (
    if d.layout_changed {
        seq!["layout"@]
    } else {
        Seq::empty()
    })
}

pub open spec fn diff_text(d: record::DiffModel) -> Seq<char> {
    let parts = diff_parts(d);
    segment::join(
        if parts.len() == 0 {
            seq!["no observable change"@]
        } else {
            parts
        },
        "; "@,
    )
}

fn push_part(parts: &mut Vec<String>, label: &str, keys: &Vec<String>)
    ensures
        text::texts(final(parts)@) == text::texts(old(parts)@) + if keys@.len() == 0 {
            Seq::<Seq<char>>::empty()
        } else {
            seq![label@ + segment::join(text::texts(keys@), ", "@)]
        },
{
    let ghost before = parts@;
    if keys.len() > 0 {
        parts.push(text::cat2(label, segment::joined(keys.as_slice(), ", ").as_str()));
    }
    assert(text::texts(parts@) =~= text::texts(before) + if keys@.len() == 0 {
        Seq::<Seq<char>>::empty()
    } else {
        seq![label@ + segment::join(text::texts(keys@), ", "@)]
    });
}

fn render(diff: &BaselineDiff) -> (r: String)
    ensures
        r@ == diff_text(diff@),
{
    let mut parts: Vec<String> = Vec::new();
    assert(text::texts(parts@) =~= Seq::<Seq<char>>::empty());
    push_part(&mut parts, "changed ", &diff.changed);
    push_part(&mut parts, "added ", &diff.added);
    push_part(&mut parts, "removed ", &diff.removed);
    let ghost before = parts@;
    if diff.layout_changed {
        parts.push("layout".to_owned());
        assert(text::texts(parts@) =~= text::texts(before).push("layout"@));
    }
    assert(text::texts(parts@) =~= diff_parts(diff@));
    if parts.len() == 0 {
        parts.push("no observable change".to_owned());
        assert(text::texts(parts@) =~= seq!["no observable change"@]);
    }
    segment::joined(parts.as_slice(), "; ")
}

impl DataModel {
    pub open spec fn text(self) -> Seq<char> {
        match self {
            DataModel::Clean => "clean"@,
            DataModel::LocalEdits(d) => "local edits ("@ + diff_text(d) + "); run gitveil seal"@,
            DataModel::Behind(d) => "ciphertext updated ("@ + diff_text(d)
                + "); run gitveil open"@,
            DataModel::Diverged { local, remote } => "diverged (local: "@ + diff_text(local)
                + "; remote: "@ + diff_text(remote) + "); run gitveil open, review, then seal"@,
            DataModel::Differs { keys } => "differs without a baseline (keys: "@ + segment::join(
                keys,
                ", "@,
            ) + "); run gitveil open to reconcile"@,
            DataModel::Unknown => "no baseline; run gitveil open to establish one"@,
            DataModel::Conflicted => "merge conflict; run gitveil resolve"@,
            DataModel::PlaintextMissing => "plaintext missing; run gitveil open"@,
            DataModel::CiphertextMissing => "ciphertext missing; run gitveil seal"@,
            DataModel::Missing => "neither file exists yet"@,
            DataModel::Corrupt(reason) => "corrupt: "@ + reason,
        }
    }
}

impl PairDataStatus {
    pub fn describe(&self) -> (r: String)
        ensures
            r@ == self@.text(),
    {
        match self {
            PairDataStatus::Clean => "clean".to_owned(),
            PairDataStatus::LocalEdits(d) => text::cat3(
                "local edits (",
                render(d).as_str(),
                "); run gitveil seal",
            ),
            PairDataStatus::Behind(d) => text::cat3(
                "ciphertext updated (",
                render(d).as_str(),
                "); run gitveil open",
            ),
            PairDataStatus::Diverged { local, remote } => text::cat5(
                "diverged (local: ",
                render(local).as_str(),
                "; remote: ",
                render(remote).as_str(),
                "); run gitveil open, review, then seal",
            ),
            PairDataStatus::Differs { keys } => text::cat3(
                "differs without a baseline (keys: ",
                segment::joined(keys.as_slice(), ", ").as_str(),
                "); run gitveil open to reconcile",
            ),
            PairDataStatus::Unknown => "no baseline; run gitveil open to establish one".to_owned(),
            PairDataStatus::Conflicted => "merge conflict; run gitveil resolve".to_owned(),
            PairDataStatus::PlaintextMissing => "plaintext missing; run gitveil open".to_owned(),
            PairDataStatus::CiphertextMissing => "ciphertext missing; run gitveil seal".to_owned(),
            PairDataStatus::Missing => "neither file exists yet".to_owned(),
            PairDataStatus::Corrupt(reason) => text::cat2("corrupt: ", reason.as_str()),
        }
    }
}

#[derive(Debug, PartialEq, Eq)]
pub enum RecipientStatus {
    Aligned,
    Drift { policy: String, diff: RecipientSetDiff },
    /// Recipient metadata cannot exist when ciphertext is missing or cannot be
    /// inspected because a higher-priority pair state applies.
    NotApplicable,
}

pub enum RecipientModel {
    Aligned,
    Drift { policy: Seq<char>, diff: RecipientSetDiff },
    NotApplicable,
}

impl View for RecipientStatus {
    type V = RecipientModel;

    open spec fn view(&self) -> RecipientModel {
        match self {
            RecipientStatus::Aligned => RecipientModel::Aligned,
            RecipientStatus::Drift { policy, diff } => RecipientModel::Drift {
                policy: policy@,
                diff: *diff,
            },
            RecipientStatus::NotApplicable => RecipientModel::NotApplicable,
        }
    }
}

#[derive(Debug, PartialEq, Eq)]
pub struct PairStatus {
    data: PairDataStatus,
    recipients: RecipientStatus,
}

pub struct StatusModel {
    pub data: DataModel,
    pub recipients: RecipientModel,
}

impl View for PairStatus {
    type V = StatusModel;

    closed spec fn view(&self) -> StatusModel {
        StatusModel { data: self.data@, recipients: self.recipients@ }
    }
}

/// What drift calls for. Only the authorization commands converge it, and a removal
/// takes a fresh data key.
pub open spec fn drift_advice(diff: RecipientSetDiff) -> Seq<char> {
    if diff.removed > 0 && diff.added > 0 {
        "run gitveil recipient add and gitveil recipient remove (removal rotates the file data key)"@
    } else if diff.removed > 0 {
        "run gitveil recipient remove (rotates the file data key)"@
    } else {
        "run gitveil recipient add"@
    }
}

impl StatusModel {
    pub open spec fn clean(self) -> bool {
        self.data is Clean && self.recipients is Aligned
    }

    pub open spec fn bad(self) -> bool {
        self.data is Conflicted || self.data is Corrupt
    }

    pub open spec fn text(self) -> Seq<char> {
        match self.recipients {
            RecipientModel::Drift { policy, diff } => self.data.text()
                + "; recipient drift (policy "@ + policy + "; add "@ + segment::decimal(
                diff.added as nat,
            ) + "; remove "@ + segment::decimal(diff.removed as nat) + "); "@ + drift_advice(diff),
            _ => self.data.text(),
        }
    }
}

fn advise(diff: RecipientSetDiff) -> (r: &'static str)
    ensures
        r@ == drift_advice(diff),
{
    if diff.removed > 0 && diff.added > 0 {
        "run gitveil recipient add and gitveil recipient remove (removal rotates the file data key)"
    } else if diff.removed > 0 {
        "run gitveil recipient remove (rotates the file data key)"
    } else {
        "run gitveil recipient add"
    }
}

impl PairStatus {
    pub fn new(data: PairDataStatus, recipients: RecipientStatus) -> (r: PairStatus)
        ensures
            r@ == (StatusModel { data: data@, recipients: recipients@ }),
    {
        PairStatus { data, recipients }
    }

    pub fn is_clean(&self) -> (r: bool)
        ensures
            r == self@.clean(),
    {
        matches!(self.data, PairDataStatus::Clean) && matches!(
            self.recipients,
            RecipientStatus::Aligned
        )
    }

    pub fn is_bad(&self) -> (r: bool)
        ensures
            r == self@.bad(),
    {
        matches!(self.data, PairDataStatus::Conflicted) || matches!(
            self.data,
            PairDataStatus::Corrupt(_)
        )
    }

    pub fn describe(&self) -> (r: String)
        ensures
            r@ == self@.text(),
    {
        let data = self.data.describe();
        match &self.recipients {
            RecipientStatus::Drift { policy, diff } => {
                let head = text::cat5(
                    data.as_str(),
                    "; recipient drift (policy ",
                    policy.as_str(),
                    "; add ",
                    segment::decimal_u64(diff.added as u64).as_str(),
                );
                text::cat5(
                    head.as_str(),
                    "; remove ",
                    segment::decimal_u64(diff.removed as u64).as_str(),
                    "); ",
                    advise(*diff),
                )
            },
            _ => data,
        }
    }
}

/// The state of a pair that was recorded: each side against the record.
pub open spec fn recorded_state(
    baseline: record::RecordModel,
    local: document::DocumentModel,
    summary: cipher::CipherModel,
) -> DataModel {
    let (l, r) = (baseline.plain_diff(local), baseline.cipher_diff(summary));
    match (l.empty(), r.empty()) {
        (true, true) => DataModel::Clean,
        (false, true) => DataModel::LocalEdits(l),
        (true, false) => DataModel::Behind(r),
        (false, false) => DataModel::Diverged { local: l, remote: r },
    }
}

pub fn baseline_status(
    baseline: &BaselineRecord,
    local: &SourceDocument,
    summary: &CipherSummary,
) -> (r: PairDataStatus)
    ensures
        r@ == recorded_state(baseline@, local@, summary@),
{
    let l = baseline.diff_plain(local);
    let r = baseline.diff_cipher(summary);
    match (l.is_empty(), r.is_empty()) {
        (true, true) => PairDataStatus::Clean,
        (false, true) => PairDataStatus::LocalEdits(l),
        (true, false) => PairDataStatus::Behind(r),
        (false, false) => PairDataStatus::Diverged { local: l, remote: r },
    }
}

/// A list without elements that repeat their predecessor.
pub open spec fn deduped(list: Seq<Seq<char>>) -> Seq<Seq<char>>
    decreases list.len(),
{
    if list.len() == 0 {
        Seq::empty()
    } else if list.len() > 1 && list[list.len() - 2] == list.last() {
        deduped(list.drop_last())
    } else {
        deduped(list.drop_last()).push(list.last())
    }
}

/// The keys that one side has and the other has not.
pub open spec fn differing_keys(local: Seq<Seq<char>>, remote: Seq<Seq<char>>) -> Seq<Seq<char>> {
    deduped(lists::without(local, remote) + lists::without(remote, local))
}

pub open spec fn summary_names(summary: cipher::CipherModel) -> Seq<Seq<char>> {
    summary.units.map_values(|x: (Seq<char>, Seq<char>)| x.0)
}

/// The state of a pair without a record: only the key sets are comparable.
pub open spec fn keyless_state(local: document::DocumentModel, summary: cipher::CipherModel) -> DataModel {
    let keys = differing_keys(unit::unit_names(local), summary_names(summary));
    if keys.len() == 0 {
        DataModel::Unknown
    } else {
        DataModel::Differs { keys }
    }
}

fn push_missing(out: &mut Vec<String>, list: &Vec<String>, other: &Vec<String>)
    ensures
        text::texts(final(out)@) == text::texts(old(out)@) + lists::without(
            text::texts(list@),
            text::texts(other@),
        ),
{
    let ghost before = text::texts(out@);
    let ghost all = text::texts(list@);
    let ghost named = text::texts(other@);
    let mut i: usize = 0;
    assert(text::texts(out@) =~= before + lists::without(all.take(0), named));
    while i < list.len()
        invariant
            i <= list.len(),
            all == text::texts(list@),
            named == text::texts(other@),
            text::texts(out@) == before + lists::without(all.take(i as int), named),
        decreases list.len() - i,
    {
        assert(all.take(i + 1).drop_last() =~= all.take(i as int));
        assert(all.take(i + 1).last() == list@[i as int]@);
        if !text::contains_text(other, list[i].as_str()) {
            let ghost held = out@;
            out.push(list[i].clone());
            assert(text::texts(out@) =~= text::texts(held).push(list@[i as int]@));
            assert(text::texts(out@) =~= before + lists::without(all.take(i + 1), named));
        }
        i = i + 1;
    }
    assert(all.take(i as int) =~= all);
}

fn dedup(list: &Vec<String>) -> (r: Vec<String>)
    ensures
        text::texts(r@) == deduped(text::texts(list@)),
{
    let ghost all = text::texts(list@);
    let mut out: Vec<String> = Vec::new();
    let mut i: usize = 0;
    assert(text::texts(out@) =~= deduped(all.take(0)));
    while i < list.len()
        invariant
            i <= list.len(),
            all == text::texts(list@),
            text::texts(out@) == deduped(all.take(i as int)),
        decreases list.len() - i,
    {
        let ghost now = all.take(i + 1);
        assert(now.drop_last() =~= all.take(i as int));
        assert(now.last() == list@[i as int]@);
        assert(i > 0 ==> now[now.len() - 2] == list@[i - 1]@);
        if !(i > 0 && text::eq(list[i - 1].as_str(), list[i].as_str())) {
            let ghost held = out@;
            out.push(list[i].clone());
            assert(text::texts(out@) =~= text::texts(held).push(list@[i as int]@));
        }
        i = i + 1;
    }
    assert(all.take(i as int) =~= all);
    out
}

/// Without a baseline and without a key, only the key sets are comparable.
pub fn keyless_status(local: &SourceDocument, summary: &CipherSummary) -> (r: PairDataStatus)
    ensures
        r@ == keyless_state(local@, summary@),
{
    let own = unit::list_units(local);
    let other = summary.unit_names();
    let mut differing: Vec<String> = Vec::new();
    assert(text::texts(differing@) =~= Seq::<Seq<char>>::empty());
    push_missing(&mut differing, &own, &other);
    push_missing(&mut differing, &other, &own);
    assert(text::texts(differing@) =~= lists::without(text::texts(own@), text::texts(other@))
        + lists::without(text::texts(other@), text::texts(own@)));
    let keys = dedup(&differing);
    assert(text::texts(keys@).len() == keys@.len());
    if keys.len() == 0 {
        PairDataStatus::Unknown
    } else {
        PairDataStatus::Differs { keys }
    }
}

pub open spec fn unapplicable(data: DataModel) -> StatusModel {
    StatusModel { data, recipients: RecipientModel::NotApplicable }
}

pub open spec fn recipient_state(policy: PolicyModel, recipients: Seq<Seq<char>>) -> RecipientModel {
    if step::aligned(policy, recipients) {
        RecipientModel::Aligned
    } else {
        RecipientModel::Drift { policy: policy.name, diff: step::drift_of(policy, recipients) }
    }
}

/// The state of the data of a pair whose ciphertext can be read.
pub open spec fn data_state(
    path: Seq<char>,
    format: SourceFormat,
    envelope: ciphertext::CiphertextModel,
    plaintext: Option<Seq<u8>>,
    raws: Result<Seq<node::Tree>, Seq<char>>,
    baseline: Option<record::RecordModel>,
) -> DataModel {
    match plaintext {
        None => DataModel::PlaintextMissing,
        Some(input) => match crate::source::format::parsed(format, input, raws) {
            Err(document::SourceFault::ConflictMarkers { .. }) => DataModel::Conflicted,
            Err(fault) => DataModel::Corrupt(path + ": "@ + fault.text()),
            Ok(local) => match baseline {
                Some(b) => recorded_state(b, local, cipher::summary_of(envelope)),
                None => keyless_state(local, cipher::summary_of(envelope)),
            },
        },
    }
}

/// The state of a pair.
pub open spec fn pair_state(
    path: Seq<char>,
    format: SourceFormat,
    policy: PolicyModel,
    plaintext: Option<Seq<u8>>,
    raws: Result<Seq<node::Tree>, Seq<char>>,
    encrypted: Option<Seq<u8>>,
    unmerged: bool,
    baseline: Option<record::RecordModel>,
) -> StatusModel {
    match encrypted {
        None => if plaintext is Some {
            unapplicable(DataModel::CiphertextMissing)
        } else {
            unapplicable(DataModel::Missing)
        },
        Some(input) => if pair::conflicted(input) || unmerged {
            unapplicable(DataModel::Conflicted)
        } else {
            match ciphertext::ciphertext_bytes(input, format) {
                Err(fault) => unapplicable(
                    DataModel::Corrupt(path + path::ciphertext_suffix() + ": "@ + fault.text()),
                ),
                Ok(envelope) => StatusModel {
                    data: data_state(path, format, envelope, plaintext, raws, baseline),
                    recipients: recipient_state(policy, envelope.recipients),
                },
            }
        },
    }
}

fn not_applicable(data: PairDataStatus) -> (r: PairStatus)
    ensures
        r@ == unapplicable(data@),
{
    PairStatus::new(data, RecipientStatus::NotApplicable)
}

/// Reports on a pair. `raws` is what a deserializer made of the plaintext.
pub fn status_entry(
    entry: &ResolvedManifestEntry,
    plaintext: Option<&[u8]>,
    raws: Result<Vec<StrictNode>, String>,
    encrypted: Option<&[u8]>,
    unmerged: bool,
    baseline: Option<&BaselineRecord>,
) -> (r: PairStatus)
    ensures
        r@ == pair_state(
            entry@.0.path,
            entry@.0.format,
            entry@.1,
            step::view_input(plaintext),
            yaml::view_raws(raws),
            step::view_input(encrypted),
            unmerged,
            plan::view_baseline(baseline),
        ),
{
    let input = match encrypted {
        Some(input) => input,
        None => {
            if plaintext.is_some() {
                return not_applicable(PairDataStatus::CiphertextMissing);
            }
            return not_applicable(PairDataStatus::Missing);
        },
    };
    if pair::ciphertext_has_conflict_markers(input) || unmerged {
        return not_applicable(PairDataStatus::Conflicted);
    }
    let envelope = match CiphertextEnvelope::parse(input, entry.format()) {
        Ok(envelope) => envelope,
        Err(error) => {
            let cipher_path = entry.ciphertext_path();
            return not_applicable(
                PairDataStatus::Corrupt(
                    text::cat3(cipher_path.as_str(), ": ", error.message().as_str()),
                ),
            );
        },
    };
    let policy = entry.recipient_policy();
    let diff = policy.diff(envelope.age_recipients());
    let recipients = if diff.is_empty() {
        RecipientStatus::Aligned
    } else {
        RecipientStatus::Drift { policy: policy.name().as_str().to_owned(), diff }
    };
    let bytes = match plaintext {
        Some(bytes) => bytes,
        None => {
            return PairStatus::new(PairDataStatus::PlaintextMissing, recipients);
        },
    };
    let local = match crate::source::parse(entry.format(), bytes, raws) {
        Ok(local) => local,
        Err(SourceError::ConflictMarkers { .. }) => {
            return PairStatus::new(PairDataStatus::Conflicted, recipients);
        },
        Err(error) => {
            return PairStatus::new(
                PairDataStatus::Corrupt(
                    text::cat3(entry.path().as_str(), ": ", error.message().as_str()),
                ),
                recipients,
            );
        },
    };
    let summary = CipherSummary::from_envelope(&envelope);
    let data = match baseline {
        Some(baseline) => baseline_status(baseline, &local, &summary),
        None => keyless_status(&local, &summary),
    };
    PairStatus::new(data, recipients)
}

/// Law: a pair is clean only where its recipients agree with the policy and neither
/// side differs from the record of the last sync.
pub proof fn law_clean_pairs_are_in_sync(
    path: Seq<char>,
    format: SourceFormat,
    policy: PolicyModel,
    plaintext: Option<Seq<u8>>,
    raws: Result<Seq<node::Tree>, Seq<char>>,
    encrypted: Option<Seq<u8>>,
    unmerged: bool,
    baseline: Option<record::RecordModel>,
)
    requires
        pair_state(
            path,
            format,
            policy,
            plaintext,
            raws,
            encrypted,
            unmerged,
            baseline,
        ).clean(),
    ensures
        plaintext is Some,
        encrypted is Some,
        !unmerged,
        !pair::conflicted(encrypted->Some_0),
        baseline is Some,
        ciphertext::ciphertext_bytes(encrypted->Some_0, format) matches Ok(envelope)
            && step::aligned(policy, envelope.recipients) && baseline->Some_0.cipher_diff(
            cipher::summary_of(envelope),
        ).empty(),
        crate::source::format::parsed(format, plaintext->Some_0, raws) matches Ok(local)
            && baseline->Some_0.plain_diff(local).empty(),
{
}

/// A document differs from another in a unit or in its residual layout.
pub open spec fn edited(base: document::DocumentModel, d: document::DocumentModel) -> bool {
    unit::residual(base) != unit::residual(d) || exists|key: Seq<char>|
        #[trigger] unit::unit_at(base, key) != unit::unit_at(d, key)
}

/// Law: against the record of the last sync, a pair is clean where neither side changed; it
/// has local edits where the plaintext changed, and is behind where the ciphertext did, with
/// what changed on that side; and where both did it diverged, its local part naming exactly
/// the units of the plaintext that differ from the recorded document, and its remote part
/// exactly the units of the ciphertext that differ from the recorded ciphertext. The record
/// must tell changed units apart.
pub proof fn law_status_tells_which_side_changed(
    base: document::DocumentModel,
    c: cipher::CipherModel,
    salt: Seq<u8>,
    local: document::DocumentModel,
    summary: cipher::CipherModel,
)
    requires
        record::told_apart(record::captured(base, c, salt), base, local),
        text_map::ordered(c.units),
        text_map::ordered(summary.units),
        difference::fingerprints_apart(salt, c, summary),
    ensures
        ({
            let state = recorded_state(record::captured(base, c, salt), local, summary);
            &&& state is Clean <==> !edited(base, local) && c == summary
            &&& state is LocalEdits <==> edited(base, local) && c == summary
            &&& state is Behind <==> !edited(base, local) && c != summary
            &&& state is Diverged <==> edited(base, local) && c != summary
            &&& state matches DataModel::LocalEdits(l) ==> difference::names_units(l, base, local)
            &&& state matches DataModel::Behind(r) ==> difference::names_fingerprints(r, c, summary)
            &&& state matches DataModel::Diverged { local: l, remote: r } ==> (
            difference::names_units(l, base, local) && difference::names_fingerprints(
                r,
                c,
                summary,
            ))
        }),
{
    let b = record::captured(base, c, salt);
    difference::lemma_names_units(base, c, salt, local);
    difference::lemma_no_unit_named(b.plain_diff(local), base, local);
    difference::law_cipher_difference(base, base, c, summary, salt);
    difference::law_cipher_difference_names_the_units(base, c, summary, salt);
}

/// Law: of a pair that diverged, the local part depends on the plaintext alone and the
/// remote part on the ciphertext alone; each is what is reported where only that side
/// changed.
pub proof fn law_each_side_is_reported_by_itself(
    baseline: record::RecordModel,
    local: document::DocumentModel,
    summary: cipher::CipherModel,
    synced_local: document::DocumentModel,
    synced_summary: cipher::CipherModel,
)
    requires
        recorded_state(baseline, synced_local, synced_summary) is Clean,
    ensures
        ({
            let state = recorded_state(baseline, local, summary);
            let only_local = recorded_state(baseline, local, synced_summary);
            let only_remote = recorded_state(baseline, synced_local, summary);
            &&& only_local is Clean || only_local is LocalEdits
            &&& only_remote is Clean || only_remote is Behind
            &&& state == match (only_local, only_remote) {
                (DataModel::LocalEdits(l), DataModel::Behind(r)) => DataModel::Diverged {
                    local: l,
                    remote: r,
                },
                (DataModel::LocalEdits(l), _) => DataModel::LocalEdits(l),
                (_, DataModel::Behind(r)) => DataModel::Behind(r),
                _ => DataModel::Clean,
            }
        }),
{
}

proof fn lemma_deduped(list: Seq<Seq<char>>, key: Seq<char>)
    ensures
        deduped(list).contains(key) <==> list.contains(key),
        list.len() > 0 ==> deduped(list).len() > 0 && deduped(list).last() == list.last(),
    decreases list.len(),
{
    if list.len() > 0 {
        let head = list.drop_last();
        lemma_deduped(head, key);
        assert(list =~= head.push(list.last()));
        let kept = deduped(head).push(list.last());
        if head.contains(key) {
            let i = choose|i: int| 0 <= i < head.len() && head[i] == key;
            assert(list[i] == key);
        }
        if deduped(head).contains(key) {
            let i = choose|i: int| 0 <= i < deduped(head).len() && deduped(head)[i] == key;
            assert(kept[i] == key);
        }
        if list.contains(key) && key != list.last() {
            let i = choose|i: int| 0 <= i < list.len() && list[i] == key;
            assert(head[i] == key);
        }
        if key == list.last() {
            assert(kept[kept.len() - 1] == key);
            assert(list[list.len() - 1] == key);
            if list.len() > 1 && list[list.len() - 2] == list.last() {
                assert(head[head.len() - 1] == key);
            }
        }
        if kept.contains(key) && key != list.last() {
            let i = choose|i: int| 0 <= i < kept.len() && kept[i] == key;
            assert(deduped(head)[i] == key);
        }
    }
}

proof fn lemma_without(list: Seq<Seq<char>>, other: Seq<Seq<char>>, key: Seq<char>)
    ensures
        lists::without(list, other).contains(key) <==> list.contains(key) && !other.contains(key),
    decreases list.len(),
{
    if list.len() > 0 {
        let head = list.drop_last();
        let kept = lists::without(head, other);
        lemma_without(head, other, key);
        if head.contains(key) {
            let i = choose|i: int| 0 <= i < head.len() && head[i] == key;
            assert(list[i] == key);
        }
        if list.contains(key) && key != list.last() {
            let i = choose|i: int| 0 <= i < list.len() && list[i] == key;
            assert(head[i] == key);
        }
        if key == list.last() {
            assert(list[list.len() - 1] == key);
            assert(kept.push(key)[kept.len() as int] == key);
        }
        let more = kept.push(list.last());
        if kept.contains(key) {
            let i = choose|i: int| 0 <= i < kept.len() && kept[i] == key;
            assert(more[i] == key);
        }
        if more.contains(key) && key != list.last() {
            let i = choose|i: int| 0 <= i < more.len() && more[i] == key;
            assert(kept[i] == key);
        }
    }
}

/// The name of an encrypted unit.
pub open spec fn encrypted_unit(summary: cipher::CipherModel, key: Seq<char>) -> bool {
    exists|i: int| 0 <= i < summary.units.len() && (#[trigger] summary.units[i]).0 == key
}

/// Law: without a record, a pair differs exactly where some key is on one side only, and
/// the keys that are named are those; otherwise nothing is known.
pub proof fn law_keyless_status_names_the_keys(
    local: document::DocumentModel,
    summary: cipher::CipherModel,
    key: Seq<char>,
)
    ensures
        match keyless_state(local, summary) {
            DataModel::Unknown => unit::unit_names(local).contains(key) <==> encrypted_unit(
                summary,
                key,
            ),
            DataModel::Differs { keys } => keys.len() > 0 && (keys.contains(key) <==> (
            unit::unit_names(local).contains(key) <==> !encrypted_unit(summary, key))),
            _ => false,
        },
{
    let (own, other) = (unit::unit_names(local), summary_names(summary));
    let (a, b) = (lists::without(own, other), lists::without(other, own));
    lemma_without(own, other, key);
    lemma_without(other, own, key);
    lemma_deduped(a + b, key);
    if a.contains(key) {
        let i = choose|i: int| 0 <= i < a.len() && a[i] == key;
        assert((a + b)[i] == key);
    }
    if b.contains(key) {
        let i = choose|i: int| 0 <= i < b.len() && b[i] == key;
        assert((a + b)[a.len() + i] == key);
    }
    if (a + b).contains(key) {
        let i = choose|i: int| 0 <= i < (a + b).len() && (a + b)[i] == key;
        if i < a.len() {
            assert(a[i] == key);
        } else {
            assert(b[i - a.len()] == key);
        }
    }
    if encrypted_unit(summary, key) {
        let i = choose|i: int| 0 <= i < summary.units.len() && (#[trigger] summary.units[i]).0 == key;
        assert(other[i] == key);
    }
    if other.contains(key) {
        let i = choose|i: int| 0 <= i < other.len() && other[i] == key;
        assert(summary.units[i].0 == key);
    }
}

/// Law: each state of a pair is reported where it holds, and only there. What is missing is
/// told first, then a merge that was left in conflict, then a ciphertext that is no
/// envelope of the declared format; only then are the recipients and the data looked at.
pub proof fn law_status_says_what_is_there(
    path: Seq<char>,
    format: SourceFormat,
    policy: PolicyModel,
    plaintext: Option<Seq<u8>>,
    raws: Result<Seq<node::Tree>, Seq<char>>,
    encrypted: Option<Seq<u8>>,
    unmerged: bool,
    baseline: Option<record::RecordModel>,
)
    ensures
        ({
            let s = pair_state(
                path,
                format,
                policy,
                plaintext,
                raws,
                encrypted,
                unmerged,
                baseline,
            );
            let merging = encrypted is Some && (unmerged || pair::conflicted(encrypted->Some_0));
            let readable = encrypted is Some && !merging && ciphertext::ciphertext_bytes(
                encrypted->Some_0,
                format,
            ) is Ok;
            let envelope = ciphertext::ciphertext_bytes(encrypted->Some_0, format)->Ok_0;
            let read = crate::source::format::parsed(format, plaintext->Some_0, raws);
            &&& s.data is Missing <==> plaintext is None && encrypted is None
            &&& s.data is CiphertextMissing <==> plaintext is Some && encrypted is None
            &&& s.data is PlaintextMissing <==> plaintext is None && readable
            &&& s.data is Conflicted <==> merging || (readable && plaintext is Some
                && read matches Err(document::SourceFault::ConflictMarkers { .. }))
            &&& s.data is Corrupt <==> (encrypted is Some && !merging && !readable) || (readable
                && plaintext is Some && read is Err
                && !(read matches Err(document::SourceFault::ConflictMarkers { .. })))
            &&& readable && plaintext is Some && read is Ok ==> s.data == match baseline {
                Some(b) => recorded_state(b, read->Ok_0, cipher::summary_of(envelope)),
                None => keyless_state(read->Ok_0, cipher::summary_of(envelope)),
            }
            &&& s.recipients is NotApplicable <==> !readable
            &&& s.recipients is Aligned <==> readable && forall|name: Seq<char>|
                #[trigger] envelope.recipients.contains(name) <==> policy.recipients.contains(name)
            &&& s.recipients matches RecipientModel::Drift { policy: name, diff } ==> name
                == policy.name && diff.added == policy.recipients.to_set().difference(
                envelope.recipients.to_set(),
            ).len() as usize && diff.removed == envelope.recipients.to_set().difference(
                policy.recipients.to_set(),
            ).len() as usize
        }),
{
    if encrypted is Some && ciphertext::ciphertext_bytes(encrypted->Some_0, format) is Ok {
        history::law_aligned_sets_have_the_same_names(
            policy,
            ciphertext::ciphertext_bytes(encrypted->Some_0, format)->Ok_0.recipients,
        );
    }
}

/// Law: a pair needs nothing exactly where its data and its recipients are as they should
/// be, and is bad exactly where a side cannot be read or a merge was left in conflict.
pub proof fn law_clean_and_bad_states(s: StatusModel)
    ensures
        s.clean() <==> s.data == DataModel::Clean && s.recipients == RecipientModel::Aligned,
        s.bad() <==> s.data is Conflicted || s.data is Corrupt,
        !(s.clean() && s.bad()),
{
}

proof fn lemma_held_within(whole: Seq<char>, part: Seq<char>, inner: Seq<char>)
    requires
        text::contains(whole, part),
        text::contains(part, inner),
    ensures
        text::contains(whole, inner),
{
    let i = choose|i: int| text::occurs_at(whole, part, i);
    let j = choose|j: int| text::occurs_at(part, inner, j);
    assert(whole.subrange(i + j, i + j + inner.len()) =~= whole.subrange(
        i,
        i + part.len(),
    ).subrange(j, j + inner.len()));
    assert(text::occurs_at(whole, inner, i + j));
}

proof fn lemma_part_is_shown(d: record::DiffModel, label: Seq<char>, keys: Seq<Seq<char>>, k: int)
    requires
        0 <= k < diff_parts(d).len(),
        diff_parts(d)[k] == label + segment::join(keys, ", "@),
    ensures
        forall|key: Seq<char>|
            #[trigger] keys.contains(key) ==> text::contains(diff_text(d), key),
{
    let part = diff_parts(d)[k];
    let list = segment::join(keys, ", "@);
    segment::law_joined_pieces_are_there(diff_parts(d), "; "@, k);
    assert(part.subrange(label.len() as int, label.len() + list.len() as int) =~= list);
    assert(text::occurs_at(part, list, label.len() as int));
    lemma_held_within(diff_text(d), part, list);
    assert forall|key: Seq<char>| #[trigger] keys.contains(key) implies text::contains(
        diff_text(d),
        key,
    ) by {
        let i = choose|i: int| 0 <= i < keys.len() && keys[i] == key;
        segment::law_joined_pieces_are_there(keys, ", "@, i);
        lemma_held_within(diff_text(d), list, key);
    }
}

/// Law: every key of a difference is named in its text.
pub proof fn law_every_changed_key_is_shown(d: record::DiffModel, key: Seq<char>)
    requires
        d.changed.contains(key) || d.added.contains(key) || d.removed.contains(key),
    ensures
        text::contains(diff_text(d), key),
{
    let parts = diff_parts(d);
    let first = if d.changed.len() == 0 {
        0int
    } else {
        1
    };
    let second = if d.added.len() == 0 {
        first
    } else {
        first + 1
    };
    if d.changed.contains(key) {
        assert(parts[0] == "changed "@ + segment::join(d.changed, ", "@));
        lemma_part_is_shown(d, "changed "@, d.changed, 0);
    } else if d.added.contains(key) {
        assert(parts[first] == "added "@ + segment::join(d.added, ", "@));
        lemma_part_is_shown(d, "added "@, d.added, first);
    } else {
        assert(parts[second] == "removed "@ + segment::join(d.removed, ", "@));
        lemma_part_is_shown(d, "removed "@, d.removed, second);
    }
}

} // verus!
