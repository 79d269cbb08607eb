//! The merge of three documents, and the document that shows a conflict.

use vstd::prelude::*;
use vstd::string::StrSliceExecFns;

use crate::bytes;
use crate::config::SourceFormat;
use crate::error::SecretBytes;
use crate::segment;
use crate::semantic::merge;
use crate::semantic::merge::MergeResult;
use crate::source::document;
use crate::source::layout;
use crate::source::node;
use crate::source::{Layout, NodePath, SourceDocument, SourceError};

verus! {

pub enum MergePlan {
    Merged(SourceDocument),
    Conflict { path: NodePath, document: SecretBytes },
}

pub enum MergePlanModel {
    Merged(document::DocumentModel),
    Conflict { path: Seq<node::Step>, document: Seq<u8> },
}

impl View for MergePlan {
    type V = MergePlanModel;

    open spec fn view(&self) -> MergePlanModel {
        match self {
            MergePlan::Merged(d) => MergePlanModel::Merged(d@),
            MergePlan::Conflict { path, document } => MergePlanModel::Conflict {
                path: path@,
                document: document@,
            },
        }
    }
}

/// A byte some times over.
pub open spec fn repeated(b: u8, n: nat) -> Seq<u8> {
    Seq::new(n, |i: int| b)
}

/// Bytes with a line feed at their end.
pub open spec fn ended(s: Seq<u8>) -> Seq<u8> {
    if s.len() > 0 && s.last() == 10 {
        s
    } else {
        s.push(10)
    }
}

/// Two sides between conflict markers.
pub open spec fn conflict_bytes(ours: Seq<u8>, theirs: Seq<u8>, size: nat) -> Seq<u8> {
    repeated(60, size) + bytes::bytes_of(" ours\n"@) + ended(ours) + repeated(61, size) + seq![
        10u8,
    ] + ended(theirs) + repeated(62, size) + bytes::bytes_of(" theirs\n"@)
}

/// The document that shows both sides of a conflict.
pub open spec fn conflict_document(
    ours: document::DocumentModel,
    theirs: document::DocumentModel,
    size: nat,
) -> Result<Seq<u8>, document::SourceFault> {
    match crate::source::format::generated(ours) {
        Err(fault) => Err(fault),
        Ok(o) => match crate::source::format::generated(theirs) {
            Err(fault) => Err(fault),
            Ok(t) => Ok(conflict_bytes(o, t, size)),
        },
    }
}

pub open spec fn conflict_plan(
    path: Seq<node::Step>,
    ours: document::DocumentModel,
    theirs: document::DocumentModel,
    size: nat,
) -> Result<MergePlanModel, document::SourceFault> {
    match conflict_document(ours, theirs, size) {
        Ok(document) => Ok(MergePlanModel::Conflict { path, document }),
        Err(fault) => Err(fault),
    }
}

/// The plan for three documents: their merge where values and layout merge, or else a
/// conflict at its first place.
pub open spec fn planned(
    base: document::DocumentModel,
    ours: document::DocumentModel,
    theirs: document::DocumentModel,
    size: nat,
) -> Result<MergePlanModel, document::SourceFault> {
    let outcome = merge::merge_trees(base.root, ours.root, theirs.root);
    if outcome.conflicts.len() > 0 {
        conflict_plan(outcome.conflicts[0], ours, theirs, size)
    } else {
        match layout::merged_layout(base.layout, ours.layout, theirs.layout) {
            Some(layout) => Ok(
                MergePlanModel::Merged(
                    document::DocumentModel {
                        format: ours.format,
                        root: outcome.value->Some_0,
                        layout,
                    },
                ),
            ),
            None => conflict_plan(Seq::empty(), ours, theirs, size),
        }
    }
}

pub open spec fn view_plan(r: Result<MergePlan, SourceError>) -> Result<
    MergePlanModel,
    document::SourceFault,
> {
    match r {
        Ok(plan) => Ok(plan@),
        Err(e) => Err(e@),
    }
}

fn push_repeated(out: &mut Vec<u8>, b: u8, n: usize)
    ensures
        final(out)@ == old(out)@ + repeated(b, n as nat),
{
    let ghost before = out@;
    let mut i: usize = 0;
    assert(out@ =~= before + repeated(b, 0));
    while i < n
        invariant
            i <= n,
            out@ == before + repeated(b, i as nat),
        decreases n - i,
    {
        out.push(b);
        assert(out@ =~= before + repeated(b, (i + 1) as nat));
        i = i + 1;
    }
}

fn push_ended(out: &mut Vec<u8>, s: &[u8])
    ensures
        final(out)@ == old(out)@ + ended(s@),
{
    let ghost before = out@;
    let mut copy = bytes::copy(s, 0, s.len());
    assert(copy@ =~= s@);
    out.append(&mut copy);
    if !(s.len() > 0 && s[s.len() - 1] == 10) {
        out.push(10);
    }
    assert(out@ =~= before + ended(s@));
}

fn push_text(out: &mut Vec<u8>, s: &str)
    ensures
        final(out)@ == old(out)@ + bytes::bytes_of(s@),
{
    let mut copy = s.as_bytes_vec();
    out.append(&mut copy);
}

/// Builds the document that shows both sides of a conflict.
pub fn build_conflict(ours: &SourceDocument, theirs: &SourceDocument, marker_size: usize) -> (r:
    Result<SecretBytes, SourceError>)
    requires
        node::named_tags(ours@.root),
        node::named_tags(theirs@.root),
    ensures
        match conflict_document(ours@, theirs@, marker_size as nat) {
            Ok(bytes) => r matches Ok(s) && s@ == bytes,
            Err(fault) => r matches Err(e) && e@ == fault,
        },
{
    let ours = match ours.generate() {
        Ok(bytes) => SecretBytes::new(bytes),
        Err(error) => {
            return Err(error);
        },
    };
    let theirs = match theirs.generate() {
        Ok(bytes) => SecretBytes::new(bytes),
        Err(error) => {
            return Err(error);
        },
    };
    let mut out: Vec<u8> = Vec::new();
    push_repeated(&mut out, 60, marker_size);
    push_text(&mut out, " ours\n");
    push_ended(&mut out, ours.as_slice());
    push_repeated(&mut out, 61, marker_size);
    let ghost before = out@;
    out.push(10);
    assert(out@ =~= before + seq![10u8]);
    push_ended(&mut out, theirs.as_slice());
    push_repeated(&mut out, 62, marker_size);
    push_text(&mut out, " theirs\n");
    assert(out@ =~= conflict_bytes(ours@, theirs@, marker_size as nat));
    Ok(SecretBytes::new(out))
}

fn conflict(path: NodePath, ours: &SourceDocument, theirs: &SourceDocument, marker_size: usize) -> (r:
    Result<MergePlan, SourceError>)
    requires
        node::named_tags(ours@.root),
        node::named_tags(theirs@.root),
    ensures
        view_plan(r) == conflict_plan(path@, ours@, theirs@, marker_size as nat),
{
    match build_conflict(ours, theirs, marker_size) {
        Ok(document) => Ok(MergePlan::Conflict { path, document }),
        Err(error) => Err(error),
    }
}

/// Merges two documents that both stem from a base.
pub fn plan_merge(
    base: &SourceDocument,
    ours: &SourceDocument,
    theirs: &SourceDocument,
    marker_size: usize,
) -> (r: Result<MergePlan, SourceError>)
    requires
        node::named_tags(ours@.root),
        node::named_tags(theirs@.root),
    ensures
        view_plan(r) == planned(base@, ours@, theirs@, marker_size as nat),
        r matches Ok(MergePlan::Merged(d)) ==> node::named_tags(d@.root),
{
    let merged_layout = Layout::merge_three_way(base.layout(), ours.layout(), theirs.layout());
    let ghost outcome = merge::merge_trees(base@.root, ours@.root, theirs@.root);
    let (base_root, ours_root, theirs_root) = (base.root(), ours.root(), theirs.root());
    match merge::merge(base_root, ours_root, theirs_root) {
        MergeResult::Merged(root) => {
            proof {
                merge::lemma_merge_is_sound(
                    Seq::empty(),
                    base@.root,
                    Some(ours@.root),
                    Some(theirs@.root),
                );
            }
            match merged_layout {
                Some(layout) => Ok(
                    MergePlan::Merged(SourceDocument::new(ours.format(), root, layout)),
                ),
                None => conflict(NodePath::root(), ours, theirs, marker_size),
            }
        },
        MergeResult::Conflict(list) => {
            assert(merge::places(list@)[0] == list@[0]@);
            let path = list[0].path().clone();
            conflict(path, ours, theirs, marker_size)
        },
    }
}

/// Law: where one side changed nothing, the merge is the other side, and sides that
/// agree merge into what they agree on.
pub proof fn law_merge_takes_the_only_change(
    base: document::DocumentModel,
    other: document::DocumentModel,
    size: nat,
)
    requires
        base.format == other.format,
    ensures
        planned(base, base, other, size) == Ok::<MergePlanModel, document::SourceFault>(
            MergePlanModel::Merged(other),
        ),
        planned(base, other, base, size) == Ok::<MergePlanModel, document::SourceFault>(
            MergePlanModel::Merged(other),
        ),
        planned(base, other, other, size) == Ok::<MergePlanModel, document::SourceFault>(
            MergePlanModel::Merged(other),
        ),
{
    merge::law_merge_keeps_the_only_change(base.root, other.root);
}

proof fn lemma_encode_concat(a: Seq<char>, b: Seq<char>)
    ensures
        vstd::utf8::encode_utf8(a + b) == vstd::utf8::encode_utf8(a) + vstd::utf8::encode_utf8(b),
    decreases a.len(),
{
    if a.len() == 0 {
        assert(a + b =~= b);
        assert(vstd::utf8::encode_utf8(a) =~= Seq::<u8>::empty());
        assert(vstd::utf8::encode_utf8(a) + vstd::utf8::encode_utf8(b) =~= vstd::utf8::encode_utf8(
            b,
        ));
    } else {
        assert((a + b)[0] == a[0]);
        assert((a + b).drop_first() =~= a.drop_first() + b);
        lemma_encode_concat(a.drop_first(), b);
        assert(vstd::utf8::encode_utf8(a + b) =~= vstd::utf8::encode_utf8(a)
            + vstd::utf8::encode_utf8(b));
    }
}

/// Bytes of ASCII are the encoding of their characters.
proof fn lemma_repeated_is_text(b: u8, c: char, n: nat)
    requires
        b == c as u8,
        c <= '\u{7f}',
    ensures
        repeated(b, n) == vstd::utf8::encode_utf8(Seq::new(n, |i: int| c)),
{
    let s = Seq::new(n, |i: int| c);
    assert(vstd::utf8::is_ascii_chars(s));
    vstd::utf8::is_ascii_chars_encode_utf8(s);
    assert forall|i: int| 0 <= i < n implies repeated(b, n)[i] == vstd::utf8::encode_utf8(s)[i] by {
        assert(s[i] as u8 == vstd::utf8::encode_utf8(s)[i]);
    }
    assert(repeated(b, n) =~= vstd::utf8::encode_utf8(s));
}

proof fn lemma_ended_is_valid(s: Seq<u8>)
    requires
        vstd::utf8::valid_utf8(s),
    ensures
        vstd::utf8::valid_utf8(ended(s)),
{
    lemma_repeated_is_text(10, '\n', 1);
    vstd::utf8::encode_utf8_valid_utf8(Seq::new(1, |i: int| '\n'));
    vstd::utf8::valid_utf8_concat(s, repeated(10, 1));
    assert(s.push(10) =~= s + repeated(10, 1));
}

/// The bytes of a document are text.
pub proof fn lemma_generated_is_text(d: document::DocumentModel)
    requires
        crate::source::format::generated(d) is Ok,
    ensures
        vstd::utf8::valid_utf8(crate::source::format::generated(d)->Ok_0),
{
    broadcast use vstd::utf8::encode_utf8_valid_utf8;

}

/// Law: a document that shows a conflict is never read as a source document, so an
/// unresolved conflict cannot be sealed. It holds for markers of the size that Git
/// uses.
pub proof fn law_conflict_document_is_refused(
    ours: document::DocumentModel,
    theirs: document::DocumentModel,
    format: SourceFormat,
)
    requires
        conflict_document(ours, theirs, 7) is Ok,
    ensures
        crate::source::format::text_of(format, conflict_document(ours, theirs, 7)->Ok_0) == Err::<
            Seq<char>,
            document::SourceFault,
        >(document::SourceFault::ConflictMarkers { format }),
{
    let o = crate::source::format::generated(ours)->Ok_0;
    let t = crate::source::format::generated(theirs)->Ok_0;
    let bytes = conflict_bytes(o, t, 7);
    lemma_generated_is_text(ours);
    lemma_generated_is_text(theirs);
    lemma_ended_is_valid(o);
    lemma_ended_is_valid(t);
    lemma_repeated_is_text(60, '<', 7);
    lemma_repeated_is_text(61, '=', 7);
    lemma_repeated_is_text(62, '>', 7);
    lemma_repeated_is_text(10, '\n', 1);
    assert(seq![10u8] =~= repeated(10, 1));
    let marker = Seq::new(7, |i: int| '<');
    vstd::utf8::encode_utf8_valid_utf8(Seq::new(7, |i: int| '='));
    vstd::utf8::encode_utf8_valid_utf8(Seq::new(7, |i: int| '>'));
    vstd::utf8::encode_utf8_valid_utf8(Seq::new(1, |i: int| '\n'));
    vstd::utf8::encode_utf8_valid_utf8(" theirs\n"@);
    let p1 = ended(o) + repeated(61, 7);
    vstd::utf8::valid_utf8_concat(ended(o), repeated(61, 7));
    let p2 = p1 + seq![10u8];
    vstd::utf8::valid_utf8_concat(p1, seq![10u8]);
    let p3 = p2 + ended(t);
    vstd::utf8::valid_utf8_concat(p2, ended(t));
    let p4 = p3 + repeated(62, 7);
    vstd::utf8::valid_utf8_concat(p3, repeated(62, 7));
    let rest = p4 + bytes::bytes_of(" theirs\n"@);
    vstd::utf8::valid_utf8_concat(p4, bytes::bytes_of(" theirs\n"@));
    let head = marker + " ours\n"@;
    lemma_encode_concat(marker, " ours\n"@);
    assert(bytes =~= vstd::utf8::encode_utf8(head) + rest);
    let tail = vstd::utf8::decode_utf8(rest);
    vstd::utf8::decode_utf8_encode_utf8(rest);
    lemma_encode_concat(head, tail);
    let whole = head + tail;
    assert(bytes == vstd::utf8::encode_utf8(whole));
    vstd::utf8::encode_utf8_valid_utf8(whole);
    vstd::utf8::encode_utf8_decode_utf8(whole);
    reveal_strlit(" ours\n");
    reveal_strlit("<<<<<<< ");
    assert(head.len() == 13);
    assert(whole[12] == '\n');
    assert forall|j: int| 0 <= j < 12 implies whole[j] != '\n' by {
        assert(whole[j] == head[j]);
    }
    segment::lemma_before_is(whole, '\n', 12);
    let line = whole.take(12);
    assert(line.last() == 's');
    assert(segment::lines(whole)[0] == line);
    assert(line.subrange(0, 8) =~= "<<<<<<< "@);
    let lead = |c: char| crate::source::format::marker_lead(c);
    assert(segment::trim_start_by(line, lead) == line);
    assert(crate::source::format::marker_line(segment::lines(whole)[0]));
}

} // verus!
