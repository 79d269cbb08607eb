//! Reading and writing documents of any format.

use vstd::prelude::*;

use crate::codec::toml_codec;
use crate::codec::yaml_syntax;
use crate::config::SourceFormat;
use crate::segment;
use crate::source::document;
use crate::source::document::{SourceDocument, SourceError};
use crate::source::dotenv;
use crate::source::json;
use crate::source::node;
use crate::source::strict;
use crate::source::strict::StrictNode;
use crate::source::toml_format;
use crate::source::yaml;
use crate::text;

verus! {

/// A character that may stand before a conflict marker.
pub open spec fn marker_lead(c: char) -> bool {
    c == ' ' || c == '\t' || c == '#' || c == '/' || c == ';'
}

/// A line that Git leaves in a file with an unresolved conflict, also behind a
/// comment sign.
pub open spec fn marker_line(line: Seq<char>) -> bool {
    let s = segment::trim_start_by(line, |c: char| marker_lead(c));
    text::starts_with(s, "<<<<<<< "@) || s == "======="@ || text::starts_with(s, ">>>>>>> "@)
}

/// A text with an unresolved conflict.
pub open spec fn has_markers(s: Seq<char>) -> bool {
    exists|i: int|
        0 <= i < segment::lines(s).len() && marker_line(#[trigger] segment::lines(s)[i])
}

fn is_marker_line(line: &Vec<char>) -> (r: bool)
    ensures
        r == marker_line(line@),
{
    let ghost p = |c: char| marker_lead(c);
    let mut i: usize = 0;
    assert(line@.skip(0) =~= line@);
    while i < line.len() && (line[i] == ' ' || line[i] == '\t' || line[i] == '#' || line[i] == '/'
        || line[i] == ';')
        invariant
            i <= line.len(),
            p == (|c: char| marker_lead(c)),
            segment::trim_start_by(line@.skip(i as int), p) == segment::trim_start_by(line@, p),
        decreases line.len() - i,
    {
        assert(p(line@[i as int]));
        assert(line@.skip(i as int).skip(1) =~= line@.skip(i + 1));
        i = i + 1;
    }
    proof {
        if i < line@.len() {
            assert(line@.skip(i as int)[0] == line@[i as int]);
            assert(!p(line@[i as int]));
        }
    }
    let s = segment::slice_to_vec(line.as_slice(), i, line.len());
    text::begins(s.as_slice(), text::chars_of("<<<<<<< ").as_slice()) || text::eq_chars(
        s.as_slice(),
        text::chars_of("=======").as_slice(),
    ) || text::begins(s.as_slice(), text::chars_of(">>>>>>> ").as_slice())
}

/// Whether a text has an unresolved conflict.
pub fn has_conflict_markers(input: &str) -> (r: bool)
    ensures
        r == has_markers(input@),
{
    let lines = segment::split_lines(text::chars_of(input).as_slice());
    let ghost all = segment::lines(input@);
    let mut i: usize = 0;
    while i < lines.len()
        invariant
            all == text::pieces(lines@),
            all == segment::lines(input@),
            i <= lines.len(),
            forall|j: int| 0 <= j < i ==> !marker_line(#[trigger] all[j]),
        decreases lines.len() - i,
    {
        assert(all[i as int] == lines@[i as int]@);
        if is_marker_line(&lines[i]) {
            return true;
        }
        i = i + 1;
    }
    false
}

/// The text of a source file: UTF-8 without unresolved conflicts.
pub open spec fn text_of(format: SourceFormat, input: Seq<u8>) -> Result<
    Seq<char>,
    document::SourceFault,
> {
    if !vstd::utf8::valid_utf8(input) {
        Err(document::SourceFault::NonUtf8 { format })
    } else if has_markers(vstd::utf8::decode_utf8(input)) {
        Err(document::SourceFault::ConflictMarkers { format })
    } else {
        Ok(vstd::utf8::decode_utf8(input))
    }
}

/// Reads the bytes of a source file as text.
pub fn decode(format: SourceFormat, input: &[u8]) -> (r: Result<String, SourceError>)
    ensures
        match r {
            Ok(s) => text_of(format, input@) == Ok::<Seq<char>, document::SourceFault>(s@),
            Err(e) => text_of(format, input@) == Err::<Seq<char>, document::SourceFault>(e@),
        },
{
    match text::from_utf8(input) {
        None => Err(SourceError::NonUtf8 { format }),
        Some(s) => {
            if has_conflict_markers(s.as_str()) {
                Err(SourceError::ConflictMarkers { format })
            } else {
                Ok(s)
            }
        },
    }
}

/// The only value of a list; a reason otherwise.
pub open spec fn only(raws: Result<Seq<node::Tree>, Seq<char>>) -> Result<
    node::Tree,
    Seq<char>,
> {
    match raws {
        Err(reason) => Err(reason),
        Ok(list) => if list.len() == 1 {
            Ok(list[0])
        } else {
            Err("expected one JSON value"@)
        },
    }
}

/// The document that a text holds. JSON and YAML come with what a deserializer made
/// of the text.
pub open spec fn parsed_text(
    format: SourceFormat,
    s: Seq<char>,
    raws: Result<Seq<node::Tree>, Seq<char>>,
) -> Result<document::DocumentModel, document::SourceFault> {
    match format {
        SourceFormat::Dotenv => dotenv::parsed(s),
        SourceFormat::Json => json::parsed(s, only(raws)),
        SourceFormat::Yaml => yaml::parsed(s, yaml_syntax::yaml_file_syntax(s), raws),
        SourceFormat::Toml => toml_format::parsed(s, toml_codec::toml_parsed(s)),
    }
}

/// The document that the bytes of a source file hold.
pub open spec fn parsed(
    format: SourceFormat,
    input: Seq<u8>,
    raws: Result<Seq<node::Tree>, Seq<char>>,
) -> Result<document::DocumentModel, document::SourceFault> {
    match text_of(format, input) {
        Err(fault) => Err(fault),
        Ok(s) => parsed_text(format, s, raws),
    }
}

/// Where no tag without a name stays in a document, it has none.
pub proof fn lemma_parsed_is_named(
    format: SourceFormat,
    input: Seq<u8>,
    raws: Result<Seq<node::Tree>, Seq<char>>,
)
    requires
        strict::all_named(format, raws),
    ensures
        parsed(format, input, raws) matches Ok(d) ==> node::named_tags(d.root),
{
    if parsed(format, input, raws) is Ok {
        let s = text_of(format, input)->Ok_0;
        match format {
            SourceFormat::Dotenv => {
                dotenv::lemma_parsed_is_named(s);
            },
            SourceFormat::Json => {
                assert(node::named_tags(raws->Ok_0[0]));
            },
            SourceFormat::Yaml => {
                yaml::lemma_parsed_is_named(s, yaml_syntax::yaml_file_syntax(s), raws);
            },
            SourceFormat::Toml => {
                toml_format::lemma_value_is_named(toml_codec::toml_parsed(s)->Ok_0);
            },
        }
    }
}

fn take_only(raws: Result<Vec<StrictNode>, String>) -> (r: Result<StrictNode, String>)
    ensures
        json::view_raw(r) == only(yaml::view_raws(raws)),
{
    match raws {
        Err(reason) => Err(reason),
        Ok(list) => {
            let ghost given = strict::items(list@);
            let mut list = list;
            if list.len() != 1 {
                return Err("expected one JSON value".to_owned());
            }
            assert(given[0] == list@[0]@);
            Ok(list.remove(0))
        },
    }
}

/// Reads a source file. For JSON and YAML `raws` is what a deserializer made of the
/// text: one value for JSON, one for each document of YAML.
pub fn parse(format: SourceFormat, input: &[u8], raws: Result<Vec<StrictNode>, String>) -> (r: Result<
    SourceDocument,
    SourceError,
>)
    ensures
        document::view_document(r) == parsed(format, input@, yaml::view_raws(raws)),
        strict::all_named(format, yaml::view_raws(raws)) && r is Ok ==> node::named_tags(r->Ok_0@.root),
{
    proof {
        if strict::all_named(format, yaml::view_raws(raws)) {
            lemma_parsed_is_named(format, input@, yaml::view_raws(raws));
        }
    }
    let s = match decode(format, input) {
        Ok(s) => s,
        Err(error) => {
            return Err(error);
        },
    };
    match format {
        SourceFormat::Dotenv => dotenv::parse(s.as_str()),
        SourceFormat::Json => json::parse(s.as_str(), take_only(raws)),
        SourceFormat::Yaml => yaml::parse(s.as_str(), raws),
        SourceFormat::Toml => toml_format::parse(s.as_str()),
    }
}

/// The bytes of a document.
pub open spec fn generated(d: document::DocumentModel) -> Result<Seq<u8>, document::SourceFault> {
    match d.format {
        SourceFormat::Dotenv => dotenv::generated(d),
        SourceFormat::Json => json::generated(d),
        SourceFormat::Yaml => yaml::generated(d),
        SourceFormat::Toml => toml_format::generated(d),
    }
}

impl SourceDocument {
    /// Writes the document in its format and layout.
    pub fn generate(&self) -> (r: Result<Vec<u8>, SourceError>)
        requires
            node::named_tags(self@.root),
        ensures
            document::view_bytes(r) == generated(self@),
    {
        match self.format() {
            SourceFormat::Dotenv => dotenv::generate(self),
            SourceFormat::Json => json::generate(self),
            SourceFormat::Yaml => yaml::generate(self),
            SourceFormat::Toml => toml_format::generate(self),
        }
    }
}

/// Law: a text with a line that Git leaves in an unresolved conflict, behind spaces and
/// comment signs or not, is never read as a document.
pub proof fn law_unresolved_conflicts_are_never_read(
    format: SourceFormat,
    input: Seq<u8>,
    raws: Result<Seq<node::Tree>, Seq<char>>,
    i: int,
    lead: int,
)
    requires
        vstd::utf8::valid_utf8(input),
        0 <= i < segment::lines(vstd::utf8::decode_utf8(input)).len(),
        ({
            let line = segment::lines(vstd::utf8::decode_utf8(input))[i];
            &&& 0 <= lead <= line.len()
            &&& forall|j: int|
                0 <= j < lead ==> #[trigger] line[j] == ' ' || line[j] == '\t' || line[j] == '#'
                    || line[j] == '/' || line[j] == ';'
            &&& text::starts_with(line.skip(lead), "<<<<<<< "@) || line.skip(lead) == "======="@
                || text::starts_with(line.skip(lead), ">>>>>>> "@)
        }),
    ensures
        parsed(format, input, raws) == Err::<document::DocumentModel, document::SourceFault>(
            document::SourceFault::ConflictMarkers { format },
        ),
{
    let line = segment::lines(vstd::utf8::decode_utf8(input))[i];
    reveal_strlit("<<<<<<< ");
    reveal_strlit("=======");
    reveal_strlit(">>>>>>> ");
    let rest = line.skip(lead);
    assert(rest.len() > 0 && (rest[0] == '<' || rest[0] == '=' || rest[0] == '>')) by {
        if text::starts_with(rest, "<<<<<<< "@) {
            assert(rest.subrange(0, 8)[0] == '<');
        }
        if text::starts_with(rest, ">>>>>>> "@) {
            assert(rest.subrange(0, 8)[0] == '>');
        }
    }
    assert(rest[0] == line[lead]);
    lemma_trimmed_lead(line, lead);
    assert(marker_line(line));
}

proof fn lemma_trimmed_lead(line: Seq<char>, lead: int)
    requires
        0 <= lead <= line.len(),
        forall|j: int| 0 <= j < lead ==> marker_lead(#[trigger] line[j]),
        lead < line.len() && !marker_lead(line[lead]),
    ensures
        segment::trim_start_by(line, |c: char| marker_lead(c)) == line.skip(lead),
    decreases lead,
{
    if lead > 0 {
        let rest = line.skip(1);
        assert forall|j: int| 0 <= j < lead - 1 implies marker_lead(#[trigger] rest[j]) by {
            assert(rest[j] == line[j + 1]);
        }
        assert(marker_lead(line[0]));
        lemma_trimmed_lead(rest, lead - 1);
        assert(rest.skip(lead - 1) =~= line.skip(lead));
    } else {
        assert(line.skip(0) =~= line);
    }
}

} // verus!
