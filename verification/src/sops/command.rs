//! What is handed to SOPS and what is taken from it.

use vstd::prelude::*;
use vstd::string::StrSliceExecFns;

use crate::config::SourceFormat;
use crate::envelope::ciphertext;
use crate::envelope::decrypted;
use crate::envelope::DecryptedEnvelope;
use crate::error;
use crate::error::{ErrorCategory, GitveilError, SecretBytes};
use crate::path::ManagedPath;
use crate::recipient;
use crate::recipient::{AgeRecipient, AgeRecipientPolicy};
use crate::segment;
use crate::shell;
use crate::sops::classify;
use crate::source::document;
use crate::source::layout;
use crate::source::node;
use crate::source::{Layout, LineEnding, Node, SourceDocument};
use crate::text;

verus! {

/// The version of SOPS that is asked for.
pub const SOPS_VERSION: (u64, u64, u64) = (3, 13, 3);

fn recipient_texts(list: &[AgeRecipient]) -> (r: Vec<String>)
    ensures
        text::texts(r@) == recipient::names(list@),
{
    let mut out: Vec<String> = Vec::new();
    let mut i: usize = 0;
    while i < list.len()
        invariant
            i <= list.len(),
            out@.len() == i,
            forall|j: int| 0 <= j < i ==> (#[trigger] out@[j])@ == list@[j]@,
        decreases list.len() - i,
    {
        out.push(list[i].as_str().to_owned());
        i = i + 1;
    }
    assert(text::texts(out@) =~= recipient::names(list@));
    out
}

/// The recipients of a policy as SOPS takes them.
pub fn render_recipients(policy: &AgeRecipientPolicy) -> (r: String)
    ensures
        r@ == segment::join(policy@.recipients, ","@),
{
    segment::joined(recipient_texts(policy.recipients()).as_slice(), ",")
}

/// The configuration under which the recipients of an envelope are brought to a
/// policy.
pub fn render_updatekeys_config(policy: &AgeRecipientPolicy) -> (r: String)
    ensures
        r@ == "creation_rules:\n  - path_regex: .*\n    age: "@ + segment::join(
            policy@.recipients,
            ","@,
        ) + "\n"@,
{
    text::cat3(
        "creation_rules:\n  - path_regex: .*\n    age: ",
        render_recipients(policy).as_str(),
        "\n",
    )
}

/// Some line of a text is the given one.
pub open spec fn has_line(s: Seq<char>, line: Seq<char>) -> bool {
    segment::lines(s).contains(line)
}

fn holds_line(lines: &Vec<Vec<char>>, line: &str) -> (r: bool)
    ensures
        r == text::pieces(lines@).contains(line@),
{
    let chars = text::chars_of(line);
    let mut i: usize = 0;
    while i < lines.len()
        invariant
            i <= lines.len(),
            chars@ == line@,
            forall|j: int| 0 <= j < i ==> #[trigger] text::pieces(lines@)[j] != line@,
        decreases lines.len() - i,
    {
        assert(text::pieces(lines@)[i as int] == lines@[i as int]@);
        if text::eq_chars(lines[i].as_slice(), chars.as_slice()) {
            return true;
        }
        i = i + 1;
    }
    false
}

/// The line that opens an envelope of a format.
pub open spec fn opening_line(format: SourceFormat) -> Seq<char> {
    ciphertext::discriminator_of(format) + ":"@
}

/// The format that the opening line of an envelope names.
pub open spec fn opened_format(input: Seq<u8>) -> Result<SourceFormat, (ErrorCategory, Seq<char>)> {
    if !vstd::utf8::valid_utf8(input) {
        Err((ErrorCategory::Configuration, "decrypted envelope is not UTF-8"@))
    } else {
        let s = vstd::utf8::decode_utf8(input);
        if has_line(s, opening_line(SourceFormat::Dotenv)) {
            Ok(SourceFormat::Dotenv)
        } else if has_line(s, opening_line(SourceFormat::Json)) {
            Ok(SourceFormat::Json)
        } else if has_line(s, opening_line(SourceFormat::Yaml)) {
            Ok(SourceFormat::Yaml)
        } else if has_line(s, opening_line(SourceFormat::Toml)) {
            Ok(SourceFormat::Toml)
        } else {
            Err((ErrorCategory::Configuration, "decrypted envelope discriminator is missing"@))
        }
    }
}

fn opens(lines: &Vec<Vec<char>>, format: SourceFormat) -> (r: bool)
    ensures
        r == text::pieces(lines@).contains(opening_line(format)),
{
    let own = ciphertext::discriminator(format);
    holds_line(lines, text::cat2(own.as_str(), ":").as_str())
}

pub fn format_from_decrypted(input: &[u8]) -> (r: Result<SourceFormat, GitveilError>)
    ensures
        match opened_format(input@) {
            Ok(format) => r matches Ok(f) && f == format,
            Err(fault) => r matches Err(e) && e@ == fault,
        },
{
    let s = match text::from_utf8(input) {
        Some(s) => s,
        None => {
            return Err(GitveilError::configuration("decrypted envelope is not UTF-8"));
        },
    };
    let lines = segment::split_lines(text::chars_of(s.as_str()).as_slice());
    if opens(&lines, SourceFormat::Dotenv) {
        return Ok(SourceFormat::Dotenv);
    }
    if opens(&lines, SourceFormat::Json) {
        return Ok(SourceFormat::Json);
    }
    if opens(&lines, SourceFormat::Yaml) {
        return Ok(SourceFormat::Yaml);
    }
    if opens(&lines, SourceFormat::Toml) {
        return Ok(SourceFormat::Toml);
    }
    Err(GitveilError::configuration("decrypted envelope discriminator is missing"))
}

/// A document without content.
pub open spec fn empty_model(format: SourceFormat) -> document::DocumentModel {
    document::DocumentModel {
        format,
        root: node::Tree::Mapping(Seq::empty()),
        layout: layout::LayoutModel {
            line_ending: LineEnding::Lf,
            trailing_newline: true,
            preamble_comments: Seq::empty(),
            dotenv: Seq::empty(),
            template: None,
        },
    }
}

pub fn empty_document(format: SourceFormat) -> (r: SourceDocument)
    ensures
        r@ == empty_model(format),
{
    let root = Node::Mapping(Vec::new());
    proof {
        node::lemma_view(root);
        assert(root@->Mapping_0 =~= Seq::<(Seq<char>, node::Tree)>::empty());
    }
    SourceDocument::new(format, root, Layout::new(LineEnding::Lf, true))
}

/// The envelope that is encrypted first, before its content is put in: one of the
/// same format, without content.
pub open spec fn scaffold_of(path: Seq<char>, desired: Seq<u8>) -> Result<
    Seq<u8>,
    (ErrorCategory, Seq<char>),
> {
    match opened_format(desired) {
        Err(fault) => Err(fault),
        Ok(format) => match crate::codec::yaml::yaml_written(
            decrypted::envelope_tree(empty_model(format)),
        ) {
            Ok(s) => Ok(vstd::utf8::encode_utf8(s)),
            Err(_) => Err(
                error::ciphertext_error(path, "could not build encrypted scaffold"@),
            ),
        },
    }
}

pub fn empty_scaffold(path: &ManagedPath, desired: &SecretBytes) -> (r: Result<
    Vec<u8>,
    GitveilError,
>)
    ensures
        match scaffold_of(path@, desired@) {
            Ok(bytes) => r matches Ok(v) && v@ == bytes,
            Err(fault) => r matches Err(e) && e@ == fault,
        },
{
    let format = match format_from_decrypted(desired.as_slice()) {
        Ok(format) => format,
        Err(error) => {
            return Err(error);
        },
    };
    match DecryptedEnvelope::from_source(&empty_document(format)) {
        Ok(envelope) => match envelope.to_yaml() {
            Ok(bytes) => Ok(bytes),
            Err(_) => Err(GitveilError::ciphertext(path, "could not build encrypted scaffold")),
        },
        Err(_) => Err(GitveilError::ciphertext(path, "could not build encrypted scaffold")),
    }
}

/// The text of an exit code; a process that was killed has none.
pub open spec fn code_text(code: Option<i32>) -> Seq<char> {
    crate::codec::integer::integer_text(
        match code {
            Some(n) => n as int,
            None => -1int,
        },
    )
}

pub fn show_code(code: Option<i32>) -> (r: String)
    ensures
        r@ == code_text(code),
{
    let n: i64 = match code {
        Some(n) => n as i64,
        None => -1,
    };
    if n < 0 {
        let digits = segment::decimal_u64((-n) as u64);
        proof {
            reveal_strlit("-");
            assert("-"@ =~= seq!['-']);
        }
        text::cat2("-", digits.as_str())
    } else {
        segment::decimal_u64(n as u64)
    }
}

/// The output of a call that succeeded, or why it failed.
pub fn require_success(
    success: bool,
    code: Option<i32>,
    stdout: &SecretBytes,
    stderr: &[u8],
    operation: &str,
) -> (r: Result<Vec<u8>, GitveilError>)
    ensures
        if success {
            r matches Ok(v) && v@ == stdout@
        } else {
            r matches Err(e) && e@ == (
                classify::failure_category(classify::classified(stderr@)),
                "SOPS "@ + operation@ + " failed with exit code "@ + code_text(code),
            )
        },
{
    if success {
        return Ok(stdout.copy_out());
    }
    let category = classify::category_of(classify::classify(stderr));
    Err(
        GitveilError::new(
            category,
            text::cat4(
                "SOPS ",
                operation,
                " failed with exit code ",
                show_code(code).as_str(),
            ),
        ),
    )
}

/// The first line that Gitveil itself wrote, from its mark on, where it is short.
pub open spec fn marked_detail(lines: Seq<Seq<char>>) -> Option<Seq<char>>
    decreases lines.len(),
{
    if lines.len() == 0 {
        None
    } else {
        let line = lines[0];
        match text::find(line, "gitveil: "@) {
            Some(i) => {
                let detail = line.skip(i);
                if vstd::utf8::encode_utf8(detail).len() <= 512 {
                    Some(detail)
                } else {
                    marked_detail(lines.skip(1))
                }
            },
            None => marked_detail(lines.skip(1)),
        }
    }
}

/// The detail of a message that is safe to show.
pub open spec fn detail_of(stderr: Seq<u8>) -> Option<Seq<char>> {
    if vstd::utf8::valid_utf8(stderr) {
        marked_detail(segment::lines(vstd::utf8::decode_utf8(stderr)))
    } else {
        None
    }
}

pub fn safe_detail(stderr: &[u8]) -> (r: Option<String>)
    ensures
        text::view_option(r) == detail_of(stderr@),
{
    let s = match text::from_utf8(stderr) {
        Some(s) => s,
        None => {
            return None;
        },
    };
    let lines = segment::split_lines(text::chars_of(s.as_str()).as_slice());
    let mark = text::chars_of("gitveil: ");
    let ghost all = text::pieces(lines@);
    let mut i: usize = 0;
    assert(all.skip(0) =~= all);
    while i < lines.len()
        invariant
            all == text::pieces(lines@),
            mark@ == "gitveil: "@,
            i <= lines.len(),
            marked_detail(all.skip(i as int)) == marked_detail(all),
            detail_of(stderr@) == marked_detail(all),
        decreases lines.len() - i,
    {
        assert(all.skip(i as int)[0] == lines@[i as int]@);
        assert(all.skip(i as int).skip(1) =~= all.skip(i + 1));
        match text::find_in(lines[i].as_slice(), mark.as_slice(), 0) {
            Some(at) => {
                let detail = text::string_of(
                    segment::slice_to_vec(lines[i].as_slice(), at, lines[i].len()).as_slice(),
                );
                assert(detail@ =~= lines@[i as int]@.skip(at as int));
                if detail.as_str().as_bytes_vec().len() <= 512 {
                    return Some(detail);
                }
            },
            None => {},
        }
        i = i + 1;
    }
    None
}

/// The text behind a failure: a colon and the detail, or nothing.
pub open spec fn detail_suffix(stderr: Seq<u8>) -> Seq<char> {
    match detail_of(stderr) {
        Some(detail) => ": "@ + detail,
        None => Seq::empty(),
    }
}

pub fn show_detail(stderr: &[u8]) -> (r: String)
    ensures
        r@ == detail_suffix(stderr@),
{
    match safe_detail(stderr) {
        Some(detail) => text::cat2(": ", detail.as_str()),
        None => String::new(),
    }
}

/// A text between single quotes, as a POSIX shell takes it literally.
pub open spec fn quoted(value: Seq<char>) -> Seq<char> {
    shell::enclosed(value, "'\\''"@)
}

pub fn shell_quote(value: &str) -> (r: String)
    ensures
        r@ == quoted(value@),
{
    shell::enclose(value, "'\\''")
}

/// Law: a shell reads a quoted text as that text, whatever it holds.
pub proof fn law_quoted_text_is_literal(value: Seq<char>)
    ensures
        shell::word_value(quoted(value), shell::Quoting::Plain) == Some(value),
{
    shell::lemma_backslash_escapes();
    shell::lemma_enclosed(value, "'\\''"@);
}

/// The script that SOPS starts as its editor.
pub fn render_editor_script(
    gitveil_binary: &str,
    endpoint: &str,
    token_file: &str,
    runtime: &str,
) -> (r: String)
    ensures
        r@ == "#!/bin/sh\nexec "@ + quoted(gitveil_binary@) + " sops-editor --endpoint "@ + quoted(
            endpoint@,
        ) + " --token-file "@ + quoted(token_file@) + " --runtime "@ + quoted(runtime@)
            + " \"$@\"\n"@,
{
    let head = text::cat4(
        "#!/bin/sh\nexec ",
        shell_quote(gitveil_binary).as_str(),
        " sops-editor --endpoint ",
        shell_quote(endpoint).as_str(),
    );
    let middle = text::cat4(
        head.as_str(),
        " --token-file ",
        shell_quote(token_file).as_str(),
        " --runtime ",
    );
    text::cat3(middle.as_str(), shell_quote(runtime).as_str(), " \"$@\"\n")
}

/// Law: a decrypted envelope is of the format whose opening line it has, where it has no
/// other; one without an opening line is of none.
pub proof fn law_the_opening_line_names_the_format(input: Seq<u8>, format: SourceFormat)
    requires
        vstd::utf8::valid_utf8(input),
        forall|other: SourceFormat|
            other != format ==> !has_line(
                vstd::utf8::decode_utf8(input),
                #[trigger] opening_line(other),
            ),
    ensures
        opened_format(input) == Ok::<SourceFormat, (ErrorCategory, Seq<char>)>(format) <==> has_line(
            vstd::utf8::decode_utf8(input),
            opening_line(format),
        ),
        !has_line(vstd::utf8::decode_utf8(input), opening_line(format)) ==> opened_format(
            input,
        ) is Err,
{
    let s = vstd::utf8::decode_utf8(input);
    assert(format != SourceFormat::Dotenv ==> !has_line(s, opening_line(SourceFormat::Dotenv)));
    assert(format != SourceFormat::Json ==> !has_line(s, opening_line(SourceFormat::Json)));
    assert(format != SourceFormat::Yaml ==> !has_line(s, opening_line(SourceFormat::Yaml)));
    assert(format != SourceFormat::Toml ==> !has_line(s, opening_line(SourceFormat::Toml)));
}

} // verus!
