//! The exchange with the editor that SOPS starts: a token, then a length, then the
//! payload.

use vstd::prelude::*;

use crate::codec::hash;
use crate::error::{ErrorCategory, GitveilError};
use crate::git::discovery;
use crate::manifest_document::FileKind;
use crate::segment;
use crate::text;

verus! {

/// The largest payload, in bytes.
pub const MAX_EDITOR_PAYLOAD: u64 = 67108864;

/// The largest token file, in bytes.
pub const MAX_EDITOR_TOKEN: u64 = 4096;

pub open spec fn protocol(message: Seq<char>) -> (ErrorCategory, Seq<char>) {
    (ErrorCategory::Protocol, message)
}

fn protocol_error(message: &str) -> (r: GitveilError)
    ensures
        r@ == protocol(message@),
{
    GitveilError::new(ErrorCategory::Protocol, message.to_owned())
}

fn path_error(message: &str) -> (r: GitveilError)
    ensures
        r@ == (ErrorCategory::Path, message@),
{
    GitveilError::new(ErrorCategory::Path, message.to_owned())
}

/// Authenticates a caller by the line that it sent. The first wrong token fails the
/// edit, so that the payload is not open to further attempts.
pub fn authenticate(line: &str, token: &str) -> (r: Result<(), GitveilError>)
    ensures
        if segment::trim_end(line@) == token@ {
            r.is_ok()
        } else {
            r matches Err(e) && e@ == protocol("editor IPC authentication failed"@)
        },
{
    let sent = segment::trimmed_end(text::chars_of(line).as_slice());
    if text::eq_chars(sent.as_slice(), text::chars_of(token).as_slice()) {
        Ok(())
    } else {
        Err(protocol_error("editor IPC authentication failed"))
    }
}

/// The bytes that announce a payload of some length.
pub fn announce(length: u64) -> (r: Result<Vec<u8>, GitveilError>)
    ensures
        if length > MAX_EDITOR_PAYLOAD {
            r matches Err(e) && e@ == protocol("editor payload is too large"@)
        } else {
            r matches Ok(v) && v@ == hash::be_bytes(length as nat)
        },
{
    if length > MAX_EDITOR_PAYLOAD {
        return Err(protocol_error("editor payload is too large"));
    }
    Ok(hash::to_be_bytes(length))
}

/// The number that eight bytes hold, the highest first.
pub open spec fn be_value(b: Seq<u8>) -> int
    recommends
        b.len() == 8,
{
    b[0] as int * 72057594037927936 + b[1] as int * 281474976710656 + b[2] as int * 1099511627776
        + b[3] as int * 4294967296 + b[4] as int * 16777216 + b[5] as int * 65536 + b[6] as int
        * 256 + b[7] as int
}

fn read_be(b: &[u8; 8]) -> (r: u64)
    ensures
        r == be_value(b@),
{
    (b[0] as u64) * 72057594037927936 + (b[1] as u64) * 281474976710656 + (b[2] as u64)
        * 1099511627776 + (b[3] as u64) * 4294967296 + (b[4] as u64) * 16777216 + (b[5] as u64)
        * 65536 + (b[6] as u64) * 256 + (b[7] as u64)
}

/// Reads the announced length of a payload.
pub fn announced(b: &[u8; 8]) -> (r: Result<u64, GitveilError>)
    ensures
        if be_value(b@) > MAX_EDITOR_PAYLOAD {
            r matches Err(e) && e@ == protocol("editor payload is too large"@)
        } else {
            r matches Ok(n) && n == be_value(b@)
        },
{
    let length = read_be(b);
    if length > MAX_EDITOR_PAYLOAD {
        return Err(protocol_error("editor payload is too large"));
    }
    Ok(length)
}

/// Law: a length that is announced is read back.
pub proof fn law_length_is_read_back(n: nat)
    requires
        n <= u64::MAX,
    ensures
        hash::be_bytes(n).len() == 8,
        be_value(hash::be_bytes(n)) == n,
{
    let a = n / 256;
    let b = n / 65536;
    let c = n / 16777216;
    let d = n / 4294967296;
    let e = n / 1099511627776;
    let f = n / 281474976710656;
    let g = n / 72057594037927936;
    assert(b == a / 256);
    assert(c == b / 256);
    assert(d == c / 256);
    assert(e == d / 256);
    assert(f == e / 256);
    assert(g == f / 256);
    assert(g < 256);
}

/// Checks the file that holds a token.
pub fn check_token_file(kind: FileKind, length: u64) -> (r: Result<(), GitveilError>)
    ensures
        if kind != FileKind::Regular {
            r matches Err(e) && e@ == (
                ErrorCategory::Path,
                "editor token file is not a regular file"@,
            )
        } else if length > MAX_EDITOR_TOKEN {
            r matches Err(e) && e@ == protocol("editor token file is too large"@)
        } else {
            r.is_ok()
        },
{
    match kind {
        FileKind::Regular => if length > MAX_EDITOR_TOKEN {
            Err(protocol_error("editor token file is too large"))
        } else {
            Ok(())
        },
        _ => Err(path_error("editor token file is not a regular file")),
    }
}

/// The token that a file holds.
pub fn read_token(input: &[u8]) -> (r: Result<String, GitveilError>)
    ensures
        if vstd::utf8::valid_utf8(input@) {
            r matches Ok(s) && s@ == discovery::unbroken(vstd::utf8::decode_utf8(input@))
        } else {
            r matches Err(e) && e@ == protocol("editor token file is not UTF-8"@)
        },
{
    match text::from_utf8(input) {
        Some(s) => Ok(
            text::string_of(
                discovery::strip_breaks(text::chars_of(s.as_str()).as_slice()).as_slice(),
            ),
        ),
        None => Err(protocol_error("editor token file is not UTF-8")),
    }
}

/// Checks the file that the editor replaces: a regular file inside the runtime
/// directory.
pub fn check_target(inside: bool, kind: FileKind) -> (r: Result<(), GitveilError>)
    ensures
        if !inside {
            r matches Err(e) && e@ == (
                ErrorCategory::Path,
                "SOPS editor target is outside Gitveil runtime"@,
            )
        } else if kind != FileKind::Regular {
            r matches Err(e) && e@ == (
                ErrorCategory::Path,
                "SOPS editor target is not a regular file"@,
            )
        } else {
            r.is_ok()
        },
{
    if !inside {
        return Err(path_error("SOPS editor target is outside Gitveil runtime"));
    }
    match kind {
        FileKind::Regular => Ok(()),
        _ => Err(path_error("SOPS editor target is not a regular file")),
    }
}

/// The name of an endpoint.
#[derive(Debug, PartialEq, Eq)]
pub enum EndpointName {
    Namespaced(String),
    FilePath(String),
}

pub enum EndpointModel {
    Namespaced(Seq<char>),
    FilePath(Seq<char>),
}

impl View for EndpointName {
    type V = EndpointModel;

    open spec fn view(&self) -> EndpointModel {
        match self {
            EndpointName::Namespaced(name) => EndpointModel::Namespaced(name@),
            EndpointName::FilePath(path) => EndpointModel::FilePath(path@),
        }
    }
}

impl EndpointModel {
    /// How an endpoint is written on a command line.
    pub open spec fn text(self) -> Seq<char> {
        match self {
            EndpointModel::Namespaced(name) => "ns:"@ + name,
            EndpointModel::FilePath(path) => "fs:"@ + path,
        }
    }
}

impl EndpointName {
    pub fn printable(&self) -> (r: String)
        ensures
            r@ == self@.text(),
    {
        match self {
            EndpointName::Namespaced(name) => text::cat2("ns:", name.as_str()),
            EndpointName::FilePath(path) => text::cat2("fs:", path.as_str()),
        }
    }
}

/// The endpoint that a text names.
pub open spec fn endpoint_of(s: Seq<char>) -> Option<EndpointModel> {
    if text::starts_with(s, "ns:"@) {
        Some(EndpointModel::Namespaced(s.skip(3)))
    } else if text::starts_with(s, "fs:"@) {
        Some(EndpointModel::FilePath(s.skip(3)))
    } else {
        None
    }
}

pub fn parse_endpoint(endpoint: &str) -> (r: Result<EndpointName, GitveilError>)
    ensures
        match endpoint_of(endpoint@) {
            Some(name) => r matches Ok(n) && n@ == name,
            None => r matches Err(e) && e@ == protocol("invalid editor IPC endpoint"@),
        },
{
    proof {
        reveal_strlit("ns:");
        reveal_strlit("fs:");
        assert("ns:"@.len() == 3 && "fs:"@.len() == 3);
    }
    let chars = text::chars_of(endpoint);
    let namespaced: bool = text::begins_str(endpoint, "ns:");
    if !namespaced && !text::begins_str(endpoint, "fs:") {
        return Err(protocol_error("invalid editor IPC endpoint"));
    }
    let rest = segment::slice_to_vec(chars.as_slice(), 3, chars.len());
    assert(rest@ =~= endpoint@.skip(3));
    let name = text::string_of(rest.as_slice());
    if namespaced {
        Ok(EndpointName::Namespaced(name))
    } else {
        Ok(EndpointName::FilePath(name))
    }
}

/// Law: an endpoint that is written is read back.
pub proof fn law_endpoint_is_read_back(e: EndpointModel)
    ensures
        endpoint_of(e.text()) == Some(e),
{
    reveal_strlit("ns:");
    reveal_strlit("fs:");
    let s = e.text();
    assert(s.skip(3) =~= match e {
        EndpointModel::Namespaced(name) => name,
        EndpointModel::FilePath(path) => path,
    });
    match e {
        EndpointModel::Namespaced(name) => {
            assert(s.subrange(0, 3) =~= "ns:"@);
        },
        EndpointModel::FilePath(path) => {
            assert(s.subrange(0, 3) =~= "fs:"@);
            assert("ns:"@[0] == 'n' && "fs:"@[0] == 'f');
            assert(s.subrange(0, 3)[0] == 'f');
        },
    }
}

/// The name of a fresh endpoint.
pub open spec fn endpoint_for(nonce: Seq<char>) -> Seq<char> {
    "gitveil-"@ + nonce
}

pub fn fresh_name(nonce: &str) -> (r: String)
    ensures
        r@ == endpoint_for(nonce@),
{
    text::cat2("gitveil-", nonce)
}

} // verus!
