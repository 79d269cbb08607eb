//! What is handed to SOPS. The file that it works on is the last argument of each
//! list, and comes from the caller.

use vstd::prelude::*;

use crate::path::ManagedPath;
use crate::recipient::AgeRecipientPolicy;
use crate::segment;
use crate::sops::command;
use crate::text;

verus! {

/// A configuration that says nothing, so that none of the repository is read.
pub const NEUTRAL_CONFIG: &'static str = "{}\n";

/// The arguments that decrypt a file.
pub fn decrypt_arguments(path: &ManagedPath) -> (r: Vec<String>)
    ensures
        text::texts(r@) == seq![
            "--decrypt"@,
            "--input-type"@,
            "yaml"@,
            "--output-type"@,
            "yaml"@,
            "--filename-override"@,
            path@,
        ],
{
    let r = vec![
        "--decrypt".to_owned(),
        "--input-type".to_owned(),
        "yaml".to_owned(),
        "--output-type".to_owned(),
        "yaml".to_owned(),
        "--filename-override".to_owned(),
        path.as_str().to_owned(),
    ];
    assert(text::texts(r@) =~= seq![
        "--decrypt"@,
        "--input-type"@,
        "yaml"@,
        "--output-type"@,
        "yaml"@,
        "--filename-override"@,
        path@,
    ]);
    r
}

/// The arguments that encrypt a scaffold for the recipients of a policy.
pub fn encrypt_arguments(path: &ManagedPath, policy: &AgeRecipientPolicy) -> (r: Vec<String>)
    ensures
        text::texts(r@) == seq![
            "--encrypt"@,
            "--input-type"@,
            "yaml"@,
            "--output-type"@,
            "yaml"@,
            "--encrypted-regex"@,
            ".*"@,
            "--age"@,
            segment::join(policy@.recipients, ","@),
            "--filename-override"@,
            path@,
        ],
{
    let list = command::render_recipients(policy);
    let r = vec![
        "--encrypt".to_owned(),
        "--input-type".to_owned(),
        "yaml".to_owned(),
        "--output-type".to_owned(),
        "yaml".to_owned(),
        "--encrypted-regex".to_owned(),
        ".*".to_owned(),
        "--age".to_owned(),
        list,
        "--filename-override".to_owned(),
        path.as_str().to_owned(),
    ];
    assert(text::texts(r@) =~= seq![
        "--encrypt"@,
        "--input-type"@,
        "yaml"@,
        "--output-type"@,
        "yaml"@,
        "--encrypted-regex"@,
        ".*"@,
        "--age"@,
        segment::join(policy@.recipients, ","@),
        "--filename-override"@,
        path@,
    ]);
    r
}

/// The arguments that edit a file in place.
pub fn edit_arguments(path: &ManagedPath) -> (r: Vec<String>)
    ensures
        text::texts(r@) == seq![
            "--input-type"@,
            "yaml"@,
            "--output-type"@,
            "yaml"@,
            "--filename-override"@,
            path@,
        ],
{
    let r = vec![
        "--input-type".to_owned(),
        "yaml".to_owned(),
        "--output-type".to_owned(),
        "yaml".to_owned(),
        "--filename-override".to_owned(),
        path.as_str().to_owned(),
    ];
    assert(text::texts(r@) =~= seq![
        "--input-type"@,
        "yaml"@,
        "--output-type"@,
        "yaml"@,
        "--filename-override"@,
        path@,
    ]);
    r
}

/// The arguments that wrap the data key of a file anew, for the recipients of the
/// configuration.
pub fn rewrap_arguments() -> (r: Vec<String>)
    ensures
        text::texts(r@) == seq!["updatekeys"@, "--yes"@, "--input-type"@, "yaml"@],
{
    let r = vec![
        "updatekeys".to_owned(),
        "--yes".to_owned(),
        "--input-type".to_owned(),
        "yaml".to_owned(),
    ];
    assert(text::texts(r@) =~= seq!["updatekeys"@, "--yes"@, "--input-type"@, "yaml"@]);
    r
}

} // verus!
