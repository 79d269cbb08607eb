//! Where an age identity is kept.

use vstd::prelude::*;
use vstd::string::StrSliceExecFns;

use crate::bytes;
use crate::error::{ErrorCategory, GitveilError};
use crate::recipient::AgeRecipient;
use crate::seal::step;
use crate::text;

verus! {

/// The platforms that differ in where configuration is kept.
#[derive(Clone, Copy, Debug, PartialEq, Eq, Structural)]
pub enum Platform {
    Linux,
    MacOs,
}

impl Platform {
    /// Where identities are kept under the home directory.
    pub open spec fn home_location(self) -> Seq<char> {
        match self {
            Platform::Linux => ".config/sops/age/keys.txt"@,
            Platform::MacOs => "Library/Application Support/sops/age/keys.txt"@,
        }
    }

    pub fn location(self) -> (r: &'static str)
        ensures
            r@ == self.home_location(),
    {
        match self {
            Platform::Linux => ".config/sops/age/keys.txt",
            Platform::MacOs => "Library/Application Support/sops/age/keys.txt",
        }
    }
}

pub open spec fn absolute(p: Seq<u8>) -> bool {
    p.len() > 0 && p[0] == 47
}

/// A path under a directory; an absolute path stands for itself.
pub open spec fn under(directory: Seq<u8>, p: Seq<u8>) -> Seq<u8> {
    if absolute(p) {
        p
    } else if directory.len() > 0 && directory.last() != 47 {
        directory.push(47) + p
    } else {
        directory + p
    }
}

pub fn join_path(directory: &[u8], p: &[u8]) -> (r: Vec<u8>)
    ensures
        r@ == under(directory@, p@),
{
    let mut tail = bytes::copy(p, 0, p.len());
    assert(tail@ =~= p@);
    if p.len() > 0 && p[0] == 47 {
        return tail;
    }
    let mut out = bytes::copy(directory, 0, directory.len());
    assert(out@ =~= directory@);
    if directory.len() > 0 && directory[directory.len() - 1] != 47 {
        out.push(47);
    }
    out.append(&mut tail);
    out
}

/// The variables of the environment that tell where identities are kept.
pub struct IdentityVariables {
    pub sops_age_key_file: Option<Vec<u8>>,
    pub xdg_config_home: Option<Vec<u8>>,
    pub home: Option<Vec<u8>>,
}

pub struct VariablesModel {
    pub sops_age_key_file: Option<Seq<u8>>,
    pub xdg_config_home: Option<Seq<u8>>,
    pub home: Option<Seq<u8>>,
}

pub open spec fn view_variable(v: Option<Vec<u8>>) -> Option<Seq<u8>> {
    match v {
        Some(v) => Some(v@),
        None => None,
    }
}

impl View for IdentityVariables {
    type V = VariablesModel;

    open spec fn view(&self) -> VariablesModel {
        VariablesModel {
            sops_age_key_file: view_variable(self.sops_age_key_file),
            xdg_config_home: view_variable(self.xdg_config_home),
            home: view_variable(self.home),
        }
    }
}

pub open spec fn empty_variable(name: Seq<char>) -> (ErrorCategory, Seq<char>) {
    (ErrorCategory::Configuration, name + " cannot be empty"@)
}

/// The identity that is meant, before it is made absolute: the requested one, or the
/// first that the environment names.
pub open spec fn selected(
    requested: Option<Seq<u8>>,
    variables: VariablesModel,
    platform: Platform,
) -> Result<Seq<u8>, (ErrorCategory, Seq<char>)> {
    match requested {
        Some(p) => Ok(p),
        None => match variables.sops_age_key_file {
            Some(p) => if p.len() == 0 {
                Err(empty_variable("SOPS_AGE_KEY_FILE"@))
            } else {
                Ok(p)
            },
            None => match variables.xdg_config_home {
                Some(p) => if p.len() == 0 {
                    Err(empty_variable("XDG_CONFIG_HOME"@))
                } else {
                    Ok(under(p, bytes::bytes_of("sops/age/keys.txt"@)))
                },
                None => match variables.home {
                    Some(p) => if p.len() == 0 {
                        Err(empty_variable("HOME"@))
                    } else {
                        Ok(under(p, bytes::bytes_of(platform.home_location())))
                    },
                    None => Err(
                        (
                            ErrorCategory::Configuration,
                            "HOME is unavailable; pass an explicit identity path"@,
                        ),
                    ),
                },
            },
        },
    }
}

/// The path of the identity that is meant.
pub open spec fn identity_path(
    current: Seq<u8>,
    requested: Option<Seq<u8>>,
    variables: VariablesModel,
    platform: Platform,
) -> Result<Seq<u8>, (ErrorCategory, Seq<char>)> {
    match selected(requested, variables, platform) {
        Err(fault) => Err(fault),
        Ok(p) => if p.len() == 0 {
            Err((ErrorCategory::Configuration, "identity path cannot be empty"@))
        } else {
            Ok(under(current, p))
        },
    }
}

fn check_variable(name: &str, value: &Vec<u8>) -> (r: Result<(), GitveilError>)
    ensures
        if value@.len() == 0 {
            r matches Err(e) && e@ == empty_variable(name@)
        } else {
            r.is_ok()
        },
{
    if value.len() == 0 {
        Err(GitveilError::configuration(text::cat2(name, " cannot be empty").as_str()))
    } else {
        Ok(())
    }
}

fn select(requested: Option<&[u8]>, variables: &IdentityVariables, platform: Platform) -> (r: Result<
    Vec<u8>,
    GitveilError,
>)
    ensures
        match selected(step::view_input(requested), variables@, platform) {
            Ok(p) => r matches Ok(v) && v@ == p,
            Err(fault) => r matches Err(e) && e@ == fault,
        },
{
    match requested {
        Some(p) => {
            let out = bytes::copy(p, 0, p.len());
            assert(out@ =~= p@);
            return Ok(out);
        },
        None => {},
    }
    match &variables.sops_age_key_file {
        Some(p) => {
            return match check_variable("SOPS_AGE_KEY_FILE", p) {
                Ok(_) => {
                    let out = bytes::copy(p.as_slice(), 0, p.len());
                    assert(out@ =~= p@);
                    Ok(out)
                },
                Err(error) => Err(error),
            };
        },
        None => {},
    }
    match &variables.xdg_config_home {
        Some(p) => {
            return match check_variable("XDG_CONFIG_HOME", p) {
                Ok(_) => Ok(
                    join_path(p.as_slice(), "sops/age/keys.txt".as_bytes_vec().as_slice()),
                ),
                Err(error) => Err(error),
            };
        },
        None => {},
    }
    match &variables.home {
        Some(p) => match check_variable("HOME", p) {
            Ok(_) => Ok(
                join_path(p.as_slice(), platform.location().as_bytes_vec().as_slice()),
            ),
            Err(error) => Err(error),
        },
        None => Err(
            GitveilError::configuration("HOME is unavailable; pass an explicit identity path"),
        ),
    }
}

/// Resolves the path of an identity. Paths are bytes, as the system has them.
pub fn resolve_identity_path(
    current: &[u8],
    requested: Option<&[u8]>,
    variables: &IdentityVariables,
    platform: Platform,
) -> (r: Result<Vec<u8>, GitveilError>)
    ensures
        match identity_path(current@, step::view_input(requested), variables@, platform) {
            Ok(p) => r matches Ok(v) && v@ == p,
            Err(fault) => r matches Err(e) && e@ == fault,
        },
{
    let chosen = match select(requested, variables, platform) {
        Ok(chosen) => chosen,
        Err(error) => {
            return Err(error);
        },
    };
    if chosen.len() == 0 {
        return Err(GitveilError::configuration("identity path cannot be empty"));
    }
    Ok(join_path(current, chosen.as_slice()))
}

/// The only recipient of an identity that was just generated.
pub fn only_recipient(recipients: Vec<AgeRecipient>) -> (r: Result<AgeRecipient, GitveilError>)
    ensures
        if recipients@.len() == 1 {
            r matches Ok(x) && x@ == recipients@[0]@
        } else {
            r matches Err(e) && e@ == (
                ErrorCategory::Protocol,
                "age-keygen generated an unexpected number of recipients"@,
            )
        },
{
    let mut list = recipients;
    if list.len() == 1 {
        return Ok(list.remove(0));
    }
    Err(
        GitveilError::new(
            ErrorCategory::Protocol,
            "age-keygen generated an unexpected number of recipients".to_owned(),
        ),
    )
}

/// Refuses to generate an identity where something is.
pub fn refuse_existing_identity(present: bool, shown: &str) -> (r: Result<(), GitveilError>)
    ensures
        if present {
            r matches Err(e) && e@ == (
                ErrorCategory::Configuration,
                "identity path already exists: "@ + shown@,
            )
        } else {
            r.is_ok()
        },
{
    if present {
        Err(
            GitveilError::configuration(
                text::cat2("identity path already exists: ", shown).as_str(),
            ),
        )
    } else {
        Ok(())
    }
}

/// Checks the file that was generated: a regular file without other names.
pub fn check_generated(regular: bool, links: u64) -> (r: Result<(), GitveilError>)
    ensures
        if regular && links == 1 {
            r.is_ok()
        } else {
            r matches Err(e) && e@ == (
                ErrorCategory::Protocol,
                "age-keygen did not create an independent regular identity file"@,
            )
        },
{
    if regular && links == 1 {
        return Ok(());
    }
    Err(
        GitveilError::new(
            ErrorCategory::Protocol,
            "age-keygen did not create an independent regular identity file".to_owned(),
        ),
    )
}

/// Law: a resolved identity path is absolute wherever the current directory is, and an
/// absolute request is taken as it is.
pub proof fn law_identity_path_is_absolute(
    current: Seq<u8>,
    requested: Option<Seq<u8>>,
    variables: VariablesModel,
    platform: Platform,
)
    requires
        absolute(current),
    ensures
        identity_path(current, requested, variables, platform) matches Ok(p) ==> absolute(p),
        requested matches Some(p) && absolute(p) ==> identity_path(
            current,
            requested,
            variables,
            platform,
        ) == Ok::<Seq<u8>, (ErrorCategory, Seq<char>)>(requested->Some_0),
{
}

/// Law: the first source that names an identity decides, whatever the later ones say: the
/// request, then the variable for the key file, then the configuration directory, then the
/// home directory. Only the last depends on the platform. A source that is there but empty is
/// refused, and never passed over.
pub proof fn law_the_first_source_decides(
    current: Seq<u8>,
    requested: Option<Seq<u8>>,
    v: VariablesModel,
    w: VariablesModel,
    platform: Platform,
    other: Platform,
)
    ensures
        ({
            let found = identity_path(current, requested, v, platform);
            &&& requested is Some ==> found == identity_path(current, requested, w, other)
            &&& requested is None && v.sops_age_key_file is Some && w.sops_age_key_file
                == v.sops_age_key_file ==> found == identity_path(current, requested, w, other)
            &&& requested is None && v.sops_age_key_file is None && w.sops_age_key_file is None
                && v.xdg_config_home is Some && w.xdg_config_home == v.xdg_config_home ==> found
                == identity_path(current, requested, w, other)
            &&& requested matches Some(p) ==> (found is Ok <==> p.len() > 0)
            &&& requested is None && v.sops_age_key_file is Some ==> (found is Ok
                <==> v.sops_age_key_file->Some_0.len() > 0)
            &&& requested is None && v.sops_age_key_file is None && v.xdg_config_home is Some ==> (
            found is Ok <==> v.xdg_config_home->Some_0.len() > 0)
            &&& requested is None && v.sops_age_key_file is None && v.xdg_config_home is None
                && v.home is Some ==> (found is Ok <==> v.home->Some_0.len() > 0)
            &&& requested is None && v.sops_age_key_file is None && v.xdg_config_home is None
                && v.home is None ==> found is Err
            &&& found matches Err(e) ==> e.0 == ErrorCategory::Configuration
        }),
{
}

/// Law: a relative path is taken below its directory, with one separator between, and an
/// absolute one for itself.
pub proof fn law_paths_are_joined(directory: Seq<u8>, p: Seq<u8>)
    requires
        directory.len() > 0,
    ensures
        p.len() > 0 && p[0] == 47 ==> under(directory, p) == p,
        !(p.len() > 0 && p[0] == 47) ==> directory.is_prefix_of(under(directory, p)) && under(
            directory,
            p,
        ).skip(under(directory, p).len() - p.len()) == p && under(directory, p)[under(
            directory,
            p,
        ).len() - p.len() - 1] == 47 && under(directory, p).len() == directory.len() + p.len() + if
            directory.last() == 47 {
            0int
        } else {
            1
        },
{
    let r = under(directory, p);
    if !absolute(p) {
        assert(r.skip(r.len() - p.len()) =~= p);
    }
}

} // verus!
