//! Managed-file profile names used to scope pair-oriented commands.

use vstd::prelude::*;

use crate::text;

verus! {

/// The longest profile name and policy name.
pub const NAME_MAX_LENGTH: usize = 64;

/// A lowercase kebab-case name of at most [`NAME_MAX_LENGTH`] characters.
pub open spec fn kebab_name(s: Seq<char>) -> bool {
    &&& 1 <= s.len() <= NAME_MAX_LENGTH
    &&& text::lowercase_letter(s[0])
    &&& forall|i: int|
        1 <= i < s.len() ==> text::lowercase_letter(s[i]) || text::digit(s[i]) || s[i] == '-'
}

pub fn is_kebab_name(value: &str) -> (r: bool)
    ensures
        r == kebab_name(value@),
{
    let s = text::chars_of(value);
    if s.len() == 0 || s.len() > NAME_MAX_LENGTH || !text::is_lowercase_letter(s[0]) {
        return false;
    }
    let mut i: usize = 1;
    while i < s.len()
        invariant
            s@ == value@,
            1 <= i <= s.len(),
            forall|j: int|
                1 <= j < i ==> text::lowercase_letter(s@[j]) || text::digit(s@[j]) || s@[j] == '-',
        decreases s.len() - i,
    {
        if !(text::is_lowercase_letter(s[i]) || text::is_digit(s[i]) || s[i] == '-') {
            return false;
        }
        i = i + 1;
    }
    true
}

/// A validated manifest profile name.
///
/// Profiles are selection labels only. They do not alter ciphertext,
/// recipients, baselines, or plaintext paths.
#[derive(Debug, PartialEq, Eq, Hash, PartialOrd, Ord)]
pub struct ProfileName {
    name: String,
}

impl View for ProfileName {
    type V = Seq<char>;

    closed spec fn view(&self) -> Seq<char> {
        self.name@
    }
}

impl Clone for ProfileName {
    fn clone(&self) -> (r: ProfileName)
        ensures
            r@ == self@,
    {
        proof {
            use_type_invariant(self);
        }
        ProfileName { name: self.name.clone() }
    }
}

impl Default for ProfileName {
    fn default() -> (r: ProfileName)
        ensures
            r@ == "default"@,
    {
        proof {
            reveal_strlit("default");
        }
        ProfileName { name: "default".to_owned() }
    }
}

impl ProfileName {
    #[verifier::type_invariant]
    spec fn valid(self) -> bool {
        kebab_name(self.name@)
    }

    pub fn new(value: &str) -> (r: Result<ProfileName, ProfileError>)
        ensures
            r.is_ok() == kebab_name(value@),
            r matches Ok(profile) ==> profile@ == value@,
            r matches Err(ProfileError::InvalidName(text)) ==> text@ == value@,
    {
        if is_kebab_name(value) {
            Ok(ProfileName { name: value.to_owned() })
        } else {
            Err(ProfileError::InvalidName(value.to_owned()))
        }
    }

    pub fn as_str(&self) -> (r: &str)
        ensures
            r@ == self@,
            kebab_name(self@),
    {
        proof {
            use_type_invariant(self);
        }
        self.name.as_str()
    }
}

#[derive(Debug, PartialEq, Eq)]
pub enum ProfileError {
    InvalidName(String),
}

impl ProfileError {
    pub fn message(&self) -> (r: String)
        ensures
            self matches ProfileError::InvalidName(value) ==> r@ == "invalid profile name "@
                + text::quoted(value@) + "; expected ^[a-z][a-z0-9-]{0,63}$"@,
    {
        match self {
            ProfileError::InvalidName(value) => {
                let shown = text::debug_quoted(value.as_str());
                text::cat3(
                    "invalid profile name ",
                    shown.as_str(),
                    "; expected ^[a-z][a-z0-9-]{0,63}$",
                )
            },
        }
    }
}

/// Law: a name has at most sixty-four characters, all of them lower-case letters of ASCII,
/// digits or hyphens, and begins with a letter; whatever part of a name stands at its front is
/// a name again.
pub proof fn law_names_are_kebab_case(s: Seq<char>, n: int)
    ensures
        kebab_name(s) ==> s.len() <= 64 && 'a' <= s[0] <= 'z' && forall|i: int|
            0 <= i < s.len() ==> ('a' <= #[trigger] s[i] <= 'z' || '0' <= s[i] <= '9' || s[i]
                == '-'),
        kebab_name(s) && 0 < n <= s.len() ==> kebab_name(s.take(n)),
        s.len() > 0 && s.len() <= 64 && (forall|i: int|
            0 <= i < s.len() ==> 'a' <= #[trigger] s[i] <= 'z') ==> kebab_name(s),
        kebab_name(s) && s.len() < 64 ==> kebab_name(s.push('-')) && kebab_name(s.push('0')),
{
    if kebab_name(s) && 0 < n <= s.len() {
        assert(forall|i: int| 0 <= i < n ==> s.take(n)[i] == s[i]);
    }
    if kebab_name(s) && s.len() < 64 {
        assert(forall|i: int| 0 <= i < s.len() ==> s.push('-')[i] == s[i]);
        assert(forall|i: int| 0 <= i < s.len() ==> s.push('0')[i] == s[i]);
    }
}

} // verus!
