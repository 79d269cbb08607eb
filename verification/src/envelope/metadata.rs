//! The SOPS metadata of an envelope.

use vstd::prelude::*;

use crate::codec::yaml;
use crate::codec::yaml::{YamlTree, YamlValue};
use crate::envelope::encrypted;
use crate::envelope::fault::{EnvelopeError, EnvelopeFault};
use crate::recipient;
use crate::recipient::AgeRecipient;
use crate::text;

verus! {

pub open spec fn held(m: Seq<(YamlTree, YamlTree)>, key: Seq<char>) -> bool {
    yaml::entry_of(m, key) is Some
}

/// The text of an entry.
pub open spec fn text_at(m: Seq<(YamlTree, YamlTree)>, key: Seq<char>) -> Option<Seq<char>> {
    match yaml::entry_of(m, key) {
        Some(v) => yaml::text_of(v),
        None => None,
    }
}

/// Selectors that leave some scalars in plaintext.
pub open spec fn narrowed(m: Seq<(YamlTree, YamlTree)>) -> bool {
    held(m, "unencrypted_suffix"@) || held(m, "encrypted_suffix"@) || held(m, "unencrypted_regex"@)
        || held(m, "unencrypted_comment_regex"@) || held(m, "encrypted_comment_regex"@)
}

/// Key services other than age.
pub open spec fn foreign(m: Seq<(YamlTree, YamlTree)>) -> bool {
    held(m, "pgp"@) || held(m, "kms"@) || held(m, "gcp_kms"@) || held(m, "azure_kv"@) || held(
        m,
        "hc_vault"@,
    ) || held(m, "key_groups"@)
}

pub open spec fn invalid(reason: Seq<char>) -> EnvelopeFault {
    EnvelopeFault::InvalidMetadata(reason)
}

/// The recipient of one entry of the age metadata.
pub open spec fn entry_recipient(t: YamlTree, seen: Seq<Seq<char>>) -> Result<
    Seq<char>,
    EnvelopeFault,
> {
    match yaml::mapping_of(t) {
        None => Err(invalid("age recipient entry is invalid"@)),
        Some(m) => match text_at(m, "recipient"@) {
            None => Err(invalid("age recipient entry is missing recipient"@)),
            Some(name) => if text_at(m, "enc"@) is None || text_at(m, "enc"@)->Some_0.len() == 0 {
                Err(invalid("age recipient entry is missing encrypted data key"@))
            } else if recipient::recipient_fault(name) is Some {
                Err(invalid("age recipient is invalid"@))
            } else if seen.contains(name) {
                Err(invalid("age recipient metadata contains a duplicate"@))
            } else {
                Ok(name)
            },
        },
    }
}

/// The recipients of the first `n` entries of the age metadata.
pub open spec fn entry_recipients(s: Seq<YamlTree>, n: int) -> Result<
    Seq<Seq<char>>,
    EnvelopeFault,
>
    decreases n,
{
    if n <= 0 || n > s.len() {
        Ok(Seq::empty())
    } else {
        match entry_recipients(s, n - 1) {
            Err(fault) => Err(fault),
            Ok(head) => match entry_recipient(s[n - 1], head) {
                Err(fault) => Err(fault),
                Ok(name) => Ok(head.push(name)),
            },
        }
    }
}

/// The recipients that the metadata names, where it asks for the encryption of
/// every scalar, to age recipients alone.
pub open spec fn metadata_recipients(m: Seq<(YamlTree, YamlTree)>) -> Result<
    Seq<Seq<char>>,
    EnvelopeFault,
> {
    if !held(m, "mac"@) {
        Err(EnvelopeFault::MissingField("mac"@))
    } else if !held(m, "version"@) {
        Err(EnvelopeFault::MissingField("version"@))
    } else if !held(m, "lastmodified"@) {
        Err(EnvelopeFault::MissingField("lastmodified"@))
    } else if !held(m, "encrypted_regex"@) {
        Err(EnvelopeFault::MissingField("encrypted_regex"@))
    } else {
        match text_at(m, "mac"@) {
            None => Err(EnvelopeFault::MissingField("mac"@)),
            Some(mac) => if !encrypted::encrypted_scalar(mac) {
                Err(invalid("mac is not encrypted"@))
            } else {
                match text_at(m, "encrypted_regex"@) {
                    None => Err(EnvelopeFault::MissingField("encrypted_regex"@)),
                    Some(regex) => if regex != ".*"@ || narrowed(m) {
                        Err(EnvelopeFault::SelectorDrift)
                    } else if foreign(m) {
                        Err(invalid("only age recipient metadata is supported"@))
                    } else {
                        match yaml::entry_of(m, "age"@) {
                            None => Err(invalid("age recipient metadata is missing"@)),
                            Some(age) => match yaml::sequence_of(age) {
                                None => Err(invalid("age recipient metadata is missing"@)),
                                Some(s) => if s.len() == 0 {
                                    Err(invalid("age recipient metadata is empty"@))
                                } else {
                                    entry_recipients(s, s.len() as int)
                                },
                            },
                        }
                    },
                }
            },
        }
    }
}

fn holds(m: &Vec<(YamlValue, YamlValue)>, key: &str) -> (r: bool)
    ensures
        r == held(yaml::pairs(m@), key@),
{
    yaml::get(m, key).is_some()
}

pub open spec fn view_ref(s: Option<&String>) -> Option<Seq<char>> {
    match s {
        Some(s) => Some(s@),
        None => None,
    }
}

pub fn get_text<'a>(m: &'a Vec<(YamlValue, YamlValue)>, key: &str) -> (r: Option<&'a String>)
    ensures
        view_ref(r) == text_at(yaml::pairs(m@), key@),
{
    match yaml::get(m, key) {
        Some(v) => v.as_text(),
        None => None,
    }
}

fn is_narrowed(m: &Vec<(YamlValue, YamlValue)>) -> (r: bool)
    ensures
        r == narrowed(yaml::pairs(m@)),
{
    holds(m, "unencrypted_suffix") || holds(m, "encrypted_suffix") || holds(m, "unencrypted_regex")
        || holds(m, "unencrypted_comment_regex") || holds(m, "encrypted_comment_regex")
}

fn is_foreign(m: &Vec<(YamlValue, YamlValue)>) -> (r: bool)
    ensures
        r == foreign(yaml::pairs(m@)),
{
    holds(m, "pgp") || holds(m, "kms") || holds(m, "gcp_kms") || holds(m, "azure_kv") || holds(m, "hc_vault")
        || holds(m, "key_groups")
}

fn read_entry(t: &YamlValue, seen: &Vec<AgeRecipient>) -> (r: Result<AgeRecipient, EnvelopeError>)
    ensures
        match entry_recipient(t@, recipient::names(seen@)) {
            Ok(name) => r matches Ok(v) && v@ == name,
            Err(fault) => r matches Err(e) && e@ == fault,
        },
{
    let m = match t.as_mapping() {
        Some(m) => m,
        None => {
            return Err(EnvelopeError::InvalidMetadata("age recipient entry is invalid"));
        },
    };
    let name = match get_text(m, "recipient") {
        Some(name) => name,
        None => {
            return Err(
                EnvelopeError::InvalidMetadata("age recipient entry is missing recipient"),
            );
        },
    };
    let keyed: bool = match get_text(m, "enc") {
        Some(key) => text::chars_of(key.as_str()).len() > 0,
        None => false,
    };
    if !keyed {
        return Err(
            EnvelopeError::InvalidMetadata("age recipient entry is missing encrypted data key"),
        );
    }
    let recipient = match AgeRecipient::new(name.as_str()) {
        Ok(recipient) => recipient,
        Err(_) => {
            return Err(EnvelopeError::InvalidMetadata("age recipient is invalid"));
        },
    };
    if recipient::contains_recipient(seen.as_slice(), &recipient) {
        return Err(EnvelopeError::InvalidMetadata("age recipient metadata contains a duplicate"));
    }
    Ok(recipient)
}

proof fn lemma_recipients_fail(s: Seq<YamlTree>, n: int, k: int)
    requires
        0 <= n <= k <= s.len(),
        entry_recipients(s, n) is Err,
    ensures
        entry_recipients(s, k) == entry_recipients(s, n),
    decreases k,
{
    if n < k {
        lemma_recipients_fail(s, n, k - 1);
    }
}

fn read_entries(v: &Vec<YamlValue>) -> (r: Result<Vec<AgeRecipient>, EnvelopeError>)
    ensures
        match entry_recipients(yaml::items(v@), v@.len() as int) {
            Ok(list) => r matches Ok(out) && recipient::names(out@) == list,
            Err(fault) => r matches Err(e) && e@ == fault,
        },
{
    let ghost s = yaml::items(v@);
    let mut out: Vec<AgeRecipient> = Vec::new();
    let mut i: usize = 0;
    assert(recipient::names(out@) =~= Seq::<Seq<char>>::empty());
    while i < v.len()
        invariant
            s == yaml::items(v@),
            i <= v.len(),
            entry_recipients(s, i as int) == Ok::<Seq<Seq<char>>, EnvelopeFault>(
                recipient::names(out@),
            ),
        decreases v.len() - i,
    {
        assert(s[i as int] == v@[i as int]@);
        match read_entry(&v[i], &out) {
            Ok(recipient) => {
                let ghost before = out@;
                out.push(recipient);
                assert(recipient::names(out@) =~= recipient::names(before).push(recipient@));
            },
            Err(error) => {
                proof {
                    lemma_recipients_fail(s, i + 1, s.len() as int);
                }
                return Err(error);
            },
        }
        i = i + 1;
    }
    Ok(out)
}

/// Checks the metadata of an envelope.
pub fn validate_metadata(m: &Vec<(YamlValue, YamlValue)>) -> (r: Result<
    Vec<AgeRecipient>,
    EnvelopeError,
>)
    ensures
        match metadata_recipients(yaml::pairs(m@)) {
            Ok(list) => r matches Ok(v) && recipient::names(v@) == list,
            Err(fault) => r matches Err(e) && e@ == fault,
        },
{
    if !holds(m, "mac") {
        return Err(EnvelopeError::MissingField("mac"));
    }
    if !holds(m, "version") {
        return Err(EnvelopeError::MissingField("version"));
    }
    if !holds(m, "lastmodified") {
        return Err(EnvelopeError::MissingField("lastmodified"));
    }
    if !holds(m, "encrypted_regex") {
        return Err(EnvelopeError::MissingField("encrypted_regex"));
    }
    let mac = match get_text(m, "mac") {
        Some(mac) => mac,
        None => {
            return Err(EnvelopeError::MissingField("mac"));
        },
    };
    if !encrypted::is_encrypted_scalar(mac.as_str()) {
        return Err(EnvelopeError::InvalidMetadata("mac is not encrypted"));
    }
    let regex = match get_text(m, "encrypted_regex") {
        Some(regex) => regex,
        None => {
            return Err(EnvelopeError::MissingField("encrypted_regex"));
        },
    };
    if !text::eq(regex.as_str(), ".*") || is_narrowed(m) {
        return Err(EnvelopeError::SelectorDrift);
    }
    if is_foreign(m) {
        return Err(EnvelopeError::InvalidMetadata("only age recipient metadata is supported"));
    }
    let entries = match yaml::get(m, "age") {
        Some(age) => match age.as_sequence() {
            Some(entries) => entries,
            None => {
                return Err(EnvelopeError::InvalidMetadata("age recipient metadata is missing"));
            },
        },
        None => {
            return Err(EnvelopeError::InvalidMetadata("age recipient metadata is missing"));
        },
    };
    if entries.len() == 0 {
        return Err(EnvelopeError::InvalidMetadata("age recipient metadata is empty"));
    }
    read_entries(entries)
}

/// An entry of the age metadata names a recipient, and holds a data key for it.
pub open spec fn names_recipient(t: YamlTree, name: Seq<char>) -> bool {
    yaml::mapping_of(t) matches Some(m) && text_at(m, "recipient"@) == Some(name) && (text_at(
        m,
        "enc"@,
    ) matches Some(key) && key.len() > 0) && recipient::recipient_fault(name) is None
}

proof fn lemma_entry_recipients(s: Seq<YamlTree>, n: int)
    requires
        0 <= n <= s.len(),
    ensures
        entry_recipients(s, n) matches Ok(names) ==> names.len() == n && names.no_duplicates() && (
        forall|i: int| 0 <= i < n ==> names_recipient(s[i], #[trigger] names[i])),
        forall|names: Seq<Seq<char>>|
            #![trigger names.no_duplicates()]
            names.len() == n && names.no_duplicates() && (forall|i: int|
                0 <= i < n ==> names_recipient(s[i], #[trigger] names[i])) ==> entry_recipients(
                s,
                n,
            ) == Ok::<Seq<Seq<char>>, EnvelopeFault>(names),
    decreases n,
{
    if n > 0 {
        lemma_entry_recipients(s, n - 1);
        if entry_recipients(s, n) is Ok {
            let names = entry_recipients(s, n)->Ok_0;
            let head = entry_recipients(s, n - 1)->Ok_0;
            assert(head =~= names.drop_last());
            assert(!head.contains(names[n - 1]));
            assert forall|i: int, j: int| 0 <= i < names.len() && 0 <= j < names.len() && i
                != j implies names[i] != names[j] by {
                assert(i < n - 1 ==> head[i] == names[i]);
                assert(j < n - 1 ==> head[j] == names[j]);
            }
            assert forall|i: int| 0 <= i < n implies names_recipient(
                s[i],
                #[trigger] names[i],
            ) by {
                if i < n - 1 {
                    assert(head[i] == names[i]);
                }
            }
        }
        assert forall|names: Seq<Seq<char>>|
            #![trigger names.no_duplicates()]
            names.len() == n && names.no_duplicates() && (forall|i: int|
                0 <= i < n ==> names_recipient(
                    s[i],
                    #[trigger] names[i],
                )) implies entry_recipients(s, n) == Ok::<Seq<Seq<char>>, EnvelopeFault>(names) by {
            let head = names.drop_last();
            assert(head.no_duplicates());
            assert forall|i: int| 0 <= i < n - 1 implies names_recipient(
                s[i],
                #[trigger] head[i],
            ) by {
                assert(head[i] == names[i]);
            }
            assert(names_recipient(s[n - 1], names[n - 1]));
            if head.contains(names[n - 1]) {
                let i = choose|i: int| 0 <= i < head.len() && head[i] == names[n - 1];
                assert(names[i] == names[n - 1]);
            }
            assert(head.push(names[n - 1]) =~= names);
        }
    } else {
        assert forall|names: Seq<Seq<char>>| names.len() == 0 implies names == Seq::<
            Seq<char>,
        >::empty() by {
            assert(names =~= Seq::<Seq<char>>::empty());
        }
    }
}

/// Law: metadata is accepted, with the recipients that it names, exactly where it has an
/// encrypted code, a version and a time, asks for the encryption of everything with no
/// exception, names no key service but age, and has at least one recipient, each valid,
/// with a data key, and named once. The recipients come in the order of the entries.
pub proof fn law_accepted_metadata(m: Seq<(YamlTree, YamlTree)>, names: Seq<Seq<char>>)
    ensures
        metadata_recipients(m) == Ok::<Seq<Seq<char>>, EnvelopeFault>(names) <==> {
            &&& text_at(m, "mac"@) matches Some(mac) && encrypted::encrypted_scalar(mac)
            &&& held(m, "version"@)
            &&& held(m, "lastmodified"@)
            &&& text_at(m, "encrypted_regex"@) == Some(".*"@)
            &&& !held(m, "unencrypted_suffix"@)
            &&& !held(m, "encrypted_suffix"@)
            &&& !held(m, "unencrypted_regex"@)
            &&& !held(m, "unencrypted_comment_regex"@)
            &&& !held(m, "encrypted_comment_regex"@)
            &&& !held(m, "pgp"@)
            &&& !held(m, "kms"@)
            &&& !held(m, "gcp_kms"@)
            &&& !held(m, "azure_kv"@)
            &&& !held(m, "hc_vault"@)
            &&& !held(m, "key_groups"@)
            &&& names.len() > 0
            &&& names.no_duplicates()
            &&& yaml::entry_of(m, "age"@) matches Some(age) && (yaml::sequence_of(
                age,
            ) matches Some(s) && s.len() == names.len() && (forall|i: int|
                0 <= i < s.len() ==> names_recipient(s[i], #[trigger] names[i])))
        },
{
    if yaml::entry_of(m, "age"@) is Some {
        let age = yaml::entry_of(m, "age"@)->Some_0;
        if yaml::sequence_of(age) is Some {
            let s = yaml::sequence_of(age)->Some_0;
            lemma_entry_recipients(s, s.len() as int);
            assert(names.no_duplicates() || !names.no_duplicates());
        }
    }
}

} // verus!
