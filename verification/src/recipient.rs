//! Age-recipient values shared by the manifest, the envelope, and the plans.

use bech32::primitives::decode::CheckedHrpstring;
use bech32::{Bech32, Hrp};
use vstd::prelude::*;

use crate::profile;
use crate::text;

verus! {

/// The length of an X25519 public key, which an age recipient encodes.
pub const X25519_PUBLIC_KEY_BYTES: usize = 32;

/// The human-readable part, in lower case, and the payload of a Bech32 string
/// with a valid checksum.
pub uninterp spec fn bech32_parts(s: Seq<char>) -> Option<(Seq<char>, Seq<u8>)>;

/// `bech32::primitives::decode::CheckedHrpstring::new` with the Bech32 checksum,
/// then the human-readable part and the payload of what it parsed.
#[verifier::external_body]
fn bech32_decode(s: &str) -> (r: Option<(String, Vec<u8>)>)
    ensures
        view_parts(r) == bech32_parts(s@),
{
    match CheckedHrpstring::new::<Bech32>(s) {
        Ok(parsed) => Some((parsed.hrp().to_lowercase(), parsed.byte_iter().collect())),
        Err(_) => None,
    }
}

/// The lowercase Bech32 string for a human-readable part and a payload, where
/// there is one.
pub uninterp spec fn bech32_string(hrp: Seq<char>, payload: Seq<u8>) -> Option<Seq<char>>;

/// `bech32::encode` with the Bech32 checksum.
#[verifier::external_body]
fn bech32_encode(hrp: &str, payload: &[u8]) -> (r: Option<String>)
    ensures
        text::view_option(r) == bech32_string(hrp@, payload@),
{
    match Hrp::parse(hrp) {
        Ok(hrp) => bech32::encode::<Bech32>(hrp, payload).ok(),
        Err(_) => None,
    }
}

pub open spec fn view_parts(parts: Option<(String, Vec<u8>)>) -> Option<(Seq<char>, Seq<u8>)> {
    match parts {
        Some((hrp, payload)) => Some((hrp@, payload@)),
        None => None,
    }
}

#[derive(Clone, Copy, Debug, PartialEq, Eq, Structural)]
pub enum RecipientError {
    InvalidPolicyName,
    InvalidAgeRecipient,
    NonCanonicalAgeRecipient,
    EmptyPolicy,
    DuplicateAgeRecipient,
}

impl RecipientError {
    pub open spec fn text(self) -> Seq<char> {
        match self {
            RecipientError::InvalidPolicyName =>
                "policy name must be lowercase kebab-case and at most 64 bytes"@,
            RecipientError::InvalidAgeRecipient => "age recipient is invalid"@,
            RecipientError::NonCanonicalAgeRecipient =>
                "age recipient must use its canonical lowercase encoding"@,
            RecipientError::EmptyPolicy =>
                "age recipient policy must contain at least one recipient"@,
            RecipientError::DuplicateAgeRecipient =>
                "age recipient policy contains a duplicate recipient"@,
        }
    }

    pub fn message(self) -> (r: &'static str)
        ensures
            r@ == self.text(),
    {
        match self {
            RecipientError::InvalidPolicyName =>
                "policy name must be lowercase kebab-case and at most 64 bytes",
            RecipientError::InvalidAgeRecipient => "age recipient is invalid",
            RecipientError::NonCanonicalAgeRecipient =>
                "age recipient must use its canonical lowercase encoding",
            RecipientError::EmptyPolicy =>
                "age recipient policy must contain at least one recipient",
            RecipientError::DuplicateAgeRecipient =>
                "age recipient policy contains a duplicate recipient",
        }
    }
}

/// The verdict on a recipient, given what its Bech32 decoding holds and the
/// canonical encoding of that payload.
pub open spec fn encoding_fault(
    value: Seq<char>,
    decoded: Option<(Seq<char>, Seq<u8>)>,
    canonical: Option<Seq<char>>,
) -> Option<RecipientError> {
    if value != text::lowered(value) {
        Some(RecipientError::NonCanonicalAgeRecipient)
    } else if !(decoded matches Some((hrp, payload)) && hrp == "age"@ && payload.len()
        == X25519_PUBLIC_KEY_BYTES) {
        Some(RecipientError::InvalidAgeRecipient)
    } else if canonical is None {
        Some(RecipientError::InvalidAgeRecipient)
    } else if canonical != Some(value) {
        Some(RecipientError::NonCanonicalAgeRecipient)
    } else {
        None
    }
}

/// The canonical encoding of what was decoded.
pub open spec fn canonical_of(decoded: Option<(Seq<char>, Seq<u8>)>) -> Option<Seq<char>> {
    match decoded {
        Some((_, payload)) => bech32_string("age"@, payload),
        None => None,
    }
}

/// What is wrong with the text of a recipient, if anything is.
pub open spec fn recipient_fault(value: Seq<char>) -> Option<RecipientError> {
    encoding_fault(value, bech32_parts(value), canonical_of(bech32_parts(value)))
}

/// Judges the text of a recipient by its decoding and the canonical encoding of
/// the decoded payload.
pub fn check_encoding(
    value: &str,
    decoded: &Option<(String, Vec<u8>)>,
    canonical: &Option<String>,
) -> (r: Option<RecipientError>)
    ensures
        r == encoding_fault(value@, view_parts(*decoded), text::view_option(*canonical)),
{
    let s = text::chars_of(value);
    let mut i: usize = 0;
    while i < s.len()
        invariant
            s@ == value@,
            i <= s.len(),
            forall|j: int| 0 <= j < i ==> text::lower(s@[j]) == s@[j],
        decreases s.len() - i,
    {
        if text::to_lower(s[i]) != s[i] {
            assert(text::lowered(value@)[i as int] != value@[i as int]);
            return Some(RecipientError::NonCanonicalAgeRecipient);
        }
        i = i + 1;
    }
    assert(text::lowered(value@) =~= value@);
    match decoded {
        None => {
            return Some(RecipientError::InvalidAgeRecipient);
        },
        Some(parts) => {
            if !text::eq(parts.0.as_str(), "age") || parts.1.len() != X25519_PUBLIC_KEY_BYTES {
                return Some(RecipientError::InvalidAgeRecipient);
            }
        },
    }
    match canonical {
        None => Some(RecipientError::InvalidAgeRecipient),
        Some(canonical) => if text::eq(canonical.as_str(), value) {
            None
        } else {
            Some(RecipientError::NonCanonicalAgeRecipient)
        },
    }
}

/// The public key of an age identity, in its canonical encoding.
#[derive(Debug, PartialEq, Eq, Hash, PartialOrd, Ord)]
pub struct AgeRecipient {
    text: String,
}

impl View for AgeRecipient {
    type V = Seq<char>;

    closed spec fn view(&self) -> Seq<char> {
        self.text@
    }
}

impl Clone for AgeRecipient {
    fn clone(&self) -> (r: AgeRecipient)
        ensures
            r@ == self@,
    {
        proof {
            use_type_invariant(self);
        }
        AgeRecipient { text: self.text.clone() }
    }
}

impl AgeRecipient {
    #[verifier::type_invariant]
    spec fn valid(self) -> bool {
        recipient_fault(self.text@) is None
    }

    /// Age recipients are Bech32, never Bech32m. Re-encoding the payload is what
    /// rejects a data part whose trailing bits are not zero.
    pub fn new(value: &str) -> (r: Result<AgeRecipient, RecipientError>)
        ensures
            r.is_ok() == (recipient_fault(value@) is None),
            r matches Ok(recipient) ==> recipient@ == value@,
            r matches Err(error) ==> recipient_fault(value@) == Some(error),
    {
        let decoded = bech32_decode(value);
        let canonical = match &decoded {
            Some(parts) => bech32_encode("age", parts.1.as_slice()),
            None => None,
        };
        match check_encoding(value, &decoded, &canonical) {
            Some(error) => Err(error),
            None => Ok(AgeRecipient { text: value.to_owned() }),
        }
    }

    pub fn as_str(&self) -> (r: &str)
        ensures
            r@ == self@,
            recipient_fault(self@) is None,
    {
        proof {
            use_type_invariant(self);
        }
        self.text.as_str()
    }

    pub fn same(&self, other: &AgeRecipient) -> (r: bool)
        ensures
            r == (self@ == other@),
    {
        text::eq(self.text.as_str(), other.text.as_str())
    }
}

/// The texts of a list of recipients.
pub open spec fn names(v: Seq<AgeRecipient>) -> Seq<Seq<char>> {
    v.map_values(|r: AgeRecipient| r@)
}

/// The recipients that a list holds.
pub open spec fn recipient_set(v: Seq<AgeRecipient>) -> Set<Seq<char>> {
    names(v).to_set()
}

pub fn contains_recipient(list: &[AgeRecipient], item: &AgeRecipient) -> (r: bool)
    ensures
        r == names(list@).contains(item@),
        r == recipient_set(list@).contains(item@),
{
    let mut i: usize = 0;
    while i < list.len()
        invariant
            i <= list.len(),
            forall|j: int| 0 <= j < i ==> list@[j]@ != item@,
        decreases list.len() - i,
    {
        if list[i].same(item) {
            assert(names(list@)[i as int] == item@);
            return true;
        }
        i = i + 1;
    }
    assert forall|j: int| 0 <= j < names(list@).len() implies names(list@)[j] != item@ by {
        assert(list@[j]@ != item@);
    }
    false
}

pub fn clone_recipients(list: &[AgeRecipient]) -> (r: Vec<AgeRecipient>)
    ensures
        names(r@) == names(list@),
{
    let mut out: Vec<AgeRecipient> = Vec::new();
    let mut i: usize = 0;
    while i < list.len()
        invariant
            i <= list.len(),
            out@.len() == i,
            forall|j: int| 0 <= j < i ==> out@[j]@ == list@[j]@,
        decreases list.len() - i,
    {
        out.push(list[i].clone());
        i = i + 1;
    }
    assert(names(out@) =~= names(list@));
    out
}

/// Whether two lists hold the same recipients, whatever their order.
pub fn same_recipients(a: &[AgeRecipient], b: &[AgeRecipient]) -> (r: bool)
    ensures
        r == (recipient_set(a@) == recipient_set(b@)),
{
    let d = set_diff(a, b);
    proof {
        lemma_finite(a@);
        lemma_finite(b@);
        lemma_set_diff(recipient_set(a@), recipient_set(b@));
    }
    d.is_empty()
}

proof fn lemma_finite(v: Seq<AgeRecipient>)
    ensures
        recipient_set(v).finite(),
{
    vstd::seq_lib::seq_to_set_is_finite(names(v));
}

/// Two finite sets are equal exactly if neither holds anything beyond the other.
proof fn lemma_set_diff(a: Set<Seq<char>>, b: Set<Seq<char>>)
    requires
        a.finite(),
        b.finite(),
    ensures
        (a.difference(b).len() == 0 && b.difference(a).len() == 0) == (a == b),
{
    if a.difference(b).len() == 0 && b.difference(a).len() == 0 {
        assert forall|x: Seq<char>| a.contains(x) == b.contains(x) by {
            assert(!a.difference(b).contains(x));
            assert(!b.difference(a).contains(x));
        }
        assert(a =~= b);
    } else if a == b {
        assert(a.difference(b) =~= Set::<Seq<char>>::empty());
        assert(b.difference(a) =~= Set::<Seq<char>>::empty());
    }
}

/// The number of distinct recipients of `a` that `b` lacks.
fn count_beyond(a: &[AgeRecipient], b: &[AgeRecipient]) -> (n: usize)
    ensures
        n == recipient_set(a@).difference(recipient_set(b@)).len(),
        n <= a.len(),
{
    let mut n: usize = 0;
    let mut i: usize = 0;
    let ghost other = recipient_set(b@);
    assert(names(a@.take(0)).to_set() =~= Set::<Seq<char>>::empty());
    assert(Set::<Seq<char>>::empty().difference(other) =~= Set::<Seq<char>>::empty());
    while i < a.len()
        invariant
            i <= a.len(),
            n <= i,
            other == recipient_set(b@),
            n == recipient_set(a@.take(i as int)).difference(other).len(),
            recipient_set(a@.take(i as int)).finite(),
        decreases a.len() - i,
    {
        let ghost now = recipient_set(a@.take(i as int));
        let ghost next = recipient_set(a@.take(i + 1));
        let ghost x = a@[i as int]@;
        proof {
            assert(names(a@.take(i + 1)) =~= names(a@.take(i as int)).push(x));
            assert(next =~= now.insert(x)) by {
                broadcast use vstd::seq_lib::group_seq_properties;

            }
        }
        let seen = contains_before(a, i, &a[i]);
        if !contains_recipient(b, &a[i]) && !seen {
            n = n + 1;
            assert(next.difference(other) =~= now.difference(other).insert(x));
        } else if seen {
            assert(next =~= now);
        } else {
            assert(next.difference(other) =~= now.difference(other));
        }
        i = i + 1;
    }
    assert(a@.take(i as int) =~= a@);
    n
}

fn contains_before(list: &[AgeRecipient], end: usize, item: &AgeRecipient) -> (r: bool)
    requires
        end <= list.len(),
    ensures
        r == recipient_set(list@.take(end as int)).contains(item@),
        r == exists|j: int| 0 <= j < end && list@[j]@ == item@,
{
    let mut i: usize = 0;
    while i < end
        invariant
            i <= end <= list.len(),
            forall|j: int| 0 <= j < i ==> list@[j]@ != item@,
        decreases end - i,
    {
        if list[i].same(item) {
            assert(names(list@.take(end as int))[i as int] == item@);
            return true;
        }
        i = i + 1;
    }
    assert forall|j: int| 0 <= j < end implies names(list@.take(end as int))[j] != item@ by {
        assert(list@[j]@ != item@);
    }
    false
}

/// How the recipients of `actual` differ from those of `desired`.
pub fn set_diff(desired: &[AgeRecipient], actual: &[AgeRecipient]) -> (r: RecipientSetDiff)
    ensures
        r == recipient_diff(recipient_set(desired@), recipient_set(actual@)),
        r.added == recipient_set(desired@).difference(recipient_set(actual@)).len(),
        r.removed == recipient_set(actual@).difference(recipient_set(desired@)).len(),
{
    RecipientSetDiff { added: count_beyond(desired, actual), removed: count_beyond(actual, desired) }
}

/// A name of a recipient policy.
#[derive(Debug, PartialEq, Eq, Hash, PartialOrd, Ord)]
pub struct PolicyName {
    name: String,
}

impl View for PolicyName {
    type V = Seq<char>;

    closed spec fn view(&self) -> Seq<char> {
        self.name@
    }
}

impl Clone for PolicyName {
    fn clone(&self) -> (r: PolicyName)
        ensures
            r@ == self@,
    {
        proof {
            use_type_invariant(self);
        }
        PolicyName { name: self.name.clone() }
    }
}

impl PolicyName {
    #[verifier::type_invariant]
    spec fn valid(self) -> bool {
        profile::kebab_name(self.name@)
    }

    pub fn new(value: &str) -> (r: Result<PolicyName, RecipientError>)
        ensures
            r.is_ok() == profile::kebab_name(value@),
            r matches Ok(name) ==> name@ == value@,
            r matches Err(error) ==> error == RecipientError::InvalidPolicyName,
    {
        if profile::is_kebab_name(value) {
            Ok(PolicyName { name: value.to_owned() })
        } else {
            Err(RecipientError::InvalidPolicyName)
        }
    }

    pub fn as_str(&self) -> (r: &str)
        ensures
            r@ == self@,
            profile::kebab_name(self@),
    {
        proof {
            use_type_invariant(self);
        }
        self.name.as_str()
    }

    pub fn same(&self, other: &PolicyName) -> (r: bool)
        ensures
            r == (self@ == other@),
    {
        text::eq(self.name.as_str(), other.name.as_str())
    }
}

/// A named, non-empty list of distinct recipients.
#[derive(Debug, PartialEq, Eq)]
pub struct AgeRecipientPolicy {
    name: PolicyName,
    recipients: Vec<AgeRecipient>,
}

/// What a policy holds: its name and its recipients in order.
pub struct PolicyModel {
    pub name: Seq<char>,
    pub recipients: Seq<Seq<char>>,
}

impl View for AgeRecipientPolicy {
    type V = PolicyModel;

    closed spec fn view(&self) -> PolicyModel {
        PolicyModel { name: self.name@, recipients: names(self.recipients@) }
    }
}

/// What keeps a list of recipients from being a policy, if anything does.
pub open spec fn policy_fault(recipients: Seq<Seq<char>>) -> Option<RecipientError> {
    if recipients.len() == 0 {
        Some(RecipientError::EmptyPolicy)
    } else if !recipients.no_duplicates() {
        Some(RecipientError::DuplicateAgeRecipient)
    } else {
        None
    }
}

/// Every text is a recipient.
pub open spec fn all_recipients(list: Seq<Seq<char>>) -> bool {
    forall|i: int| 0 <= i < list.len() ==> recipient_fault(#[trigger] list[i]) is None
}

impl Clone for AgeRecipientPolicy {
    fn clone(&self) -> (r: AgeRecipientPolicy)
        ensures
            r@ == self@,
    {
        proof {
            use_type_invariant(self);
        }
        AgeRecipientPolicy {
            name: self.name.clone(),
            recipients: clone_recipients(self.recipients.as_slice()),
        }
    }
}

impl AgeRecipientPolicy {
    #[verifier::type_invariant]
    spec fn valid(self) -> bool {
        policy_fault(names(self.recipients@)) is None && all_recipients(names(self.recipients@))
    }

    pub fn new(name: PolicyName, recipients: Vec<AgeRecipient>) -> (r: Result<
        AgeRecipientPolicy,
        RecipientError,
    >)
        ensures
            r.is_ok() == (policy_fault(names(recipients@)) is None),
            r matches Ok(policy) ==> policy@ == (PolicyModel {
                name: name@,
                recipients: names(recipients@),
            }),
            r matches Err(error) ==> policy_fault(names(recipients@)) == Some(error),
    {
        if recipients.len() == 0 {
            return Err(RecipientError::EmptyPolicy);
        }
        let mut i: usize = 0;
        while i < recipients.len()
            invariant
                recipients@.len() > 0,
                i <= recipients.len(),
                forall|j: int| 0 <= j < i ==> recipient_fault((#[trigger] recipients@[j])@) is None,
                forall|j: int, k: int|
                    0 <= j < k < i ==> (#[trigger] recipients@[j])@ != (#[trigger] recipients@[k])@,
            decreases recipients.len() - i,
        {
            let item = &recipients[i];
            proof {
                use_type_invariant(item);
            }
            if contains_before(recipients.as_slice(), i, item) {
                let ghost j = choose|j: int| 0 <= j < i && recipients@[j]@ == recipients@[i as int]@;
                assert(names(recipients@)[j] == names(recipients@)[i as int]);
                return Err(RecipientError::DuplicateAgeRecipient);
            }
            i = i + 1;
        }
        assert(names(recipients@).no_duplicates());
        Ok(AgeRecipientPolicy { name, recipients })
    }

    pub fn name(&self) -> (r: &PolicyName)
        ensures
            r@ == self@.name,
    {
        &self.name
    }

    pub fn recipients(&self) -> (r: &[AgeRecipient])
        ensures
            names(r@) == self@.recipients,
            policy_fault(self@.recipients) is None,
            all_recipients(self@.recipients),
    {
        proof {
            use_type_invariant(self);
        }
        self.recipients.as_slice()
    }

    /// Whether an envelope with the recipients `actual` follows the policy.
    pub fn matches(&self, actual: &[AgeRecipient]) -> (r: bool)
        ensures
            r == (self@.recipients.to_set() == recipient_set(actual@)),
    {
        same_recipients(self.recipients.as_slice(), actual)
    }

    pub fn diff(&self, actual: &[AgeRecipient]) -> (r: RecipientSetDiff)
        ensures
            r == recipient_diff(self@.recipients.to_set(), recipient_set(actual@)),
            r.added == self@.recipients.to_set().difference(recipient_set(actual@)).len(),
            r.removed == recipient_set(actual@).difference(self@.recipients.to_set()).len(),
            r.empty() == (self@.recipients.to_set() == recipient_set(actual@)),
    {
        proof {
            lemma_finite(self.recipients@);
            lemma_finite(actual@);
            lemma_set_diff(self@.recipients.to_set(), recipient_set(actual@));
        }
        set_diff(self.recipients.as_slice(), actual)
    }
}

/// How many recipients a set lacks of, and has beyond, a desired set.
#[derive(Clone, Copy, Debug, PartialEq, Eq, Structural)]
pub struct RecipientSetDiff {
    pub added: usize,
    pub removed: usize,
}

pub open spec fn recipient_diff(desired: Set<Seq<char>>, actual: Set<Seq<char>>) -> RecipientSetDiff {
    RecipientSetDiff {
        added: desired.difference(actual).len() as usize,
        removed: actual.difference(desired).len() as usize,
    }
}

impl Default for RecipientSetDiff {
    fn default() -> (r: RecipientSetDiff)
        ensures
            r == (RecipientSetDiff { added: 0, removed: 0 }),
    {
        RecipientSetDiff { added: 0, removed: 0 }
    }
}

/// How an envelope's recipient set is brought to a policy.
#[derive(Clone, Copy, Debug, PartialEq, Eq, Structural)]
pub enum RecipientAction {
    /// The sets already agree.
    Aligned,
    /// Only additions are needed: the same data key is rewrapped and every
    /// encrypted leaf stays byte-for-byte stable.
    Rewrap,
    /// The envelope carries a recipient outside the policy. Exclusion is only
    /// real under a data key the removed party cannot unwrap, so the envelope
    /// must be re-encrypted under a fresh one.
    Rotate,
}

impl RecipientSetDiff {
    pub open spec fn empty(self) -> bool {
        self.added == 0 && self.removed == 0
    }

    /// Any removal forces a fresh data key; additions alone rewrap.
    pub open spec fn calls_for(self) -> RecipientAction {
        if self.removed > 0 {
            RecipientAction::Rotate
        } else if self.added > 0 {
            RecipientAction::Rewrap
        } else {
            RecipientAction::Aligned
        }
    }

    pub fn is_empty(self) -> (r: bool)
        ensures
            r == self.empty(),
    {
        self.added == 0 && self.removed == 0
    }

    pub fn action(self) -> (r: RecipientAction)
        ensures
            r == self.calls_for(),
    {
        if self.removed > 0 {
            RecipientAction::Rotate
        } else if self.added > 0 {
            RecipientAction::Rewrap
        } else {
            RecipientAction::Aligned
        }
    }
}

/// Law: a difference of two sets calls for a fresh data key exactly where the actual set has
/// a recipient that is not desired, for rewrapping exactly where it only lacks some, and for
/// nothing exactly where the sets agree.
pub proof fn law_differences_call_for_their_action(desired: Set<Seq<char>>, actual: Set<Seq<char>>)
    requires
        desired.finite(),
        actual.finite(),
        desired.len() <= usize::MAX,
        actual.len() <= usize::MAX,
    ensures
        ({
            let action = recipient_diff(desired, actual).calls_for();
            let extra = exists|x: Seq<char>| #[trigger] actual.contains(x) && !desired.contains(x);
            let lacking = exists|x: Seq<char>| #[trigger]
                desired.contains(x) && !actual.contains(x);
            &&& action == RecipientAction::Rotate <==> extra
            &&& action == RecipientAction::Rewrap <==> lacking && !extra
            &&& action == RecipientAction::Aligned <==> desired == actual
            &&& recipient_diff(desired, actual).empty() <==> desired == actual
        }),
{
    lemma_counted(desired, actual);
    lemma_counted(actual, desired);
    if desired.difference(actual).len() == 0 && actual.difference(desired).len() == 0 {
        assert(desired =~= actual);
    }
}

proof fn lemma_counted(a: Set<Seq<char>>, b: Set<Seq<char>>)
    requires
        a.finite(),
        a.len() <= usize::MAX,
    ensures
        a.difference(b).len() <= usize::MAX,
        a.difference(b).len() > 0 <==> exists|x: Seq<char>| #[trigger]
            a.contains(x) && !b.contains(x),
        a.difference(b).len() == 0 ==> forall|x: Seq<char>| a.contains(x) ==> b.contains(x),
{
    let d = a.difference(b);
    vstd::set_lib::lemma_len_subset(d, a);
    if d.len() == 0 {
        assert(d =~= Set::empty());
        assert forall|x: Seq<char>| a.contains(x) implies b.contains(x) by {
            assert(!d.contains(x));
        }
    } else {
        let x = d.choose();
        assert(d.contains(x)) by {
            if !d.contains(x) {
                assert(d =~= Set::empty());
            }
        }
        assert(a.contains(x) && !b.contains(x));
    }
}

/// Law: a text is a recipient exactly where it is in lower case, is the encoding of a public
/// key of the right length under the name of age, and is the text that this key is encoded to.
pub proof fn law_recipients_are_canonical(value: Seq<char>)
    ensures
        recipient_fault(value) is None <==> {
            &&& forall|i: int| 0 <= i < value.len() ==> text::lower(#[trigger] value[i]) == value[i]
            &&& bech32_parts(value) matches Some((hrp, payload)) && hrp == "age"@ && payload.len()
                == 32 && bech32_string("age"@, payload) == Some(value)
        },
{
    if forall|i: int| 0 <= i < value.len() ==> text::lower(#[trigger] value[i]) == value[i] {
        assert(text::lowered(value) =~= value);
    }
    if text::lowered(value) == value {
        assert forall|i: int| 0 <= i < value.len() implies text::lower(#[trigger] value[i])
            == value[i] by {
            assert(text::lowered(value)[i] == text::lower(value[i]));
        }
    }
}

} // verus!
