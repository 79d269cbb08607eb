//! A baseline record.
//!
//! It captures the state of a managed pair at the last successful `open`, `seal`
//! or `resolve` as salted digests: one per sync unit plus one for the residual
//! layout. Digests answer only "changed or not"; no plaintext value is stored.

use vstd::prelude::*;
use vstd::string::StrSliceExecFns;

use crate::baseline::cipher;
use crate::baseline::cipher::CipherSummary;
use crate::baseline::unit;
use crate::baseline::unit::UnitView;
use crate::codec::hash;
use crate::codec::integer;
use crate::codec::json;
use crate::codec::json::{JsonTree, JsonValue};
use crate::codec::json_fields;
use crate::codec::json_typed;
use crate::envelope::layout_record;
use crate::segment;
use crate::source::document;
use crate::source::node;
use crate::source::SourceDocument;
use crate::text;
use crate::text_map;
use crate::text_map::TextMap;

verus! {

pub const VERSION: u32 = 1;

pub open spec fn key_domain() -> Seq<u8> {
    vstd::utf8::encode_utf8("gitveil-baseline-key-v1"@)
}

pub open spec fn layout_domain() -> Seq<u8> {
    vstd::utf8::encode_utf8("gitveil-baseline-layout-v1"@)
}

pub open spec fn cipher_domain() -> Seq<u8> {
    vstd::utf8::encode_utf8("gitveil-baseline-cipher-v1"@)
}

pub open spec fn cipher_layout_domain() -> Seq<u8> {
    vstd::utf8::encode_utf8("gitveil-baseline-cipher-layout-v1"@)
}

/// The digest of a unit.
pub open spec fn unit_digest(salt: Seq<u8>, key: Seq<char>, u: unit::UnitModel) -> Seq<char> {
    hash::digest_of(key_domain(), salt, vstd::utf8::encode_utf8(key), unit::unit_bytes(u))
}

/// The digest of the residual layout.
pub open spec fn residual_digest(salt: Seq<u8>, d: document::DocumentModel) -> Seq<char> {
    hash::digest_of(
        layout_domain(),
        salt,
        Seq::empty(),
        unit::record_bytes(layout_record::layout_json(unit::residual(d))),
    )
}

/// The digest of the fingerprint of an encrypted unit.
pub open spec fn cipher_digest(salt: Seq<u8>, name: Seq<char>, body: Seq<char>) -> Seq<char> {
    hash::digest_of(
        cipher_domain(),
        salt,
        vstd::utf8::encode_utf8(name),
        vstd::utf8::encode_utf8(body),
    )
}

/// The digest of the encrypted layout.
pub open spec fn cipher_layout_digest(salt: Seq<u8>, layout: Seq<char>) -> Seq<char> {
    hash::digest_of(cipher_layout_domain(), salt, Seq::empty(), vstd::utf8::encode_utf8(layout))
}

/// The digests of the first `n` units of a document.
pub open spec fn plain_digests(d: document::DocumentModel, salt: Seq<u8>, n: int) -> Seq<
    (Seq<char>, Seq<char>),
>
    decreases n,
{
    if n <= 0 || n > unit::unit_names(d).len() {
        Seq::empty()
    } else {
        let key = unit::unit_names(d)[n - 1];
        match unit::unit_at(d, key) {
            Some(u) => text_map::with_value(
                plain_digests(d, salt, n - 1),
                key,
                unit_digest(salt, key, u),
            ),
            None => plain_digests(d, salt, n - 1),
        }
    }
}

/// Every unit is found with its digest.
pub proof fn lemma_plain_digests(d: document::DocumentModel, salt: Seq<u8>, n: int, key: Seq<char>)
    requires
        0 <= n <= unit::unit_names(d).len(),
    ensures
        text_map::value_at(plain_digests(d, salt, n), key) == if unit::unit_names(d).take(
            n,
        ).contains(key) && unit::unit_at(d, key) is Some {
            Some(unit_digest(salt, key, unit::unit_at(d, key)->Some_0))
        } else {
            None
        },
    decreases n,
{
    let names = unit::unit_names(d);
    if n > 0 {
        lemma_plain_digests(d, salt, n - 1, key);
        let name = names[n - 1];
        assert(names.take(n) =~= names.take(n - 1).push(name));
        assert(names.take(n).contains(key) <==> names.take(n - 1).contains(key) || key == name)
            by {
            if names.take(n - 1).contains(key) {
                let head = names.take(n - 1);
                let k = choose|k: int| 0 <= k < head.len() && head[k] == key;
                assert(names.take(n)[k] == key);
            }
            if key == name {
                assert(names.take(n)[n - 1] == key);
            }
        }
        if unit::unit_at(d, name) is Some {
            text_map::lemma_value_put(
                plain_digests(d, salt, n - 1),
                name,
                unit_digest(salt, name, unit::unit_at(d, name)->Some_0),
                key,
            );
        }
    } else {
        assert(names.take(0) =~= Seq::<Seq<char>>::empty());
    }
}

/// Law: a record knows exactly the units of the document that it was made of, and
/// finds each of them unchanged.
pub proof fn law_record_knows_its_units(
    d: document::DocumentModel,
    c: cipher::CipherModel,
    salt: Seq<u8>,
    key: Seq<char>,
)
    ensures
        unit::unit_at(d, key) matches Some(u) ==> captured(d, c, salt).unit_match(
            key,
            Some(u),
        ) == Some(true),
        unit::unit_at(d, key) is None ==> forall|u: Option<unit::UnitModel>|
            (#[trigger] captured(d, c, salt).unit_match(key, u)) is None,
{
    hash::lemma_hex(salt);
    let names = unit::unit_names(d);
    lemma_plain_digests(d, salt, names.len() as int, key);
    assert(names.take(names.len() as int) =~= names);
    match d.root {
        node::Tree::Mapping(e) => {
            node::lemma_position(e, key);
        },
        _ => {
            assert(names[0] == "$"@);
        },
    }
}

/// The digests of every unit of a document.
pub open spec fn document_digests(d: document::DocumentModel, salt: Seq<u8>) -> Seq<
    (Seq<char>, Seq<char>),
> {
    plain_digests(d, salt, unit::unit_names(d).len() as int)
}

/// The digests of fingerprints.
pub open spec fn cipher_digests(units: Seq<(Seq<char>, Seq<char>)>, salt: Seq<u8>) -> Seq<
    (Seq<char>, Seq<char>),
>
    decreases units.len(),
{
    if units.len() == 0 {
        Seq::empty()
    } else {
        let (name, body) = units.last();
        text_map::with_value(
            cipher_digests(units.drop_last(), salt),
            name,
            cipher_digest(salt, name, body),
        )
    }
}

fn digest_plain(document: &SourceDocument, salt: &[u8]) -> (r: TextMap)
    ensures
        r@ == document_digests(document@, salt@),
{
    let names = unit::list_units(document);
    let domain = "gitveil-baseline-key-v1".as_bytes_vec();
    let mut out = TextMap::new();
    let mut i: usize = 0;
    while i < names.len()
        invariant
            text::texts(names@) == unit::unit_names(document@),
            domain@ == key_domain(),
            i <= names.len(),
            out@ == plain_digests(document@, salt@, i as int),
        decreases names.len() - i,
    {
        assert(unit::unit_names(document@)[i as int] == names@[i as int]@);
        match unit::unit_view(document, names[i].as_str()) {
            Some(view) => {
                let d = hash::digest(
                    domain.as_slice(),
                    salt,
                    names[i].as_str().as_bytes_vec().as_slice(),
                    unit::bytes_of_unit(&view).as_slice(),
                );
                out = out.with(names[i].as_str(), d);
            },
            None => {},
        }
        i = i + 1;
    }
    out
}

fn digest_residual(document: &SourceDocument, salt: &[u8]) -> (r: String)
    ensures
        r@ == residual_digest(salt@, document@),
{
    let domain = "gitveil-baseline-layout-v1".as_bytes_vec();
    let none: Vec<u8> = Vec::new();
    assert(none@ =~= Seq::<u8>::empty());
    hash::digest(
        domain.as_slice(),
        salt,
        none.as_slice(),
        unit::bytes_of_layout(&unit::residual_layout(document)).as_slice(),
    )
}

fn digest_cipher(cipher: &CipherSummary, salt: &[u8]) -> (r: TextMap)
    ensures
        r@ == cipher_digests(cipher@.units, salt@),
{
    let list = cipher.units().entries();
    let ghost all = cipher@.units;
    let domain = "gitveil-baseline-cipher-v1".as_bytes_vec();
    let mut out = TextMap::new();
    let mut i: usize = 0;
    while i < list.len()
        invariant
            all == text_map::views(list@),
            domain@ == cipher_domain(),
            i <= list.len(),
            out@ == cipher_digests(all.take(i as int), salt@),
        decreases list.len() - i,
    {
        assert(all.take(i + 1).drop_last() =~= all.take(i as int));
        assert(all.take(i + 1).last() == (list@[i as int].0@, list@[i as int].1@));
        let d = hash::digest(
            domain.as_slice(),
            salt,
            list[i].0.as_str().as_bytes_vec().as_slice(),
            list[i].1.as_str().as_bytes_vec().as_slice(),
        );
        out = out.with(list[i].0.as_str(), d);
        i = i + 1;
    }
    assert(all.take(i as int) =~= all);
    out
}

fn digest_cipher_layout(cipher: &CipherSummary, salt: &[u8]) -> (r: String)
    ensures
        r@ == cipher_layout_digest(salt@, cipher@.layout),
{
    let domain = "gitveil-baseline-cipher-layout-v1".as_bytes_vec();
    let none: Vec<u8> = Vec::new();
    assert(none@ =~= Seq::<u8>::empty());
    hash::digest(
        domain.as_slice(),
        salt,
        none.as_slice(),
        cipher.layout().as_bytes_vec().as_slice(),
    )
}

/// Directionless difference sets against the recorded baseline.
pub struct DiffModel {
    pub changed: Seq<Seq<char>>,
    pub added: Seq<Seq<char>>,
    pub removed: Seq<Seq<char>>,
    pub layout_changed: bool,
}

#[derive(Debug, PartialEq, Eq)]
pub struct BaselineDiff {
    pub changed: Vec<String>,
    pub added: Vec<String>,
    pub removed: Vec<String>,
    pub layout_changed: bool,
}

impl View for BaselineDiff {
    type V = DiffModel;

    open spec fn view(&self) -> DiffModel {
        DiffModel {
            changed: text::texts(self.changed@),
            added: text::texts(self.added@),
            removed: text::texts(self.removed@),
            layout_changed: self.layout_changed,
        }
    }
}

impl DiffModel {
    pub open spec fn empty(self) -> bool {
        self.changed.len() == 0 && self.added.len() == 0 && self.removed.len() == 0
            && !self.layout_changed
    }
}

impl Default for BaselineDiff {
    fn default() -> (r: BaselineDiff)
        ensures
            r@.empty(),
    {
        BaselineDiff {
            changed: Vec::new(),
            added: Vec::new(),
            removed: Vec::new(),
            layout_changed: false,
        }
    }
}

impl BaselineDiff {
    pub fn is_empty(&self) -> (r: bool)
        ensures
            r == self@.empty(),
    {
        self.changed.len() == 0 && self.added.len() == 0 && self.removed.len() == 0
            && !self.layout_changed
    }
}

/// The keys whose values differ.
pub open spec fn changed_keys(
    recorded: Seq<(Seq<char>, Seq<char>)>,
    current: Seq<(Seq<char>, Seq<char>)>,
) -> Seq<Seq<char>>
    decreases current.len(),
{
    if current.len() == 0 {
        Seq::empty()
    } else {
        let head = changed_keys(recorded, current.drop_last());
        let (key, value) = current.last();
        match text_map::value_at(recorded, key) {
            Some(old) => if old != value {
                head.push(key)
            } else {
                head
            },
            None => head,
        }
    }
}

/// The keys of one list that another does not hold.
pub open spec fn missing_keys(
    from: Seq<(Seq<char>, Seq<char>)>,
    list: Seq<(Seq<char>, Seq<char>)>,
) -> Seq<Seq<char>>
    decreases list.len(),
{
    if list.len() == 0 {
        Seq::empty()
    } else {
        let head = missing_keys(from, list.drop_last());
        if text_map::value_at(from, list.last().0) is None {
            head.push(list.last().0)
        } else {
            head
        }
    }
}

/// The difference between recorded and current digests.
pub open spec fn map_diff(
    recorded: Seq<(Seq<char>, Seq<char>)>,
    current: Seq<(Seq<char>, Seq<char>)>,
    layout_changed: bool,
) -> DiffModel {
    DiffModel {
        changed: changed_keys(recorded, current),
        added: missing_keys(recorded, current),
        removed: missing_keys(current, recorded),
        layout_changed,
    }
}

fn find_missing(from: &TextMap, list: &TextMap) -> (r: Vec<String>)
    ensures
        text::texts(r@) == missing_keys(from@, list@),
{
    let entries = list.entries();
    let ghost all = list@;
    let mut out: Vec<String> = Vec::new();
    let mut i: usize = 0;
    assert(text::texts(out@) =~= Seq::<Seq<char>>::empty());
    while i < entries.len()
        invariant
            all == text_map::views(entries@),
            i <= entries.len(),
            text::texts(out@) == missing_keys(from@, all.take(i as int)),
        decreases entries.len() - i,
    {
        assert(all.take(i + 1).drop_last() =~= all.take(i as int));
        assert(all.take(i + 1).last() == (entries@[i as int].0@, entries@[i as int].1@));
        if from.get(entries[i].0.as_str()).is_none() {
            let ghost before = out@;
            out.push(entries[i].0.clone());
            assert(text::texts(out@) =~= text::texts(before).push(entries@[i as int].0@));
        }
        i = i + 1;
    }
    assert(all.take(i as int) =~= all);
    out
}

fn find_changed(recorded: &TextMap, current: &TextMap) -> (r: Vec<String>)
    ensures
        text::texts(r@) == changed_keys(recorded@, current@),
{
    let entries = current.entries();
    let ghost all = current@;
    let mut out: Vec<String> = Vec::new();
    let mut i: usize = 0;
    assert(text::texts(out@) =~= Seq::<Seq<char>>::empty());
    while i < entries.len()
        invariant
            all == text_map::views(entries@),
            i <= entries.len(),
            text::texts(out@) == changed_keys(recorded@, all.take(i as int)),
        decreases entries.len() - i,
    {
        assert(all.take(i + 1).drop_last() =~= all.take(i as int));
        assert(all.take(i + 1).last() == (entries@[i as int].0@, entries@[i as int].1@));
        match recorded.get(entries[i].0.as_str()) {
            Some(old) => {
                if !text::eq(old.as_str(), entries[i].1.as_str()) {
                    let ghost before = out@;
                    out.push(entries[i].0.clone());
                    assert(text::texts(out@) =~= text::texts(before).push(entries@[i as int].0@));
                }
            },
            None => {},
        }
        i = i + 1;
    }
    assert(all.take(i as int) =~= all);
    out
}

fn diff_maps(recorded: &TextMap, current: &TextMap, layout_changed: bool) -> (r: BaselineDiff)
    ensures
        r@ == map_diff(recorded@, current@, layout_changed),
{
    BaselineDiff {
        changed: find_changed(recorded, current),
        added: find_missing(recorded, current),
        removed: find_missing(current, recorded),
        layout_changed,
    }
}

proof fn lemma_missing(e: Seq<(Seq<char>, Seq<char>)>, n: int)
    requires
        text_map::ordered(e),
        0 <= n <= e.len(),
    ensures
        missing_keys(e, e.take(n)).len() == 0,
        changed_keys(e, e.take(n)).len() == 0,
    decreases n,
{
    if n > 0 {
        lemma_missing(e, n - 1);
        assert(e.take(n).drop_last() =~= e.take(n - 1));
        text_map::lemma_value_at(e, n - 1);
    }
}

/// What a record holds.
pub struct RecordModel {
    pub salt: Seq<char>,
    pub keys: Seq<(Seq<char>, Seq<char>)>,
    pub layout: Seq<char>,
    pub cipher_units: Seq<(Seq<char>, Seq<char>)>,
    pub cipher_layout: Seq<char>,
}

#[derive(Debug, PartialEq, Eq)]
pub struct BaselineRecord {
    salt: String,
    keys: TextMap,
    layout: String,
    cipher_units: TextMap,
    cipher_layout: String,
}

impl View for BaselineRecord {
    type V = RecordModel;

    closed spec fn view(&self) -> RecordModel {
        RecordModel {
            salt: self.salt@,
            keys: self.keys@,
            layout: self.layout@,
            cipher_units: self.cipher_units@,
            cipher_layout: self.cipher_layout@,
        }
    }
}

impl Clone for BaselineRecord {
    fn clone(&self) -> (r: BaselineRecord)
        ensures
            r@ == self@,
    {
        proof {
            use_type_invariant(self);
        }
        BaselineRecord {
            salt: self.salt.clone(),
            keys: self.keys.clone(),
            layout: self.layout.clone(),
            cipher_units: self.cipher_units.clone(),
            cipher_layout: self.cipher_layout.clone(),
        }
    }
}

/// A text that holds a salt.
pub open spec fn salt_text(s: Seq<char>) -> bool {
    hash::hex_bytes(s) matches Some(bytes) && bytes.len() == 32
}

/// The record of a document and its ciphertext.
pub open spec fn captured(
    d: document::DocumentModel,
    c: cipher::CipherModel,
    salt: Seq<u8>,
) -> RecordModel {
    RecordModel {
        salt: hash::hex_text(salt),
        keys: document_digests(d, salt),
        layout: residual_digest(salt, d),
        cipher_units: cipher_digests(c.units, salt),
        cipher_layout: cipher_layout_digest(salt, c.layout),
    }
}

impl RecordModel {
    pub open spec fn salt_bytes(self) -> Seq<u8> {
        hash::hex_bytes(self.salt)->Some_0
    }

    /// Whether a unit is as it was recorded; `None` where it was not recorded.
    pub open spec fn unit_match(self, key: Seq<char>, u: Option<unit::UnitModel>) -> Option<bool> {
        match text_map::value_at(self.keys, key) {
            None => None,
            Some(digest) => match u {
                Some(u) => Some(unit_digest(self.salt_bytes(), key, u) == digest),
                None => Some(false),
            },
        }
    }

    pub open spec fn residual_match(self, d: document::DocumentModel) -> bool {
        residual_digest(self.salt_bytes(), d) == self.layout
    }

    pub open spec fn plain_diff(self, d: document::DocumentModel) -> DiffModel {
        map_diff(self.keys, document_digests(d, self.salt_bytes()), !self.residual_match(d))
    }

    pub open spec fn cipher_diff(self, c: cipher::CipherModel) -> DiffModel {
        map_diff(
            self.cipher_units,
            cipher_digests(c.units, self.salt_bytes()),
            cipher_layout_digest(self.salt_bytes(), c.layout) != self.cipher_layout,
        )
    }
}

/// A record tells the units and the residual layout of a document from those of
/// another: no unit that differs has the recorded digest.
pub open spec fn told_apart(
    b: RecordModel,
    base: document::DocumentModel,
    d: document::DocumentModel,
) -> bool {
    &&& forall|key: Seq<char>|
        unit::unit_at(d, key) != unit::unit_at(base, key) ==> #[trigger] b.unit_match(
            key,
            unit::unit_at(d, key),
        ) != Some(true)
    &&& unit::residual(d) != unit::residual(base) ==> !b.residual_match(d)
}

/// `rand::rng` and `fill_bytes`: 32 random bytes.
#[verifier::external_body]
fn random_salt() -> (r: [u8; 32]) {
    let mut salt = [0_u8; 32];
    rand::Rng::fill_bytes(&mut rand::rng(), &mut salt);
    salt
}

impl BaselineRecord {
    #[verifier::type_invariant]
    spec fn valid(self) -> bool {
        salt_text(self.salt@)
    }

    pub fn capture(document: &SourceDocument, cipher: &CipherSummary, salt: [u8; 32]) -> (r:
        BaselineRecord)
        ensures
            r@ == captured(document@, cipher@, salt@),
            r@.plain_diff(document@).empty(),
            r@.cipher_diff(cipher@).empty(),
    {
        let bytes = salt.as_slice();
        proof {
            hash::lemma_hex(salt@);
        }
        let r = BaselineRecord {
            salt: hash::hex_encode(bytes),
            keys: digest_plain(document, bytes),
            layout: digest_residual(document, bytes),
            cipher_units: digest_cipher(cipher, bytes),
            cipher_layout: digest_cipher_layout(cipher, bytes),
        };
        let _ = r.keys.entries();
        let _ = r.cipher_units.entries();
        proof {
            lemma_missing(r@.keys, r@.keys.len() as int);
            lemma_missing(r@.cipher_units, r@.cipher_units.len() as int);
            assert(r@.keys.take(r@.keys.len() as int) =~= r@.keys);
            assert(r@.cipher_units.take(r@.cipher_units.len() as int) =~= r@.cipher_units);
        }
        r
    }

    /// Captures a document under a fresh salt.
    pub fn capture_fresh(document: &SourceDocument, cipher: &CipherSummary) -> (r: BaselineRecord)
        ensures
            exists|salt: [u8; 32]| r@ == #[trigger] captured(document@, cipher@, salt@),
            r@.plain_diff(document@).empty(),
            r@.cipher_diff(cipher@).empty(),
    {
        BaselineRecord::capture(document, cipher, random_salt())
    }

    fn salt_bytes(&self) -> (r: Vec<u8>)
        ensures
            r@ == self@.salt_bytes(),
    {
        proof {
            use_type_invariant(self);
        }
        match hash::hex_decode(self.salt.as_str()) {
            Some(bytes) => bytes,
            None => {
                assert(false);
                Vec::new()
            },
        }
    }

    /// Answers whether `view` matches the recorded digest for `key`.
    ///
    /// Returns `None` when the key was not recorded, so callers can
    /// distinguish additions from modifications.
    pub fn unit_matches(&self, key: &str, view: Option<&UnitView>) -> (r: Option<bool>)
        ensures
            r == self@.unit_match(
                key@,
                match view {
                    Some(u) => Some(u@),
                    None => None,
                },
            ),
    {
        let recorded = match self.keys.get(key) {
            Some(recorded) => recorded,
            None => {
                return None;
            },
        };
        match view {
            Some(view) => {
                let salt = self.salt_bytes();
                let domain = "gitveil-baseline-key-v1".as_bytes_vec();
                let d = hash::digest(
                    domain.as_slice(),
                    salt.as_slice(),
                    key.as_bytes_vec().as_slice(),
                    unit::bytes_of_unit(view).as_slice(),
                );
                Some(text::eq(d.as_str(), recorded.as_str()))
            },
            None => Some(false),
        }
    }

    pub fn has_key(&self, key: &str) -> (r: bool)
        ensures
            r == (text_map::value_at(self@.keys, key@) is Some),
    {
        self.keys.get(key).is_some()
    }

    /// Answers whether the document's residual layout matches the record.
    pub fn residual_layout_matches(&self, document: &SourceDocument) -> (r: bool)
        ensures
            r == self@.residual_match(document@),
    {
        let salt = self.salt_bytes();
        text::eq(digest_residual(document, salt.as_slice()).as_str(), self.layout.as_str())
    }

    /// Diffs the current plaintext document against the recorded plain-side
    /// digests.
    pub fn diff_plain(&self, document: &SourceDocument) -> (r: BaselineDiff)
        ensures
            r@ == self@.plain_diff(document@),
    {
        let salt = self.salt_bytes();
        let current = digest_plain(document, salt.as_slice());
        diff_maps(&self.keys, &current, !self.residual_layout_matches(document))
    }

    /// Diffs the current ciphertext summary against the recorded cipher-side
    /// digests; needs no decryption.
    pub fn diff_cipher(&self, cipher: &CipherSummary) -> (r: BaselineDiff)
        ensures
            r@ == self@.cipher_diff(cipher@),
    {
        let salt = self.salt_bytes();
        let current = digest_cipher(cipher, salt.as_slice());
        let layout_changed: bool = !text::eq(
            digest_cipher_layout(cipher, salt.as_slice()).as_str(),
            self.cipher_layout.as_str(),
        );
        diff_maps(&self.cipher_units, &current, layout_changed)
    }
}

#[derive(Debug, PartialEq, Eq)]
pub enum BaselineError {
    Serialize(String),
    Deserialize(String),
    UnsupportedVersion(u32),
}

pub enum BaselineFault {
    Serialize(Seq<char>),
    Deserialize(Seq<char>),
    UnsupportedVersion(int),
}

impl View for BaselineError {
    type V = BaselineFault;

    open spec fn view(&self) -> BaselineFault {
        match self {
            BaselineError::Serialize(reason) => BaselineFault::Serialize(reason@),
            BaselineError::Deserialize(reason) => BaselineFault::Deserialize(reason@),
            BaselineError::UnsupportedVersion(n) => BaselineFault::UnsupportedVersion(*n as int),
        }
    }
}

impl BaselineFault {
    pub open spec fn text(self) -> Seq<char> {
        match self {
            BaselineFault::Serialize(reason) => "could not serialize baseline record: "@ + reason,
            BaselineFault::Deserialize(reason) => "could not deserialize baseline record: "@
                + reason,
            BaselineFault::UnsupportedVersion(n) => "unsupported baseline record version "@
                + segment::decimal(n as nat),
        }
    }
}

impl BaselineError {
    pub fn message(&self) -> (r: String)
        ensures
            r@ == self@.text(),
    {
        match self {
            BaselineError::Serialize(reason) => text::cat2(
                "could not serialize baseline record: ",
                reason.as_str(),
            ),
            BaselineError::Deserialize(reason) => text::cat2(
                "could not deserialize baseline record: ",
                reason.as_str(),
            ),
            BaselineError::UnsupportedVersion(n) => text::cat2(
                "unsupported baseline record version ",
                segment::decimal_u64(*n as u64).as_str(),
            ),
        }
    }
}

/// The JSON of a record.
pub open spec fn record_json(m: RecordModel) -> JsonTree {
    JsonTree::Object(
        seq![
            ("version"@, JsonTree::Number(segment::decimal(VERSION as nat))),
            ("salt"@, JsonTree::String(m.salt)),
            ("keys"@, JsonTree::Object(json::texts_json(m.keys))),
            ("layout"@, JsonTree::String(m.layout)),
            ("cipher_units"@, JsonTree::Object(json::texts_json(m.cipher_units))),
            ("cipher_layout"@, JsonTree::String(m.cipher_layout)),
        ],
    )
}

pub open spec fn record_names() -> Seq<Seq<char>> {
    seq!["version"@, "salt"@, "keys"@, "layout"@, "cipher_units"@, "cipher_layout"@]
}

/// The parts of a record as they were read; `None` where one is missing or of another
/// type.
pub struct PartsModel {
    pub version: Option<int>,
    pub salt: Option<Seq<char>>,
    pub keys: Option<Seq<(Seq<char>, Seq<char>)>>,
    pub layout: Option<Seq<char>>,
    pub cipher_units: Option<Seq<(Seq<char>, Seq<char>)>>,
    pub cipher_layout: Option<Seq<char>>,
}

/// The parts of a record as they were read.
pub struct RecordParts {
    pub version: Option<u32>,
    pub salt: Option<String>,
    pub keys: Option<Vec<(String, String)>>,
    pub layout: Option<String>,
    pub cipher_units: Option<Vec<(String, String)>>,
    pub cipher_layout: Option<String>,
}

pub open spec fn view_list(v: Option<Vec<(String, String)>>) -> Option<
    Seq<(Seq<char>, Seq<char>)>,
> {
    match v {
        Some(list) => Some(text_map::views(list@)),
        None => None,
    }
}

impl View for RecordParts {
    type V = PartsModel;

    open spec fn view(&self) -> PartsModel {
        PartsModel {
            version: match self.version {
                Some(n) => Some(n as int),
                None => None,
            },
            salt: text::view_option(self.salt),
            keys: view_list(self.keys),
            layout: text::view_option(self.layout),
            cipher_units: view_list(self.cipher_units),
            cipher_layout: text::view_option(self.cipher_layout),
        }
    }
}

/// The map of some entries; of a repeated key the last counts.
pub open spec fn collected(e: Seq<(Seq<char>, Seq<char>)>) -> Seq<(Seq<char>, Seq<char>)>
    decreases e.len(),
{
    if e.len() == 0 {
        Seq::empty()
    } else {
        text_map::with_value(collected(e.drop_last()), e.last().0, e.last().1)
    }
}

/// The record of its parts: all are there, the version is this one, and the salt is of
/// 32 bytes.
pub open spec fn assembled(p: PartsModel) -> Result<RecordModel, BaselineFault> {
    match (p.version, p.salt, p.keys, p.layout, p.cipher_units, p.cipher_layout) {
        (
            Some(version),
            Some(salt),
            Some(keys),
            Some(layout),
            Some(cipher_units),
            Some(cipher_layout),
        ) => if version != VERSION {
            Err(BaselineFault::UnsupportedVersion(version))
        } else if !salt_text(salt) {
            Err(BaselineFault::Deserialize("baseline salt is not 32 hexadecimal bytes"@))
        } else {
            Ok(
                RecordModel {
                    salt,
                    keys: collected(keys),
                    layout,
                    cipher_units: collected(cipher_units),
                    cipher_layout,
                },
            )
        },
        _ => Err(BaselineFault::Deserialize("baseline record does not follow its schema"@)),
    }
}

/// The texts of the six fields of a record, from the members of an object or, where the
/// text is no object, from the values of an array in order. `repeats` tells whether an
/// object is written with a field more than once, which is refused.
pub open spec fn fields_of(
    repeats: bool,
    object: Result<Seq<(Seq<char>, Seq<char>)>, Seq<char>>,
    list: Result<Seq<Seq<char>>, Seq<char>>,
) -> Result<Seq<Option<Seq<char>>>, BaselineFault> {
    let unfit = BaselineFault::Deserialize("baseline record does not follow its schema"@);
    match (object, list) {
        (Ok(m), _) => if !repeats && forall|i: int|
            0 <= i < m.len() ==> record_names().contains((#[trigger] m[i]).0) {
            Ok(record_names().map_values(|name: Seq<char>| text_map::value_at(m, name)))
        } else {
            Err(unfit)
        },
        (Err(_), Ok(a)) => if a.len() == 6 {
            Ok(a.map_values(|s: Seq<char>| Some(s)))
        } else {
            Err(unfit)
        },
        (Err(reason), Err(_)) => Err(BaselineFault::Deserialize(reason)),
    }
}

/// What the texts of the fields hold.
pub open spec fn parts_of(f: Seq<Option<Seq<char>>>) -> PartsModel {
    PartsModel {
        version: match f[0] {
            Some(s) => match json_typed::json_small(s) {
                Ok(n) => Some(n as int),
                Err(_) => None,
            },
            None => None,
        },
        salt: text_in(f[1]),
        keys: texts_in(f[2]),
        layout: text_in(f[3]),
        cipher_units: texts_in(f[4]),
        cipher_layout: text_in(f[5]),
    }
}

pub open spec fn text_in(f: Option<Seq<char>>) -> Option<Seq<char>> {
    match f {
        Some(s) => match json_typed::json_text(s) {
            Ok(v) => Some(v),
            Err(_) => None,
        },
        None => None,
    }
}

pub open spec fn texts_in(f: Option<Seq<char>>) -> Option<Seq<(Seq<char>, Seq<char>)>> {
    match f {
        Some(s) => match json_typed::json_texts(s) {
            Ok(v) => Some(v),
            Err(_) => None,
        },
        None => None,
    }
}

/// What the bytes of a record say.
pub open spec fn record_read(bytes: Seq<u8>) -> Result<RecordModel, BaselineFault> {
    if !vstd::utf8::valid_utf8(bytes) {
        Err(BaselineFault::Deserialize("baseline record is not UTF-8"@))
    } else {
        let s = vstd::utf8::decode_utf8(bytes);
        match fields_of(
            json_typed::repeats_field(s, record_names()),
            json_typed::json_object(s),
            json_typed::json_list(s),
        ) {
            Err(fault) => Err(fault),
            Ok(fields) => assembled(parts_of(fields)),
        }
    }
}

fn collect(list: &Vec<(String, String)>) -> (r: TextMap)
    ensures
        r@ == collected(text_map::views(list@)),
{
    let ghost e = text_map::views(list@);
    let mut out = TextMap::new();
    let mut i: usize = 0;
    while i < list.len()
        invariant
            e == text_map::views(list@),
            i <= list.len(),
            out@ == collected(e.take(i as int)),
        decreases list.len() - i,
    {
        assert(e.take(i + 1).drop_last() =~= e.take(i as int));
        assert(e.take(i + 1).last() == (list@[i as int].0@, list@[i as int].1@));
        out = out.with(list[i].0.as_str(), list[i].1.clone());
        i = i + 1;
    }
    assert(e.take(i as int) =~= e);
    out
}

fn list_record_names() -> (r: Vec<String>)
    ensures
        text::texts(r@) == record_names(),
{
    let r: Vec<String> = vec![
        "version".to_owned(),
        "salt".to_owned(),
        "keys".to_owned(),
        "layout".to_owned(),
        "cipher_units".to_owned(),
        "cipher_layout".to_owned(),
    ];
    assert(text::texts(r@) =~= record_names());
    r
}

fn is_record_name(name: &str) -> (r: bool)
    ensures
        r == record_names().contains(name@),
{
    let ghost all = record_names();
    assert(all[0] == "version"@ && all[1] == "salt"@ && all[2] == "keys"@ && all[3] == "layout"@
        && all[4] == "cipher_units"@ && all[5] == "cipher_layout"@);
    text::eq(name, "version") || text::eq(name, "salt") || text::eq(name, "keys") || text::eq(
        name,
        "layout",
    ) || text::eq(name, "cipher_units") || text::eq(name, "cipher_layout")
}

fn has_record_names(list: &Vec<(String, String)>) -> (r: bool)
    ensures
        r == (forall|i: int|
            0 <= i < list@.len() ==> record_names().contains(
                (#[trigger] text_map::views(list@)[i]).0,
            )),
{
    let ghost m = text_map::views(list@);
    let mut i: usize = 0;
    while i < list.len()
        invariant
            m == text_map::views(list@),
            i <= list.len(),
            forall|j: int| 0 <= j < i ==> record_names().contains((#[trigger] m[j]).0),
        decreases list.len() - i,
    {
        assert(m[i as int].0 == list@[i as int].0@);
        if !is_record_name(list[i].0.as_str()) {
            return false;
        }
        i = i + 1;
    }
    true
}

pub open spec fn view_fields(r: Result<Vec<Option<String>>, BaselineError>) -> Result<
    Seq<Option<Seq<char>>>,
    BaselineFault,
> {
    match r {
        Ok(v) => Ok(v@.map_values(|s: Option<String>| text::view_option(s))),
        Err(e) => Err(e@),
    }
}

fn schema_error() -> (r: BaselineError)
    ensures
        r@ == BaselineFault::Deserialize("baseline record does not follow its schema"@),
{
    BaselineError::Deserialize("baseline record does not follow its schema".to_owned())
}

pub open spec fn view_members(r: Result<Vec<(String, String)>, String>) -> Result<
    Seq<(Seq<char>, Seq<char>)>,
    Seq<char>,
> {
    match r {
        Ok(list) => Ok(text_map::views(list@)),
        Err(reason) => Err(reason@),
    }
}

pub open spec fn view_values(r: Result<Vec<String>, String>) -> Result<Seq<Seq<char>>, Seq<char>> {
    match r {
        Ok(list) => Ok(text::texts(list@)),
        Err(reason) => Err(reason@),
    }
}

/// Finds the fields of a record. `repeats` tells whether an object is written with a
/// field more than once.
pub fn find_fields(
    repeats: bool,
    object: Result<Vec<(String, String)>, String>,
    list: Result<Vec<String>, String>,
) -> (r: Result<Vec<Option<String>>, BaselineError>)
    ensures
        view_fields(r) == fields_of(repeats, view_members(object), view_values(list)),
        r matches Ok(v) ==> v@.len() == 6,
{
    match (object, list) {
        (Ok(m), _) => {
            if repeats || !has_record_names(&m) {
                return Err(schema_error());
            }
            let mut out: Vec<Option<String>> = Vec::new();
            out.push(json_typed::find_member(&m, "version"));
            out.push(json_typed::find_member(&m, "salt"));
            out.push(json_typed::find_member(&m, "keys"));
            out.push(json_typed::find_member(&m, "layout"));
            out.push(json_typed::find_member(&m, "cipher_units"));
            out.push(json_typed::find_member(&m, "cipher_layout"));
            assert(out@.map_values(|s: Option<String>| text::view_option(s))
                =~= record_names().map_values(
                |name: Seq<char>| text_map::value_at(text_map::views(m@), name),
            ));
            Ok(out)
        },
        (Err(_), Ok(a)) => {
            if a.len() != 6 {
                return Err(schema_error());
            }
            let mut out: Vec<Option<String>> = Vec::new();
            let mut i: usize = 0;
            while i < a.len()
                invariant
                    i <= a.len(),
                    out@.len() == i,
                    forall|j: int|
                        0 <= j < i ==> text::view_option(#[trigger] out@[j]) == Some(a@[j]@),
                decreases a.len() - i,
            {
                out.push(Some(a[i].clone()));
                i = i + 1;
            }
            assert(out@.map_values(|s: Option<String>| text::view_option(s)) =~= text::texts(
                a@,
            ).map_values(|s: Seq<char>| Some(s)));
            Ok(out)
        },
        (Err(reason), Err(_)) => Err(BaselineError::Deserialize(reason)),
    }
}

fn read_text(f: &Option<String>) -> (r: Option<String>)
    ensures
        text::view_option(r) == text_in(text::view_option(*f)),
{
    match f {
        Some(s) => match json_typed::read_text(s.as_str()) {
            Ok(v) => Some(v),
            Err(_) => None,
        },
        None => None,
    }
}

fn read_texts(f: &Option<String>) -> (r: Option<Vec<(String, String)>>)
    ensures
        view_list(r) == texts_in(text::view_option(*f)),
{
    match f {
        Some(s) => match json_typed::read_texts(s.as_str()) {
            Ok(v) => Some(v),
            Err(_) => None,
        },
        None => None,
    }
}

fn read_parts(f: &Vec<Option<String>>) -> (r: RecordParts)
    requires
        f@.len() == 6,
    ensures
        r@ == parts_of(f@.map_values(|s: Option<String>| text::view_option(s))),
{
    let version = match &f[0] {
        Some(s) => match json_typed::read_small(s.as_str()) {
            Ok(n) => Some(n),
            Err(_) => None,
        },
        None => None,
    };
    RecordParts {
        version,
        salt: read_text(&f[1]),
        keys: read_texts(&f[2]),
        layout: read_text(&f[3]),
        cipher_units: read_texts(&f[4]),
        cipher_layout: read_text(&f[5]),
    }
}

pub open spec fn view_record(r: Result<BaselineRecord, BaselineError>) -> Result<
    RecordModel,
    BaselineFault,
> {
    match r {
        Ok(record) => Ok(record@),
        Err(e) => Err(e@),
    }
}

fn map_value(map: &TextMap) -> (r: JsonValue)
    ensures
        r@ == JsonTree::Object(json::texts_json(map@)),
{
    let list = map.entries();
    let mut out: Vec<(String, JsonValue)> = Vec::new();
    let mut i: usize = 0;
    while i < list.len()
        invariant
            i <= list.len(),
            out@.len() == i,
            forall|j: int|
                0 <= j < i ==> (#[trigger] out@[j]).0@ == list@[j].0@ && out@[j].1@
                    == JsonTree::String(list@[j].1@),
        decreases list.len() - i,
    {
        out.push((list[i].0.clone(), JsonValue::String(list[i].1.clone())));
        i = i + 1;
    }
    let r = JsonValue::Object(out);
    proof {
        json::lemma_view(r);
        assert(json::members(out@) =~= json::texts_json(map@));
    }
    r
}

proof fn lemma_last_value(e: Seq<(Seq<char>, Seq<char>)>, key: Seq<char>, value: Seq<char>)
    requires
        text_map::ordered(e.push((key, value))),
    ensures
        text_map::with_value(e, key, value) == e.push((key, value)),
    decreases e.len(),
{
    let all = e.push((key, value));
    if e.len() > 0 {
        assert(text_map::less(all[0].0, all[e.len() as int].0));
        text_map::lemma_less_total(e[0].0, key);
        let rest = e.skip(1);
        let more = rest.push((key, value));
        assert forall|i: int, j: int| 0 <= i < j < more.len() implies text_map::less(
            (#[trigger] more[i]).0,
            (#[trigger] more[j]).0,
        ) by {
            assert(more[i] == all[i + 1] && more[j] == all[j + 1]);
        }
        lemma_last_value(rest, key, value);
        assert(seq![e[0]] + more =~= all);
    } else {
        assert(seq![(key, value)] =~= all);
    }
}

/// The map of ordered entries is these entries.
proof fn lemma_collected(e: Seq<(Seq<char>, Seq<char>)>)
    requires
        text_map::ordered(e),
    ensures
        collected(e) == e,
        json::names(json::texts_json(e)).no_duplicates(),
    decreases e.len(),
{
    let m = json::texts_json(e);
    assert forall|i: int, j: int| 0 <= i < j < m.len() implies json::names(m)[i] != json::names(
        m,
    )[j] by {
        assert(json::names(m)[i] == e[i].0 && json::names(m)[j] == e[j].0);
        text_map::lemma_less_total(e[i].0, e[j].0);
    }
    if e.len() > 0 {
        let head = e.drop_last();
        assert forall|i: int, j: int| 0 <= i < j < head.len() implies text_map::less(
            (#[trigger] head[i]).0,
            (#[trigger] head[j]).0,
        ) by {
            assert(head[i] == e[i] && head[j] == e[j]);
        }
        lemma_collected(head);
        assert(head.push((e.last().0, e.last().1)) =~= e);
        lemma_last_value(head, e.last().0, e.last().1);
    } else {
        assert(e =~= Seq::<(Seq<char>, Seq<char>)>::empty());
    }
}

proof fn lemma_record_names(m: RecordModel)
    ensures
        json::names(record_json(m)->Object_0) == record_names(),
        record_names().no_duplicates(),
{
    reveal_strlit("version");
    reveal_strlit("salt");
    reveal_strlit("keys");
    reveal_strlit("layout");
    reveal_strlit("cipher_units");
    reveal_strlit("cipher_layout");
    assert("version"@.len() == 7 && "salt"@.len() == 4 && "keys"@.len() == 4 && "layout"@.len() == 6
        && "cipher_units"@.len() == 12 && "cipher_layout"@.len() == 13);
    assert("salt"@[0] == 's' && "keys"@[0] == 'k');
    assert(json::names(record_json(m)->Object_0) =~= record_names());
    assert(record_names().no_duplicates());
}

/// The parts of a record as they are written.
pub open spec fn record_parts(m: RecordModel) -> PartsModel {
    PartsModel {
        version: Some(VERSION as int),
        salt: Some(m.salt),
        keys: Some(m.keys),
        layout: Some(m.layout),
        cipher_units: Some(m.cipher_units),
        cipher_layout: Some(m.cipher_layout),
    }
}

/// Law: the parts of a record are assembled to that record, and its JSON can be written.
pub proof fn law_record_is_assembled(m: RecordModel)
    requires
        salt_text(m.salt),
        text_map::ordered(m.keys),
        text_map::ordered(m.cipher_units),
    ensures
        assembled(record_parts(m)) == Ok::<RecordModel, BaselineFault>(m),
        json::well_named(record_json(m)),
        json::decimals(record_json(m)),
{
    let o = record_json(m)->Object_0;
    lemma_record_names(m);
    integer::lemma_decimal(VERSION as nat);
    assert(json::decimal_integer(segment::decimal(VERSION as nat)));
    lemma_collected(m.keys);
    lemma_collected(m.cipher_units);
    let (a, b) = (json::texts_json(m.keys), json::texts_json(m.cipher_units));
    assert forall|i: int| 0 <= i < a.len() implies json::well_named(#[trigger] a[i].1)
        && json::decimals(a[i].1) by {}
    assert forall|i: int| 0 <= i < b.len() implies json::well_named(#[trigger] b[i].1)
        && json::decimals(b[i].1) by {}
    assert(json::well_named(JsonTree::Object(a)) && json::decimals(JsonTree::Object(a)));
    assert(json::well_named(JsonTree::Object(b)) && json::decimals(JsonTree::Object(b)));
    assert forall|i: int| 0 <= i < o.len() implies json::well_named(#[trigger] o[i].1)
        && json::decimals(o[i].1) by {}
}

/// A list that holds as many entries as there are distinct names, and each of these
/// names, holds no other.
proof fn lemma_only_names(list: Seq<(Seq<char>, Seq<char>)>, all: Seq<Seq<char>>)
    requires
        all.no_duplicates(),
        list.len() == all.len(),
        forall|i: int| 0 <= i < all.len() ==> text_map::value_at(list, #[trigger] all[i]) is Some,
    ensures
        forall|i: int| 0 <= i < list.len() ==> all.contains((#[trigger] list[i]).0),
{
    let have = list.map_values(|x: (Seq<char>, Seq<char>)| x.0);
    all.unique_seq_to_set();
    have.lemma_cardinality_of_set();
    assert(all.to_set().subset_of(have.to_set())) by {
        assert forall|name: Seq<char>| all.to_set().contains(name) implies have.to_set().contains(
            name,
        ) by {
            let i = choose|i: int| 0 <= i < all.len() && all[i] == name;
            assert(text_map::value_at(list, all[i]) is Some);
            lemma_found(list, name);
        }
    }
    vstd::set_lib::lemma_len_subset(all.to_set(), have.to_set());
    vstd::set_lib::lemma_subset_equality(all.to_set(), have.to_set());
    assert forall|i: int| 0 <= i < list.len() implies all.contains((#[trigger] list[i]).0) by {
        assert(have[i] == list[i].0);
        assert(have.to_set().contains(list[i].0));
        assert(all.to_set().contains(list[i].0));
    }
}

proof fn lemma_found(list: Seq<(Seq<char>, Seq<char>)>, name: Seq<char>)
    requires
        text_map::value_at(list, name) is Some,
    ensures
        list.map_values(|x: (Seq<char>, Seq<char>)| x.0).contains(name),
    decreases list.len(),
{
    let have = list.map_values(|x: (Seq<char>, Seq<char>)| x.0);
    if list[0].0 == name {
        assert(have[0] == name);
    } else {
        let rest = list.skip(1);
        lemma_found(rest, name);
        let tail = rest.map_values(|x: (Seq<char>, Seq<char>)| x.0);
        let k = choose|k: int| 0 <= k < tail.len() && tail[k] == name;
        assert(have[k + 1] == tail[k]);
    }
}

/// A text from which the fields of a record are read is read as that record.
proof fn lemma_record_is_read(s: Seq<char>, m: RecordModel)
    requires
        salt_text(m.salt),
        text_map::ordered(m.keys),
        text_map::ordered(m.cipher_units),
        json::reads_typed(s, record_json(m)),
    ensures
        fields_of(
            json_typed::repeats_field(s, record_names()),
            json_typed::json_object(s),
            json_typed::json_list(s),
        ) matches Ok(fields) && assembled(parts_of(fields)) == Ok::<RecordModel, BaselineFault>(m),
{
    let o = record_json(m)->Object_0;
    let list = json_typed::json_object(s)->Ok_0;
    let all = record_names();
    lemma_record_names(m);
    law_record_is_assembled(m);
    assert forall|i: int| 0 <= i < all.len() implies text_map::value_at(
        list,
        #[trigger] all[i],
    ) == Some(json::json_written(o[i].1)) && json::reads_typed(
        json::json_written(o[i].1),
        o[i].1,
    ) by {
        assert(json::names(o)[i] == o[i].0);
    }
    lemma_only_names(list, all);
    json_fields::lemma_no_repeats(s, o, all);
    let fields = all.map_values(|name: Seq<char>| text_map::value_at(list, name));
    assert forall|i: int| 0 <= i < 6 implies #[trigger] fields[i] == Some(
        json::json_written(o[i].1),
    ) by {
        assert(fields[i] == text_map::value_at(list, all[i]));
    }
    assert(fields[0] is Some && fields[1] is Some && fields[2] is Some && fields[3] is Some
        && fields[4] is Some && fields[5] is Some);
    assert(all[0] == o[0].0 && all[1] == o[1].0 && all[2] == o[2].0 && all[3] == o[3].0 && all[4]
        == o[4].0 && all[5] == o[5].0);
    assert(o[2].1 == JsonTree::Object(json::texts_json(m.keys)));
    assert(o[4].1 == JsonTree::Object(json::texts_json(m.cipher_units)));
    assert(o[0].1 == JsonTree::Number(segment::decimal(VERSION as nat)));
    assert(parts_of(fields) == record_parts(m));
}

impl BaselineRecord {
    /// Makes a record of its parts as they were read.
    pub fn assemble(parts: RecordParts) -> (r: Result<BaselineRecord, BaselineError>)
        ensures
            view_record(r) == assembled(parts@),
    {
        match (
            parts.version,
            parts.salt,
            parts.keys,
            parts.layout,
            parts.cipher_units,
            parts.cipher_layout,
        ) {
            (
                Some(version),
                Some(salt),
                Some(keys),
                Some(layout),
                Some(cipher_units),
                Some(cipher_layout),
            ) => {
                if version != VERSION {
                    return Err(BaselineError::UnsupportedVersion(version));
                }
                let valid: bool = match hash::hex_decode(salt.as_str()) {
                    Some(bytes) => bytes.len() == 32,
                    None => false,
                };
                if !valid {
                    return Err(
                        BaselineError::Deserialize(
                            "baseline salt is not 32 hexadecimal bytes".to_owned(),
                        ),
                    );
                }
                let keys = collect(&keys);
                let cipher_units = collect(&cipher_units);
                Ok(BaselineRecord { salt, keys, layout, cipher_units, cipher_layout })
            },
            _ => Err(schema_error()),
        }
    }

    /// Writes the record. It is read back as this record, whatever its keys are.
    pub fn to_json(&self) -> (r: Result<Vec<u8>, BaselineError>)
        ensures
            r matches Ok(bytes) && bytes@ == vstd::utf8::encode_utf8(
                json::json_written(record_json(self@)),
            ) && record_read(bytes@) == Ok::<RecordModel, BaselineFault>(self@),
    {
        proof {
            use_type_invariant(self);
        }
        let _ = self.keys.entries();
        let _ = self.cipher_units.entries();
        let mut out: Vec<(String, JsonValue)> = Vec::new();
        out.push(json_fields::member_of("version", JsonValue::Number(segment::decimal_u64(VERSION as u64))));
        out.push(json_fields::member_of("salt", JsonValue::String(self.salt.clone())));
        out.push(json_fields::member_of("keys", map_value(&self.keys)));
        out.push(json_fields::member_of("layout", JsonValue::String(self.layout.clone())));
        out.push(json_fields::member_of("cipher_units", map_value(&self.cipher_units)));
        out.push(json_fields::member_of("cipher_layout", JsonValue::String(self.cipher_layout.clone())));
        let value = JsonValue::Object(out);
        proof {
            json::lemma_view(value);
            assert(json::members(out@) =~= record_json(self@)->Object_0);
            law_record_is_assembled(self@);
        }
        match json::write(&value) {
            Ok(s) => {
                proof {
                    vstd::utf8::encode_utf8_decode_utf8(s@);
                    vstd::utf8::encode_utf8_valid_utf8(s@);
                    lemma_record_is_read(s@, self@);
                }
                Ok(s.as_str().as_bytes_vec())
            },
            Err(reason) => Err(BaselineError::Serialize(reason)),
        }
    }

    /// Reads a record. Every digest in it was computed with a 32-byte salt; a
    /// record that does not carry one cannot arbitrate anything.
    pub fn from_json(bytes: &[u8]) -> (r: Result<BaselineRecord, BaselineError>)
        ensures
            view_record(r) == record_read(bytes@),
    {
        let s = match text::from_utf8(bytes) {
            Some(s) => s,
            None => {
                return Err(BaselineError::Deserialize("baseline record is not UTF-8".to_owned()));
            },
        };
        let object = json_typed::read_object(s.as_str());
        let list = json_typed::read_list(s.as_str());
        let fields = list_record_names();
        let repeats = json_typed::has_repeated(s.as_str(), fields.as_slice());
        match find_fields(repeats, object, list) {
            Ok(fields) => BaselineRecord::assemble(read_parts(&fields)),
            Err(error) => Err(error),
        }
    }
}

/// The file name of the record of a managed path.
pub open spec fn record_file(path: Seq<char>) -> Seq<char> {
    hash::hex_text(hash::sha256(vstd::utf8::encode_utf8(path))) + ".json"@
}

pub fn record_file_name(path: &crate::path::ManagedPath) -> (r: String)
    ensures
        r@ == record_file(path@),
{
    let digest = hash::sha256_of(path.as_str().as_bytes_vec().as_slice());
    text::cat2(hash::hex_encode(digest.as_slice()).as_str(), ".json")
}

} // verus!
