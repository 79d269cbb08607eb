//! Repository-relative paths of managed files.

use unicode_normalization::UnicodeNormalization;
use vstd::prelude::*;

use crate::segment;
use crate::text;

verus! {

#[derive(Clone, Copy, Debug, PartialEq, Eq, Structural)]
pub enum PathError {
    Empty,
    GitPathspecMagic,
    NotRepositoryRelative,
    NotNormalized,
    GitMetadata,
    AttributePattern,
    ControlCharacter,
}

impl PathError {
    pub open spec fn text(self) -> Seq<char> {
        match self {
            PathError::Empty => "managed path is empty"@,
            PathError::GitPathspecMagic => "managed path must not begin with Git pathspec magic ':'"@,
            PathError::NotRepositoryRelative =>
                "managed path must be repository-relative and use '/' separators"@,
            PathError::NotNormalized => "managed path is not normalized"@,
            PathError::GitMetadata => "managed path may not reference Git metadata"@,
            PathError::AttributePattern =>
                "managed path contains Git attribute pattern metacharacters"@,
            PathError::ControlCharacter => "managed path contains a control character"@,
        }
    }

    pub fn message(self) -> (r: &'static str)
        ensures
            r@ == self.text(),
    {
        match self {
            PathError::Empty => "managed path is empty",
            PathError::GitPathspecMagic => "managed path must not begin with Git pathspec magic ':'",
            PathError::NotRepositoryRelative =>
                "managed path must be repository-relative and use '/' separators",
            PathError::NotNormalized => "managed path is not normalized",
            PathError::GitMetadata => "managed path may not reference Git metadata",
            PathError::AttributePattern =>
                "managed path contains Git attribute pattern metacharacters",
            PathError::ControlCharacter => "managed path contains a control character",
        }
    }
}

pub open spec fn pattern_character(c: char) -> bool {
    c == '*' || c == '?' || c == '[' || c == ']'
}

/// What is wrong with one component of a path, if anything is.
pub open spec fn component_fault(c: Seq<char>) -> Option<PathError> {
    if c.len() == 0 || c == "."@ || c == ".."@ {
        Some(PathError::NotNormalized)
    } else if text::lowered(c) == ".git"@ {
        Some(PathError::GitMetadata)
    } else if exists|i: int| 0 <= i < c.len() && pattern_character(#[trigger] c[i]) {
        Some(PathError::AttributePattern)
    } else {
        None
    }
}

/// What is wrong with the first faulty component.
pub open spec fn components_fault(parts: Seq<Seq<char>>) -> Option<PathError>
    decreases parts.len(),
{
    if parts.len() == 0 {
        None
    } else if component_fault(parts[0]) is Some {
        component_fault(parts[0])
    } else {
        components_fault(parts.skip(1))
    }
}

/// What is wrong with a path, if anything is.
pub open spec fn path_fault(s: Seq<char>) -> Option<PathError> {
    if s.len() == 0 {
        Some(PathError::Empty)
    } else if s[0] == ':' {
        Some(PathError::GitPathspecMagic)
    } else if s[0] == '/' || s[0] == '!' || s.contains('\\') {
        Some(PathError::NotRepositoryRelative)
    } else if s.last() == '/' || text::contains(s, "//"@) {
        Some(PathError::NotNormalized)
    } else if exists|i: int| 0 <= i < s.len() && text::control(#[trigger] s[i]) {
        Some(PathError::ControlCharacter)
    } else {
        components_fault(segment::split(s, '/'))
    }
}

/// A path that a managed file can have.
pub open spec fn valid_path(s: Seq<char>) -> bool {
    path_fault(s) is None
}

fn check_component(c: &Vec<char>) -> (r: Option<PathError>)
    ensures
        r == component_fault(c@),
{
    if c.len() == 0 || text::eq_chars(c.as_slice(), text::chars_of(".").as_slice())
        || text::eq_chars(c.as_slice(), text::chars_of("..").as_slice()) {
        return Some(PathError::NotNormalized);
    }
    let mut low: Vec<char> = Vec::new();
    let mut pattern: bool = false;
    let mut i: usize = 0;
    while i < c.len()
        invariant
            i <= c.len(),
            low@ == text::lowered(c@.take(i as int)),
            pattern == exists|j: int| 0 <= j < i && pattern_character(#[trigger] c@[j]),
        decreases c.len() - i,
    {
        if c[i] == '*' || c[i] == '?' || c[i] == '[' || c[i] == ']' {
            pattern = true;
            assert(pattern_character(c@[i as int]));
        }
        low.push(text::to_lower(c[i]));
        i = i + 1;
        assert(low@ =~= text::lowered(c@.take(i as int)));
    }
    assert(c@.take(i as int) =~= c@);
    if text::eq_chars(low.as_slice(), text::chars_of(".git").as_slice()) {
        return Some(PathError::GitMetadata);
    }
    if pattern {
        return Some(PathError::AttributePattern);
    }
    None
}

fn check_components(parts: &Vec<Vec<char>>) -> (r: Option<PathError>)
    ensures
        r == components_fault(text::pieces(parts@)),
{
    let mut i: usize = 0;
    let ghost all = text::pieces(parts@);
    assert(all.skip(0) =~= all);
    while i < parts.len()
        invariant
            all == text::pieces(parts@),
            i <= parts.len(),
            components_fault(all.skip(i as int)) == components_fault(all),
        decreases parts.len() - i,
    {
        let fault = check_component(&parts[i]);
        assert(all.skip(i as int)[0] == parts@[i as int]@);
        if fault.is_some() {
            return fault;
        }
        assert(all.skip(i as int).skip(1) =~= all.skip(i + 1));
        i = i + 1;
    }
    None
}

#[verifier::loop_isolation(false)]
fn check_path(value: &str) -> (r: Option<PathError>)
    ensures
        r == path_fault(value@),
{
    let s = text::chars_of(value);
    if s.len() == 0 {
        return Some(PathError::Empty);
    }
    if s[0] == ':' {
        return Some(PathError::GitPathspecMagic);
    }
    if s[0] == '/' || s[0] == '!' || text::has_char(s.as_slice(), '\\') {
        return Some(PathError::NotRepositoryRelative);
    }
    if s[s.len() - 1] == '/' || text::has(s.as_slice(), text::chars_of("//").as_slice()) {
        return Some(PathError::NotNormalized);
    }
    let mut i: usize = 0;
    while i < s.len()
        invariant
            i <= s.len(),
            forall|j: int| 0 <= j < i ==> !text::control(#[trigger] s@[j]),
        decreases s.len() - i,
    {
        if text::is_control(s[i]) {
            assert(text::control(s@[i as int]));
            return Some(PathError::ControlCharacter);
        }
        i = i + 1;
    }
    check_components(&segment::split_at_char(s.as_slice(), '/'))
}

/// Without a fault each component is without one, and the other way round.
proof fn lemma_components(parts: Seq<Seq<char>>)
    ensures
        components_fault(parts) is None <==> forall|i: int|
            0 <= i < parts.len() ==> component_fault(#[trigger] parts[i]) is None,
    decreases parts.len(),
{
    if parts.len() > 0 {
        let rest = parts.skip(1);
        lemma_components(rest);
        assert forall|i: int| 1 <= i < parts.len() implies parts[i] == #[trigger] rest[i - 1] by {}
        if components_fault(parts) is None {
            assert forall|i: int| 0 <= i < parts.len() implies component_fault(
                #[trigger] parts[i],
            ) is None by {
                if i > 0 {
                    assert(parts[i] == rest[i - 1]);
                }
            }
        }
        if forall|i: int| 0 <= i < parts.len() ==> component_fault(#[trigger] parts[i]) is None {
            assert forall|i: int| 0 <= i < rest.len() implies component_fault(
                #[trigger] rest[i],
            ) is None by {
                assert(rest[i] == parts[i + 1]);
            }
            assert(component_fault(parts[0]) is None);
        }
    }
}

/// Law: a managed path leads into the repository and not out of it again: it is
/// relative, no component of it goes up or stays, and none is the metadata of Git.
pub proof fn law_managed_paths_stay_inside(s: Seq<char>)
    requires
        valid_path(s),
    ensures
        s.len() > 0,
        s[0] != '/',
        forall|i: int|
            0 <= i < segment::split(s, '/').len() ==> (#[trigger] segment::split(s, '/')[i]).len()
                > 0 && segment::split(s, '/')[i] != "."@ && segment::split(s, '/')[i] != ".."@
                && text::lowered(segment::split(s, '/')[i]) != ".git"@,
{
    let parts = segment::split(s, '/');
    lemma_components(parts);
    assert forall|i: int| 0 <= i < parts.len() implies (#[trigger] parts[i]).len() > 0
        && parts[i] != "."@ && parts[i] != ".."@ && text::lowered(parts[i]) != ".git"@ by {
        assert(component_fault(parts[i]) is None);
    }
}

/// The suffix that names a ciphertext file beside its plaintext file.
pub open spec fn ciphertext_suffix() -> Seq<char> {
    ".gitveil"@
}

/// Law: the ciphertext beside a managed file has a path that a managed file can have.
pub proof fn law_ciphertext_path_is_valid(s: Seq<char>)
    requires
        valid_path(s),
    ensures
        valid_path(s + ciphertext_suffix()),
{
    let t = ciphertext_suffix();
    reveal_strlit(".gitveil");
    reveal_strlit(".");
    reveal_strlit("..");
    reveal_strlit(".git");
    reveal_strlit("//");
    let w = s + t;
    assert(t =~= seq!['.', 'g', 'i', 't', 'v', 'e', 'i', 'l']);
    assert(w[0] == s[0]);
    assert(w.last() == 'l');
    assert(!w.contains('\\')) by {
        if w.contains('\\') {
            let i = choose|i: int| 0 <= i < w.len() && w[i] == '\\';
            if i < s.len() {
                assert(s[i] == '\\');
            } else {
                assert(t[i - s.len()] == '\\');
            }
        }
    }
    assert(!text::contains(w, "//"@)) by {
        if text::contains(w, "//"@) {
            let i = choose|i: int| text::occurs_at(w, "//"@, i);
            let two = w.subrange(i, i + 2);
            assert(two[0] == '/' && two[1] == '/');
            assert(w[i] == '/' && w[i + 1] == '/');
            if i + 2 <= s.len() {
                assert(s.subrange(i, i + 2) =~= two);
                assert(text::occurs_at(s, "//"@, i));
            } else {
                assert(w[i + 1] == t[i + 1 - s.len()]);
            }
        }
    }
    assert forall|i: int| 0 <= i < w.len() implies !text::control(#[trigger] w[i]) by {
        if i < s.len() {
            assert(!text::control(s[i]));
        } else {
            assert(w[i] == t[i - s.len()]);
        }
    }
    assert(!t.contains('/'));
    segment::lemma_split_append(s, t, '/');
    let parts = segment::split(s, '/');
    let longer = segment::split(w, '/');
    lemma_components(parts);
    lemma_components(longer);
    assert forall|i: int| 0 <= i < longer.len() implies component_fault(
        #[trigger] longer[i],
    ) is None by {
        if i < longer.len() - 1 {
            assert(longer[i] == parts[i]);
        } else {
            let c = parts.last();
            let d = longer[i];
            assert(component_fault(parts[parts.len() - 1]) is None);
            assert(d == c + t);
            assert(d.len() >= 9);
            assert(text::lowered(d).len() == d.len());
            assert forall|k: int| 0 <= k < d.len() implies !pattern_character(#[trigger] d[k]) by {
                if k < c.len() {
                    assert(!pattern_character(c[k]));
                } else {
                    assert(d[k] == t[k - c.len()]);
                }
            }
        }
    }
}

/// The canonical composition of a text, Unicode normalization form C.
pub uninterp spec fn composed(s: Seq<char>) -> Seq<char>;

/// `unicode_normalization::UnicodeNormalization::nfc`, collected into a string.
#[verifier::external_body]
fn nfc(s: &str) -> (r: String)
    ensures
        r@ == composed(s@),
{
    s.nfc().collect::<String>()
}

/// The lower case of a text by the Unicode mapping, with its context rules.
pub uninterp spec fn unicode_lowercase(s: Seq<char>) -> Seq<char>;

/// `str::to_lowercase`.
#[verifier::external_body]
fn to_lowercase(s: &str) -> (r: String)
    ensures
        r@ == unicode_lowercase(s@),
{
    s.to_lowercase()
}

/// The text under which paths are compared where case and Unicode
/// normalization do not tell files apart.
pub open spec fn collision_key(s: Seq<char>) -> Seq<char> {
    unicode_lowercase(composed(s))
}

/// A repository-relative, normalized path that Git takes literally.
#[derive(Debug, PartialEq, Eq, Hash)]
pub struct ManagedPath {
    text: String,
}

impl View for ManagedPath {
    type V = Seq<char>;

    closed spec fn view(&self) -> Seq<char> {
        self.text@
    }
}

impl Clone for ManagedPath {
    fn clone(&self) -> (r: ManagedPath)
        ensures
            r@ == self@,
    {
        proof {
            use_type_invariant(self);
        }
        ManagedPath { text: self.text.clone() }
    }
}

impl ManagedPath {
    #[verifier::type_invariant]
    spec fn valid(self) -> bool {
        valid_path(self.text@)
    }

    pub fn new(value: &str) -> (r: Result<ManagedPath, PathError>)
        ensures
            r.is_ok() == valid_path(value@),
            r matches Ok(path) ==> path@ == value@,
            r matches Err(error) ==> path_fault(value@) == Some(error),
    {
        match check_path(value) {
            Some(error) => Err(error),
            None => Ok(ManagedPath { text: value.to_owned() }),
        }
    }

    pub fn as_str(&self) -> (r: &str)
        ensures
            r@ == self@,
            valid_path(self@),
    {
        proof {
            use_type_invariant(self);
        }
        self.text.as_str()
    }

    pub fn into_string(self) -> (r: String)
        ensures
            r@ == self@,
    {
        self.text
    }

    pub fn same(&self, other: &ManagedPath) -> (r: bool)
        ensures
            r == (self@ == other@),
    {
        text::eq(self.text.as_str(), other.text.as_str())
    }

    /// Canonical comparison key for platforms where case and Unicode
    /// normalization do not distinguish filesystem identities.
    pub fn case_collision_key(&self) -> (r: String)
        ensures
            r@ == collision_key(self@),
    {
        to_lowercase(nfc(self.text.as_str()).as_str())
    }
}

/// The texts of paths.
pub open spec fn path_texts(v: Seq<ManagedPath>) -> Seq<Seq<char>> {
    v.map_values(|p: ManagedPath| p@)
}

pub fn contains_path(list: &[ManagedPath], path: &ManagedPath) -> (r: bool)
    ensures
        r == path_texts(list@).contains(path@),
{
    let mut i: usize = 0;
    while i < list.len()
        invariant
            i <= list.len(),
            forall|j: int| 0 <= j < i ==> #[trigger] path_texts(list@)[j] != path@,
        decreases list.len() - i,
    {
        assert(path_texts(list@)[i as int] == list@[i as int]@);
        if list[i].same(path) {
            return true;
        }
        i = i + 1;
    }
    false
}

/// Law: a path can be managed exactly where it is relative, no component of it is empty,
/// goes up, stays, or is the metadata of Git in any case of its letters, and no character of
/// it means something to Git or to a terminal.
pub proof fn law_managed_paths_are_plain(s: Seq<char>)
    ensures
        valid_path(s) <==> {
            &&& s.len() > 0
            &&& s[0] != ':' && s[0] != '/' && s[0] != '!'
            &&& !text::contains(s, "//"@) && s.last() != '/'
            &&& forall|i: int|
                0 <= i < s.len() ==> s[i] != '\\' && !text::control(#[trigger] s[i])
            &&& forall|i: int|
                0 <= i < segment::split(s, '/').len() ==> plain_component(
                    #[trigger] segment::split(s, '/')[i],
                )
        },
{
    let parts = segment::split(s, '/');
    lemma_components(parts);
    assert forall|c: Seq<char>| component_fault(c) is None <==> #[trigger] plain_component(c) by {
        if component_fault(c) is None {
            assert forall|i: int| 0 <= i < c.len() implies #[trigger] c[i] != '*' && c[i] != '?'
                && c[i] != '[' && c[i] != ']' by {
                assert(!pattern_character(c[i]));
            }
        }
    }
    if valid_path(s) {
        assert forall|i: int| 0 <= i < s.len() implies s[i] != '\\' && !text::control(
            #[trigger] s[i],
        ) by {
            assert(!s.contains('\\'));
        }
    }
}

/// A component that names a file or a directory, and nothing else to Git.
pub open spec fn plain_component(c: Seq<char>) -> bool {
    &&& c.len() > 0 && c != "."@ && c != ".."@
    &&& text::lowered(c) != ".git"@
    &&& forall|i: int|
        0 <= i < c.len() ==> #[trigger] c[i] != '*' && c[i] != '?' && c[i] != '[' && c[i] != ']'
}

} // verus!
