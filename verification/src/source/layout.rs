//! How a document is written: line endings, comments, quoting, and templates.

use vstd::prelude::*;

use crate::segment;
use crate::semantic::order;
use crate::source::line_merge;
use crate::source::node;
use crate::source::NodePath;
use crate::text;

verus! {

#[derive(Clone, Copy, Debug, PartialEq, Eq, Structural)]
pub enum LineEnding {
    Lf,
    CrLf,
}

/// A text with every CR LF pair put for a line feed.
pub open spec fn unix_lines(s: Seq<char>) -> Seq<char> {
    segment::replace(s, seq!['\r', '\n'], seq!['\n'])
}

impl LineEnding {
    /// The line ending that a text uses.
    pub open spec fn of(s: Seq<char>) -> LineEnding {
        if text::contains(s, seq!['\r', '\n']) {
            LineEnding::CrLf
        } else {
            LineEnding::Lf
        }
    }

    /// A text with this line ending.
    pub open spec fn on(self, s: Seq<char>) -> Seq<char> {
        match self {
            LineEnding::Lf => unix_lines(s),
            LineEnding::CrLf => segment::replace(unix_lines(s), seq!['\n'], seq!['\r', '\n']),
        }
    }

    pub fn detect(input: &str) -> (r: LineEnding)
        ensures
            r == LineEnding::of(input@),
    {
        let pair: Vec<char> = vec!['\r', '\n'];
        assert(pair@ =~= seq!['\r', '\n']);
        if text::has(text::chars_of(input).as_slice(), pair.as_slice()) {
            LineEnding::CrLf
        } else {
            LineEnding::Lf
        }
    }

    pub fn apply(self, value: &str) -> (r: String)
        ensures
            r@ == self.on(value@),
    {
        let pair: Vec<char> = vec!['\r', '\n'];
        let feed: Vec<char> = vec!['\n'];
        assert(pair@ =~= seq!['\r', '\n']);
        assert(feed@ =~= seq!['\n']);
        let unix = segment::replaced(
            text::chars_of(value).as_slice(),
            pair.as_slice(),
            feed.as_slice(),
        );
        match self {
            LineEnding::Lf => text::string_of(unix.as_slice()),
            LineEnding::CrLf => text::string_of(
                segment::replaced(unix.as_slice(), feed.as_slice(), pair.as_slice()).as_slice(),
            ),
        }
    }
}

#[derive(Clone, Copy, Debug, PartialEq, Eq, Structural)]
pub enum QuoteStyle {
    Unquoted,
    Single,
    Double,
}

/// A mark in a template and the value that it stands for.
#[derive(Debug, PartialEq, Eq)]
pub struct Placeholder {
    token: String,
    path: NodePath,
}

pub struct PlaceholderModel {
    pub token: Seq<char>,
    pub path: Seq<node::Step>,
}

impl View for Placeholder {
    type V = PlaceholderModel;

    closed spec fn view(&self) -> PlaceholderModel {
        PlaceholderModel { token: self.token@, path: self.path@ }
    }
}

impl Clone for Placeholder {
    fn clone(&self) -> (r: Placeholder)
        ensures
            r@ == self@,
    {
        Placeholder { token: self.token.clone(), path: self.path.clone() }
    }
}

impl Placeholder {
    pub fn new(token: String, path: NodePath) -> (r: Placeholder)
        ensures
            r@ == (PlaceholderModel { token: token@, path: path@ }),
    {
        Placeholder { token, path }
    }

    pub fn token(&self) -> (r: &str)
        ensures
            r@ == self@.token,
    {
        self.token.as_str()
    }

    pub fn path(&self) -> (r: &NodePath)
        ensures
            r@ == self@.path,
    {
        &self.path
    }

    pub fn same(&self, other: &Placeholder) -> (r: bool)
        ensures
            r == (self@ == other@),
    {
        text::eq(self.token.as_str(), other.token.as_str()) && self.path.same(&other.path)
    }
}

pub open spec fn marks(v: Seq<Placeholder>) -> Seq<PlaceholderModel> {
    v.map_values(|p: Placeholder| p@)
}

fn same_placeholders(a: &Vec<Placeholder>, b: &Vec<Placeholder>) -> (r: bool)
    ensures
        r == (marks(a@) == marks(b@)),
{
    if a.len() != b.len() {
        assert(marks(a@).len() != marks(b@).len());
        return false;
    }
    let mut i: usize = 0;
    while i < a.len()
        invariant
            a@.len() == b@.len(),
            i <= a.len(),
            forall|j: int| 0 <= j < i ==> marks(a@)[j] == marks(b@)[j],
        decreases a.len() - i,
    {
        if !a[i].same(&b[i]) {
            assert(marks(a@)[i as int] != marks(b@)[i as int]);
            return false;
        }
        i = i + 1;
    }
    assert(marks(a@) =~= marks(b@));
    true
}

pub fn clone_placeholders(a: &Vec<Placeholder>) -> (r: Vec<Placeholder>)
    ensures
        marks(r@) == marks(a@),
{
    let mut out: Vec<Placeholder> = Vec::new();
    let mut i: usize = 0;
    while i < a.len()
        invariant
            i <= a.len(),
            out@.len() == i,
            forall|j: int| 0 <= j < i ==> (#[trigger] out@[j])@ == a@[j]@,
        decreases a.len() - i,
    {
        out.push(a[i].clone());
        i = i + 1;
    }
    assert(marks(out@) =~= marks(a@));
    out
}

/// The text of a document with marks in place of its values.
#[derive(Debug, PartialEq, Eq)]
pub struct Template {
    body: String,
    placeholders: Vec<Placeholder>,
}

pub struct TemplateModel {
    pub body: Seq<char>,
    pub placeholders: Seq<PlaceholderModel>,
}

impl Drop for Template {
    fn drop(&mut self)
        opens_invariants none
        no_unwind
    {
        node::zeroize_text(&mut self.body);
    }
}

impl View for Template {
    type V = TemplateModel;

    closed spec fn view(&self) -> TemplateModel {
        TemplateModel { body: self.body@, placeholders: marks(self.placeholders@) }
    }
}

impl Clone for Template {
    fn clone(&self) -> (r: Template)
        ensures
            r@ == self@,
    {
        Template { body: self.body.clone(), placeholders: clone_placeholders(&self.placeholders) }
    }
}

impl Template {
    pub fn new(body: String, placeholders: Vec<Placeholder>) -> (r: Template)
        ensures
            r@ == (TemplateModel { body: body@, placeholders: marks(placeholders@) }),
    {
        Template { body, placeholders }
    }

    pub fn body(&self) -> (r: &str)
        ensures
            r@ == self@.body,
    {
        self.body.as_str()
    }

    pub fn placeholders(&self) -> (r: &[Placeholder])
        ensures
            marks(r@) == self@.placeholders,
    {
        self.placeholders.as_slice()
    }

    pub fn same(&self, other: &Template) -> (r: bool)
        ensures
            r == (self@ == other@),
    {
        text::eq(self.body.as_str(), other.body.as_str()) && same_placeholders(
            &self.placeholders,
            &other.placeholders,
        )
    }
}

/// How one dotenv assignment is written.
#[derive(Debug, PartialEq, Eq)]
pub struct DotenvLayout {
    pub key: String,
    pub exported: bool,
    pub quote: QuoteStyle,
    pub leading: Vec<String>,
    pub inline_comment: Option<String>,
}

pub struct DotenvModel {
    pub key: Seq<char>,
    pub exported: bool,
    pub quote: QuoteStyle,
    pub leading: Seq<Seq<char>>,
    pub inline_comment: Option<Seq<char>>,
}

/// `zeroize::Zeroize::zeroize` on a vector of strings overwrites the bytes of
/// each, and leaves the vector empty.
#[verifier::external_body]
fn zeroize_texts(texts: &mut Vec<String>)
    ensures
        final(texts)@ == Seq::<String>::empty(),
    opens_invariants none
    no_unwind
{
    zeroize::Zeroize::zeroize(texts);
}

impl Drop for DotenvLayout {
    fn drop(&mut self)
        opens_invariants none
        no_unwind
    {
        zeroize_texts(&mut self.leading);
        match &mut self.inline_comment {
            Some(comment) => node::zeroize_text(comment),
            None => {},
        }
    }
}

impl View for DotenvLayout {
    type V = DotenvModel;

    open spec fn view(&self) -> DotenvModel {
        DotenvModel {
            key: self.key@,
            exported: self.exported,
            quote: self.quote,
            leading: text::texts(self.leading@),
            inline_comment: text::view_option(self.inline_comment),
        }
    }
}

impl Clone for DotenvLayout {
    fn clone(&self) -> (r: DotenvLayout)
        ensures
            r@ == self@,
    {
        DotenvLayout {
            key: self.key.clone(),
            exported: self.exported,
            quote: self.quote,
            leading: text::clone_texts(self.leading.as_slice()),
            inline_comment: match &self.inline_comment {
                Some(comment) => Some(comment.clone()),
                None => None,
            },
        }
    }
}

impl DotenvLayout {
    pub fn same(&self, other: &DotenvLayout) -> (r: bool)
        ensures
            r == (self@ == other@),
    {
        text::eq(self.key.as_str(), other.key.as_str()) && self.exported == other.exported
            && self.quote == other.quote && text::eq_texts(
            self.leading.as_slice(),
            other.leading.as_slice(),
        ) && text::eq_option(&self.inline_comment, &other.inline_comment)
    }
}

pub open spec fn assignments(v: Seq<DotenvLayout>) -> Seq<DotenvModel> {
    v.map_values(|d: DotenvLayout| d@)
}

pub open spec fn assignment_keys(v: Seq<DotenvModel>) -> Seq<Seq<char>> {
    v.map_values(|d: DotenvModel| d.key)
}

/// The first assignment of a key.
pub open spec fn assignment_of(v: Seq<DotenvModel>, key: Seq<char>) -> Option<DotenvModel>
    decreases v.len(),
{
    if v.len() == 0 {
        None
    } else if v[0].key == key {
        Some(v[0])
    } else {
        assignment_of(v.skip(1), key)
    }
}

pub open spec fn view_assignment(d: Option<&DotenvLayout>) -> Option<DotenvModel> {
    match d {
        Some(entry) => Some(entry@),
        None => None,
    }
}

pub fn find_assignment<'a>(v: &'a [DotenvLayout], key: &str) -> (r: Option<&'a DotenvLayout>)
    ensures
        view_assignment(r) == assignment_of(assignments(v@), key@),
{
    let ghost all = assignments(v@);
    let mut i: usize = 0;
    assert(all.skip(0) =~= all);
    while i < v.len()
        invariant
            all == assignments(v@),
            i <= v.len(),
            assignment_of(all.skip(i as int), key@) == assignment_of(all, key@),
        decreases v.len() - i,
    {
        assert(all.skip(i as int)[0] == v@[i as int]@);
        if text::eq(v[i].key.as_str(), key) {
            return Some(&v[i]);
        }
        assert(all.skip(i as int).skip(1) =~= all.skip(i + 1));
        i = i + 1;
    }
    None
}

fn same_assignments(a: &Vec<DotenvLayout>, b: &Vec<DotenvLayout>) -> (r: bool)
    ensures
        r == (assignments(a@) == assignments(b@)),
{
    if a.len() != b.len() {
        assert(assignments(a@).len() != assignments(b@).len());
        return false;
    }
    let mut i: usize = 0;
    while i < a.len()
        invariant
            a@.len() == b@.len(),
            i <= a.len(),
            forall|j: int| 0 <= j < i ==> assignments(a@)[j] == assignments(b@)[j],
        decreases a.len() - i,
    {
        if !a[i].same(&b[i]) {
            assert(assignments(a@)[i as int] != assignments(b@)[i as int]);
            return false;
        }
        i = i + 1;
    }
    assert(assignments(a@) =~= assignments(b@));
    true
}

fn clone_assignments(a: &Vec<DotenvLayout>) -> (r: Vec<DotenvLayout>)
    ensures
        assignments(r@) == assignments(a@),
{
    let mut out: Vec<DotenvLayout> = Vec::new();
    let mut i: usize = 0;
    while i < a.len()
        invariant
            i <= a.len(),
            out@.len() == i,
            forall|j: int| 0 <= j < i ==> (#[trigger] out@[j])@ == a@[j]@,
        decreases a.len() - i,
    {
        out.push(a[i].clone());
        i = i + 1;
    }
    assert(assignments(out@) =~= assignments(a@));
    out
}

/// How a document is written, as far as its values do not say it.
#[derive(Debug, PartialEq, Eq)]
pub struct Layout {
    line_ending: LineEnding,
    trailing_newline: bool,
    preamble_comments: Vec<String>,
    dotenv: Vec<DotenvLayout>,
    template: Option<Template>,
}

pub struct LayoutModel {
    pub line_ending: LineEnding,
    pub trailing_newline: bool,
    pub preamble_comments: Seq<Seq<char>>,
    pub dotenv: Seq<DotenvModel>,
    pub template: Option<TemplateModel>,
}

impl Drop for Layout {
    fn drop(&mut self)
        opens_invariants none
        no_unwind
    {
        zeroize_texts(&mut self.preamble_comments);
    }
}

pub open spec fn view_template(t: Option<Template>) -> Option<TemplateModel> {
    match t {
        Some(template) => Some(template@),
        None => None,
    }
}

/// Every placeholder of the template leads along indices that a sequence can have.
pub open spec fn indexed_layout(m: LayoutModel) -> bool {
    m.template matches Some(t) ==> forall|i: int|
        0 <= i < t.placeholders.len() ==> node::indexed((#[trigger] t.placeholders[i]).path)
}

pub proof fn lemma_indexed_layout(layout: Layout)
    ensures
        indexed_layout(layout@),
{
    match layout.template {
        Some(template) => {
            let list = template@.placeholders;
            assert forall|i: int| 0 <= i < list.len() implies node::indexed(
                (#[trigger] list[i]).path,
            ) by {
                assert(list[i] == template.placeholders@[i]@);
                node::lemma_indexed(template.placeholders@[i].path);
            }
        },
        None => {},
    }
}

impl View for Layout {
    type V = LayoutModel;

    closed spec fn view(&self) -> LayoutModel {
        LayoutModel {
            line_ending: self.line_ending,
            trailing_newline: self.trailing_newline,
            preamble_comments: text::texts(self.preamble_comments@),
            dotenv: assignments(self.dotenv@),
            template: view_template(self.template),
        }
    }
}

fn clone_template(t: &Option<Template>) -> (r: Option<Template>)
    ensures
        view_template(r) == view_template(*t),
{
    match t {
        Some(template) => Some(template.clone()),
        None => None,
    }
}

fn same_template(a: &Option<Template>, b: &Option<Template>) -> (r: bool)
    ensures
        r == (view_template(*a) == view_template(*b)),
{
    match (a, b) {
        (Some(x), Some(y)) => x.same(y),
        (None, None) => true,
        _ => false,
    }
}

impl Clone for Layout {
    fn clone(&self) -> (r: Layout)
        ensures
            r@ == self@,
    {
        Layout {
            line_ending: self.line_ending,
            trailing_newline: self.trailing_newline,
            preamble_comments: text::clone_texts(self.preamble_comments.as_slice()),
            dotenv: clone_assignments(&self.dotenv),
            template: clone_template(&self.template),
        }
    }
}

/// The value of one field after a three-way merge; `None` where both sides
/// changed it differently.
pub open spec fn merged_field<T>(base: T, ours: T, theirs: T) -> Option<T> {
    if ours == theirs {
        Some(ours)
    } else if ours == base {
        Some(theirs)
    } else if theirs == base {
        Some(ours)
    } else {
        None
    }
}

/// The merge of the first `n` keys of a list of assignments.
pub open spec fn merged_assignments(
    base: Seq<DotenvModel>,
    ours: Seq<DotenvModel>,
    theirs: Seq<DotenvModel>,
    keys: Seq<Seq<char>>,
) -> Option<Seq<DotenvModel>>
    decreases keys.len(),
{
    if keys.len() == 0 {
        Some(Seq::empty())
    } else {
        let key = keys.last();
        match (
            merged_assignments(base, ours, theirs, keys.drop_last()),
            merged_field(
                assignment_of(base, key),
                assignment_of(ours, key),
                assignment_of(theirs, key),
            ),
        ) {
            (Some(head), Some(Some(entry))) => Some(head.push(entry)),
            (Some(head), Some(None)) => Some(head),
            _ => None,
        }
    }
}

/// The merge of three lists of assignments: their order first, then each key.
pub open spec fn merged_dotenv(
    base: Seq<DotenvModel>,
    ours: Seq<DotenvModel>,
    theirs: Seq<DotenvModel>,
) -> Option<Seq<DotenvModel>> {
    let (b, o, t) = (assignment_keys(base), assignment_keys(ours), assignment_keys(theirs));
    match order::leading_side(b, o, t) {
        Some(ours_lead) => merged_assignments(
            base,
            ours,
            theirs,
            order::all_keys(b, o, t, ours_lead),
        ),
        None => None,
    }
}

/// The merge of three templates, given the line diffs from the base to each side.
pub open spec fn merged_template(
    base: Option<TemplateModel>,
    ours: Option<TemplateModel>,
    theirs: Option<TemplateModel>,
) -> Option<Option<TemplateModel>> {
    match merged_field(base, ours, theirs) {
        Some(template) => Some(template),
        None => match (base, ours, theirs) {
            (Some(b), Some(o), Some(t)) => if b.placeholders != o.placeholders || b.placeholders
                != t.placeholders {
                None
            } else {
                match line_merge::merged_lines(
                    b.body,
                    o.body,
                    t.body,
                    line_merge::line_diff(b.body, o.body),
                    line_merge::line_diff(b.body, t.body),
                ) {
                    Some(body) => Some(Some(TemplateModel { body, placeholders: b.placeholders })),
                    None => None,
                }
            },
            _ => None,
        },
    }
}

/// The merge of three layouts.
pub open spec fn merged_layout(base: LayoutModel, ours: LayoutModel, theirs: LayoutModel) -> Option<
    LayoutModel,
> {
    if merged_field(base, ours, theirs) is Some {
        merged_field(base, ours, theirs)
    } else {
        match (
            merged_field(base.line_ending, ours.line_ending, theirs.line_ending),
            merged_field(base.trailing_newline, ours.trailing_newline, theirs.trailing_newline),
            merged_field(base.preamble_comments, ours.preamble_comments, theirs.preamble_comments),
            merged_dotenv(base.dotenv, ours.dotenv, theirs.dotenv),
            merged_template(base.template, ours.template, theirs.template),
        ) {
            (
                Some(line_ending),
                Some(trailing_newline),
                Some(preamble_comments),
                Some(dotenv),
                Some(template),
            ) => Some(
                LayoutModel { line_ending, trailing_newline, preamble_comments, dotenv, template },
            ),
            _ => None,
        }
    }
}

fn merge_line_ending(base: LineEnding, ours: LineEnding, theirs: LineEnding) -> (r: Option<
    LineEnding,
>)
    ensures
        r == merged_field(base, ours, theirs),
{
    if ours == theirs {
        Some(ours)
    } else if ours == base {
        Some(theirs)
    } else if theirs == base {
        Some(ours)
    } else {
        None
    }
}

fn merge_flag(base: bool, ours: bool, theirs: bool) -> (r: Option<bool>)
    ensures
        r == merged_field(base, ours, theirs),
{
    if ours == theirs {
        Some(ours)
    } else if ours == base {
        Some(theirs)
    } else {
        Some(ours)
    }
}

fn merge_comments(base: &Vec<String>, ours: &Vec<String>, theirs: &Vec<String>) -> (r: Option<
    Vec<String>,
>)
    ensures
        r.is_some() == (merged_field(
            text::texts(base@),
            text::texts(ours@),
            text::texts(theirs@),
        ) is Some),
        r matches Some(v) ==> merged_field(
            text::texts(base@),
            text::texts(ours@),
            text::texts(theirs@),
        ) == Some(text::texts(v@)),
{
    if text::eq_texts(ours.as_slice(), theirs.as_slice()) {
        Some(text::clone_texts(ours.as_slice()))
    } else if text::eq_texts(ours.as_slice(), base.as_slice()) {
        Some(text::clone_texts(theirs.as_slice()))
    } else if text::eq_texts(theirs.as_slice(), base.as_slice()) {
        Some(text::clone_texts(ours.as_slice()))
    } else {
        None
    }
}

fn same_assignment(a: Option<&DotenvLayout>, b: Option<&DotenvLayout>) -> (r: bool)
    ensures
        r == (view_assignment(a) == view_assignment(b)),
{
    match (a, b) {
        (Some(x), Some(y)) => x.same(y),
        (None, None) => true,
        _ => false,
    }
}

fn merge_assignment<'a>(
    base: Option<&'a DotenvLayout>,
    ours: Option<&'a DotenvLayout>,
    theirs: Option<&'a DotenvLayout>,
) -> (r: Option<Option<&'a DotenvLayout>>)
    ensures
        match merged_field(view_assignment(base), view_assignment(ours), view_assignment(theirs)) {
            Some(entry) => r matches Some(e) && view_assignment(e) == entry,
            None => r is None,
        },
{
    if same_assignment(ours, theirs) {
        Some(ours)
    } else if same_assignment(ours, base) {
        Some(theirs)
    } else if same_assignment(theirs, base) {
        Some(ours)
    } else {
        None
    }
}

fn assignment_key_list(v: &Vec<DotenvLayout>) -> (r: Vec<String>)
    ensures
        text::texts(r@) == assignment_keys(assignments(v@)),
{
    let mut out: Vec<String> = Vec::new();
    let mut i: usize = 0;
    while i < v.len()
        invariant
            i <= v.len(),
            out@.len() == i,
            forall|j: int| 0 <= j < i ==> (#[trigger] out@[j])@ == v@[j].key@,
        decreases v.len() - i,
    {
        out.push(v[i].key.clone());
        i = i + 1;
    }
    assert(text::texts(out@) =~= assignment_keys(assignments(v@)));
    out
}

fn merge_dotenv(
    base: &Vec<DotenvLayout>,
    ours: &Vec<DotenvLayout>,
    theirs: &Vec<DotenvLayout>,
) -> (r: Option<Vec<DotenvLayout>>)
    ensures
        match merged_dotenv(assignments(base@), assignments(ours@), assignments(theirs@)) {
            Some(list) => r matches Some(v) && assignments(v@) == list,
            None => r is None,
        },
{
    let (keys, clash) = order::merged_order(
        &assignment_key_list(base),
        &assignment_key_list(ours),
        &assignment_key_list(theirs),
    );
    if clash {
        return None;
    }
    let ghost (b, o, t) = (assignments(base@), assignments(ours@), assignments(theirs@));
    let ghost all = text::texts(keys@);
    let mut merged: Vec<DotenvLayout> = Vec::new();
    let mut i: usize = 0;
    assert(assignments(merged@) =~= Seq::<DotenvModel>::empty());
    while i < keys.len()
        invariant
            all == text::texts(keys@),
            b == assignments(base@),
            o == assignments(ours@),
            t == assignments(theirs@),
            merged_dotenv(b, o, t) == merged_assignments(b, o, t, all),
            i <= keys.len(),
            merged_assignments(b, o, t, all.take(i as int)) == Some(assignments(merged@)),
        decreases keys.len() - i,
    {
        let key = keys[i].as_str();
        assert(all.take(i + 1).drop_last() =~= all.take(i as int));
        assert(all.take(i + 1).last() == key@);
        match merge_assignment(
            find_assignment(base.as_slice(), key),
            find_assignment(ours.as_slice(), key),
            find_assignment(theirs.as_slice(), key),
        ) {
            None => {
                proof {
                    lemma_no_assignments(b, o, t, all, i + 1);
                }
                return None;
            },
            Some(None) => {},
            Some(Some(entry)) => {
                let ghost before = merged@;
                merged.push(entry.clone());
                assert(assignments(merged@) =~= assignments(before).push(entry@));
            },
        }
        i = i + 1;
    }
    assert(all.take(i as int) =~= all);
    Some(merged)
}

proof fn lemma_no_assignments(
    b: Seq<DotenvModel>,
    o: Seq<DotenvModel>,
    t: Seq<DotenvModel>,
    keys: Seq<Seq<char>>,
    n: int,
)
    requires
        0 <= n <= keys.len(),
        merged_assignments(b, o, t, keys.take(n)) is None,
    ensures
        merged_assignments(b, o, t, keys) is None,
    decreases keys.len() - n,
{
    if n < keys.len() {
        assert(keys.take(n + 1).drop_last() =~= keys.take(n));
        lemma_no_assignments(b, o, t, keys, n + 1);
    } else {
        assert(keys.take(n) =~= keys);
    }
}

fn merge_template(
    base: &Option<Template>,
    ours: &Option<Template>,
    theirs: &Option<Template>,
) -> (r: Option<Option<Template>>)
    ensures
        match merged_template(view_template(*base), view_template(*ours), view_template(*theirs)) {
            Some(template) => r matches Some(t) && view_template(t) == template,
            None => r is None,
        },
{
    if same_template(ours, theirs) {
        return Some(clone_template(ours));
    }
    if same_template(ours, base) {
        return Some(clone_template(theirs));
    }
    if same_template(theirs, base) {
        return Some(clone_template(ours));
    }
    match (base, ours, theirs) {
        (Some(b), Some(o), Some(t)) => {
            if !same_placeholders(&b.placeholders, &o.placeholders) || !same_placeholders(
                &b.placeholders,
                &t.placeholders,
            ) {
                return None;
            }
            match line_merge::merge_text_lines(b.body.as_str(), o.body.as_str(), t.body.as_str()) {
                Some(body) => Some(Some(Template::new(body, clone_placeholders(&b.placeholders)))),
                None => None,
            }
        },
        _ => None,
    }
}

impl Layout {
    pub fn new(line_ending: LineEnding, trailing_newline: bool) -> (r: Layout)
        ensures
            r@ == (LayoutModel {
                line_ending,
                trailing_newline,
                preamble_comments: Seq::empty(),
                dotenv: Seq::empty(),
                template: None,
            }),
    {
        let r = Layout {
            line_ending,
            trailing_newline,
            preamble_comments: Vec::new(),
            dotenv: Vec::new(),
            template: None,
        };
        assert(r@.preamble_comments =~= Seq::<Seq<char>>::empty());
        assert(r@.dotenv =~= Seq::<DotenvModel>::empty());
        r
    }

    pub fn line_ending(&self) -> (r: LineEnding)
        ensures
            r == self@.line_ending,
    {
        self.line_ending
    }

    pub fn trailing_newline(&self) -> (r: bool)
        ensures
            r == self@.trailing_newline,
    {
        self.trailing_newline
    }

    pub fn set_preamble_comments(&mut self, comments: Vec<String>)
        ensures
            final(self)@ == (LayoutModel {
                preamble_comments: text::texts(comments@),
                ..old(self)@
            }),
    {
        self.preamble_comments = comments;
    }

    pub fn preamble_comments(&self) -> (r: &[String])
        ensures
            text::texts(r@) == self@.preamble_comments,
    {
        self.preamble_comments.as_slice()
    }

    pub fn set_dotenv(&mut self, entries: Vec<DotenvLayout>)
        ensures
            final(self)@ == (LayoutModel { dotenv: assignments(entries@), ..old(self)@ }),
    {
        self.dotenv = entries;
    }

    pub fn dotenv(&self) -> (r: &[DotenvLayout])
        ensures
            assignments(r@) == self@.dotenv,
    {
        self.dotenv.as_slice()
    }

    pub fn set_template(&mut self, template: Template)
        ensures
            final(self)@ == (LayoutModel { template: Some(template@), ..old(self)@ }),
    {
        self.template = Some(template);
    }

    pub fn template(&self) -> (r: Option<&Template>)
        ensures
            r.is_some() == self@.template.is_some(),
            r matches Some(t) ==> self@.template == Some(t@),
    {
        match &self.template {
            Some(template) => Some(template),
            None => None,
        }
    }

    pub fn same(&self, other: &Layout) -> (r: bool)
        ensures
            r == (self@ == other@),
    {
        self.line_ending == other.line_ending && self.trailing_newline == other.trailing_newline
            && text::eq_texts(
            self.preamble_comments.as_slice(),
            other.preamble_comments.as_slice(),
        ) && same_assignments(&self.dotenv, &other.dotenv) && same_template(
            &self.template,
            &other.template,
        )
    }

    /// Merges two layouts that both stem from a base; `None` where they cannot
    /// be reconciled.
    pub fn merge_three_way(base: &Layout, ours: &Layout, theirs: &Layout) -> (r: Option<Layout>)
        ensures
            match merged_layout(base@, ours@, theirs@) {
                Some(layout) => r matches Some(l) && l@ == layout,
                None => r is None,
            },
    {
        if ours.same(theirs) {
            return Some(ours.clone());
        }
        if ours.same(base) {
            return Some(theirs.clone());
        }
        if theirs.same(base) {
            return Some(ours.clone());
        }
        let line_ending = match merge_line_ending(
            base.line_ending,
            ours.line_ending,
            theirs.line_ending,
        ) {
            Some(value) => value,
            None => {
                return None;
            },
        };
        let trailing_newline = match merge_flag(
            base.trailing_newline,
            ours.trailing_newline,
            theirs.trailing_newline,
        ) {
            Some(value) => value,
            None => {
                return None;
            },
        };
        let preamble_comments = match merge_comments(
            &base.preamble_comments,
            &ours.preamble_comments,
            &theirs.preamble_comments,
        ) {
            Some(value) => value,
            None => {
                return None;
            },
        };
        let dotenv = match merge_dotenv(&base.dotenv, &ours.dotenv, &theirs.dotenv) {
            Some(value) => value,
            None => {
                return None;
            },
        };
        match merge_template(&base.template, &ours.template, &theirs.template) {
            Some(template) => Some(
                Layout { line_ending, trailing_newline, preamble_comments, dotenv, template },
            ),
            None => None,
        }
    }
}

/// Law: a layout merge in which one side changed nothing gives the other side,
/// and sides that agree give what they agree on.
pub proof fn law_layout_merge_keeps_the_only_change(base: LayoutModel, side: LayoutModel)
    ensures
        merged_layout(base, base, side) == Some(side),
        merged_layout(base, side, base) == Some(side),
        merged_layout(base, side, side) == Some(side),
{
}

/// What a merge makes of one part of a layout: what both sides agree on, or else the side
/// that differs from the base; a part that both changed differently has no merge.
pub open spec fn settled<T>(base: T, ours: T, theirs: T, merged: T) -> bool {
    if ours == theirs {
        merged == ours
    } else if ours == base {
        merged == theirs
    } else {
        theirs == base && merged == ours
    }
}

proof fn lemma_first_assignment(v: Seq<DotenvModel>, e: DotenvModel, key: Seq<char>)
    ensures
        assignment_of(v.push(e), key) == match assignment_of(v, key) {
            Some(found) => Some(found),
            None => if e.key == key {
                Some(e)
            } else {
                None
            },
        },
        assignment_of(v, key) matches Some(found) ==> found.key == key,
    decreases v.len(),
{
    let more = v.push(e);
    if v.len() == 0 {
        assert(more.skip(1) =~= Seq::<DotenvModel>::empty());
        assert(assignment_of(more.skip(1), key) is None);
    } else {
        assert(more[0] == v[0]);
        assert(more.skip(1) =~= v.skip(1).push(e));
        lemma_first_assignment(v.skip(1), e, key);
    }
}

proof fn lemma_merged_assignment(
    base: Seq<DotenvModel>,
    ours: Seq<DotenvModel>,
    theirs: Seq<DotenvModel>,
    keys: Seq<Seq<char>>,
    key: Seq<char>,
)
    requires
        merged_assignments(base, ours, theirs, keys) is Some,
    ensures
        ({
            let m = assignment_of(merged_assignments(base, ours, theirs, keys)->Some_0, key);
            if keys.contains(key) {
                settled(
                    assignment_of(base, key),
                    assignment_of(ours, key),
                    assignment_of(theirs, key),
                    m,
                )
            } else {
                m is None
            }
        }),
    decreases keys.len(),
{
    if keys.len() > 0 {
        let head = keys.drop_last();
        let last = keys.last();
        lemma_merged_assignment(base, ours, theirs, head, key);
        let list = merged_assignments(base, ours, theirs, head)->Some_0;
        let field = merged_field(
            assignment_of(base, last),
            assignment_of(ours, last),
            assignment_of(theirs, last),
        )->Some_0;
        let any = DotenvModel { key: last, ..arbitrary() };
        lemma_first_assignment(base, any, last);
        lemma_first_assignment(ours, any, last);
        lemma_first_assignment(theirs, any, last);
        if field is Some {
            lemma_first_assignment(list, field->Some_0, key);
        }
        if head.contains(key) {
            let i = choose|i: int| 0 <= i < head.len() && head[i] == key;
            assert(keys[i] == key);
        }
        if keys.contains(key) && key != last {
            let i = choose|i: int| 0 <= i < keys.len() && keys[i] == key;
            assert(head[i] == key);
        }
        if key == last {
            assert(keys[keys.len() - 1] == key);
        }
    } else {
        assert(!keys.contains(key));
    }
}

proof fn lemma_no_assignment(v: Seq<DotenvModel>, key: Seq<char>)
    requires
        !assignment_keys(v).contains(key),
    ensures
        assignment_of(v, key) is None,
    decreases v.len(),
{
    if v.len() > 0 {
        assert(assignment_keys(v)[0] == v[0].key);
        let rest = v.skip(1);
        if assignment_keys(rest).contains(key) {
            let i = choose|i: int| 0 <= i < rest.len() && assignment_keys(rest)[i] == key;
            assert(assignment_keys(v)[i + 1] == key);
        }
        lemma_no_assignment(rest, key);
    }
}

/// Law: a merge of layouts settles each part by itself, and loses no change. The line ending,
/// the newline at the end, the comments in front, and the line of every key are what both
/// sides agree on, or else the one that differs from the base; where both sides changed one of
/// them differently there is no merge.
pub proof fn law_layout_merge_settles_every_part(
    base: LayoutModel,
    ours: LayoutModel,
    theirs: LayoutModel,
    key: Seq<char>,
)
    requires
        merged_layout(base, ours, theirs) is Some,
    ensures
        ({
            let m = merged_layout(base, ours, theirs)->Some_0;
            &&& settled(base.line_ending, ours.line_ending, theirs.line_ending, m.line_ending)
            &&& settled(
                base.trailing_newline,
                ours.trailing_newline,
                theirs.trailing_newline,
                m.trailing_newline,
            )
            &&& settled(
                base.preamble_comments,
                ours.preamble_comments,
                theirs.preamble_comments,
                m.preamble_comments,
            )
            &&& settled(
                assignment_of(base.dotenv, key),
                assignment_of(ours.dotenv, key),
                assignment_of(theirs.dotenv, key),
                assignment_of(m.dotenv, key),
            )
            &&& ours.template == theirs.template || ours.template == base.template
                || theirs.template == base.template ==> settled(
                base.template,
                ours.template,
                theirs.template,
                m.template,
            )
            &&& m.template is Some && (base.template is Some && ours.template is Some
                && theirs.template is Some) && !(ours.template == theirs.template || ours.template
                == base.template || theirs.template == base.template)
                ==> m.template->Some_0.placeholders == base.template->Some_0.placeholders
                && ours.template->Some_0.placeholders == base.template->Some_0.placeholders
                && theirs.template->Some_0.placeholders == base.template->Some_0.placeholders
        }),
{
    if merged_field(base, ours, theirs) is None {
        let (b, o, t) = (
            assignment_keys(base.dotenv),
            assignment_keys(ours.dotenv),
            assignment_keys(theirs.dotenv),
        );
        let lead = order::leading_side(b, o, t)->Some_0;
        let keys = order::all_keys(b, o, t, lead);
        order::lemma_all_keys(b, o, t, lead);
        lemma_merged_assignment(base.dotenv, ours.dotenv, theirs.dotenv, keys, key);
        if !keys.contains(key) {
            lemma_no_assignment(base.dotenv, key);
            lemma_no_assignment(ours.dotenv, key);
            lemma_no_assignment(theirs.dotenv, key);
        }
    }
}

proof fn lemma_nothing_to_replace(s: Seq<char>, p: Seq<char>, to: Seq<char>)
    requires
        p.len() > 0,
        !text::contains(s, p),
    ensures
        segment::replace(s, p, to) == s,
    decreases s.len(),
{
    if s.len() > 0 {
        assert(!text::occurs_at(s, p, 0));
        let rest = s.skip(1);
        if text::contains(rest, p) {
            let i = choose|i: int| text::occurs_at(rest, p, i);
            assert(rest.subrange(i, i + p.len()) =~= s.subrange(i + 1, i + 1 + p.len()));
            assert(text::occurs_at(s, p, i + 1));
        }
        lemma_nothing_to_replace(rest, p, to);
        assert(seq![s[0]] + rest =~= s);
    }
}

proof fn lemma_widened_and_narrowed(s: Seq<char>)
    requires
        !s.contains('\r'),
    ensures
        unix_lines(segment::replace(s, seq!['\n'], seq!['\r', '\n'])) == s,
    decreases s.len(),
{
    let (one, two) = (seq!['\n'], seq!['\r', '\n']);
    let wide = segment::replace(s, one, two);
    if s.len() > 0 {
        let rest = s.skip(1);
        assert(!rest.contains('\r')) by {
            if rest.contains('\r') {
                let i = choose|i: int| 0 <= i < rest.len() && rest[i] == '\r';
                assert(s[i + 1] == '\r');
            }
        }
        lemma_widened_and_narrowed(rest);
        let tail = segment::replace(rest, one, two);
        assert(s.contains(s[0]));
        if s[0] == '\n' {
            assert(s.subrange(0, 1) =~= one);
            assert(text::occurs_at(s, one, 0));
            assert(s.skip(1) =~= rest);
            assert(wide =~= two + tail);
            assert(wide.subrange(0, 2) =~= two);
            assert(text::occurs_at(wide, two, 0));
            assert(wide.skip(2) =~= tail);
            assert(unix_lines(wide) =~= one + rest);
            assert(one + rest =~= s);
        } else {
            if text::occurs_at(s, one, 0) {
                assert(s.subrange(0, 1)[0] == s[0]);
            }
            assert(wide =~= seq![s[0]] + tail);
            assert(wide[0] == s[0]);
            if text::occurs_at(wide, two, 0) {
                assert(wide.subrange(0, 2)[0] == '\r');
            }
            assert(wide.skip(1) =~= tail);
            assert(unix_lines(wide) =~= seq![s[0]] + rest);
            assert(seq![s[0]] + rest =~= s);
        }
    } else {
        assert(wide =~= s);
        assert(unix_lines(wide) =~= s);
    }
}

/// Law: a text without carriage returns stays as it is under line feeds; under CR LF pairs it
/// gets them at every line feed, and loses them again, so that no line changes with its
/// ending. A text is taken to use the pairs exactly where it has one.
pub proof fn law_line_endings_are_exchanged(s: Seq<char>)
    ensures
        !s.contains('\r') ==> LineEnding::Lf.on(s) == s && LineEnding::Lf.on(LineEnding::CrLf.on(s))
            == s,
        LineEnding::of(s) == LineEnding::CrLf <==> exists|i: int|
            0 <= i < s.len() - 1 && #[trigger] s[i] == '\r' && s[i + 1] == '\n',
{
    let pair = seq!['\r', '\n'];
    if !s.contains('\r') {
        assert(!text::contains(s, pair)) by {
            if text::contains(s, pair) {
                let i = choose|i: int| text::occurs_at(s, pair, i);
                assert(s.subrange(i, i + 2)[0] == '\r');
                assert(s[i] == '\r');
            }
        }
        lemma_nothing_to_replace(s, pair, seq!['\n']);
        lemma_widened_and_narrowed(s);
    }
    if text::contains(s, pair) {
        let i = choose|i: int| text::occurs_at(s, pair, i);
        assert(s.subrange(i, i + 2)[0] == s[i] && s.subrange(i, i + 2)[1] == s[i + 1]);
    }
    if exists|i: int| 0 <= i < s.len() - 1 && #[trigger] s[i] == '\r' && s[i + 1] == '\n' {
        let i = choose|i: int|
            0 <= i < s.len() - 1 && #[trigger] s[i] == '\r' && s[i + 1] == '\n';
        assert(s.subrange(i, i + 2) =~= pair);
        assert(text::occurs_at(s, pair, i));
    }
}

} // verus!
