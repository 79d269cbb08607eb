//! The ignore rules in force for some paths.

use vstd::prelude::*;
use vstd::string::StrSliceExecFns;

use crate::bytes;
use crate::codec::integer;
use crate::error::GitveilError;
use crate::git::command;
use crate::path;
use crate::path::ManagedPath;
use crate::text;

verus! {

/// The rule that decides on a path.
#[derive(Debug, PartialEq, Eq)]
pub struct IgnoreRule {
    source: String,
    line: usize,
    pattern: String,
    ignored: bool,
}

pub struct RuleModel {
    pub source: Seq<char>,
    pub line: int,
    pub pattern: Seq<char>,
    pub ignored: bool,
}

impl View for IgnoreRule {
    type V = RuleModel;

    closed spec fn view(&self) -> RuleModel {
        RuleModel {
            source: self.source@,
            line: self.line as int,
            pattern: self.pattern@,
            ignored: self.ignored,
        }
    }
}

/// A rule with an exclamation mark in front of its pattern takes a path in again.
pub open spec fn negated(pattern: Seq<char>) -> bool {
    pattern.len() > 0 && pattern[0] == '!'
}

impl IgnoreRule {
    pub fn new(source: String, line: usize, pattern: String) -> (r: IgnoreRule)
        ensures
            r@ == (RuleModel {
                source: source@,
                line: line as int,
                pattern: pattern@,
                ignored: !negated(pattern@),
            }),
    {
        let chars = text::chars_of(pattern.as_str());
        let ignored: bool = !(chars.len() > 0 && chars[0] == '!');
        IgnoreRule { source, line, pattern, ignored }
    }

    pub fn source(&self) -> (r: &str)
        ensures
            r@ == self@.source,
    {
        self.source.as_str()
    }

    pub fn line(&self) -> (r: usize)
        ensures
            r == self@.line,
    {
        self.line
    }

    pub fn pattern(&self) -> (r: &str)
        ensures
            r@ == self@.pattern,
    {
        self.pattern.as_str()
    }

    pub fn is_ignored(&self) -> (r: bool)
        ensures
            r == self@.ignored,
    {
        self.ignored
    }
}

impl Clone for IgnoreRule {
    fn clone(&self) -> (r: IgnoreRule)
        ensures
            r@ == self@,
    {
        IgnoreRule {
            source: self.source.as_str().to_owned(),
            line: self.line,
            pattern: self.pattern.as_str().to_owned(),
            ignored: self.ignored,
        }
    }
}

/// What decides on a path, if anything does.
#[derive(Debug, PartialEq, Eq)]
pub enum IgnoreMatch {
    Unmatched,
    Rule(IgnoreRule),
}

impl View for IgnoreMatch {
    type V = Option<RuleModel>;

    open spec fn view(&self) -> Option<RuleModel> {
        match self {
            IgnoreMatch::Unmatched => None,
            IgnoreMatch::Rule(rule) => Some(rule@),
        }
    }
}

pub open spec fn ignored_by(m: Option<RuleModel>) -> bool {
    m matches Some(rule) && rule.ignored
}

impl IgnoreMatch {
    pub fn is_ignored(&self) -> (r: bool)
        ensures
            r == ignored_by(self@),
    {
        match self {
            IgnoreMatch::Unmatched => false,
            IgnoreMatch::Rule(rule) => rule.is_ignored(),
        }
    }
}

impl Clone for IgnoreMatch {
    fn clone(&self) -> (r: IgnoreMatch)
        ensures
            r@ == self@,
    {
        match self {
            IgnoreMatch::Unmatched => IgnoreMatch::Unmatched,
            IgnoreMatch::Rule(rule) => IgnoreMatch::Rule(rule.clone()),
        }
    }
}

/// The requested path that some bytes are.
pub open spec fn requested_path(requested: Seq<Seq<char>>, b: Seq<u8>) -> Option<Seq<char>>
    decreases requested.len(),
{
    if requested.len() == 0 {
        None
    } else if vstd::utf8::encode_utf8(requested[0]) == b {
        Some(requested[0])
    } else {
        requested_path(requested.skip(1), b)
    }
}

pub proof fn lemma_requested_path(requested: Seq<Seq<char>>, b: Seq<u8>)
    ensures
        requested_path(requested, b) matches Some(p) ==> requested.contains(p)
            && vstd::utf8::encode_utf8(p) == b,
    decreases requested.len(),
{
    if requested.len() > 0 {
        if vstd::utf8::encode_utf8(requested[0]) == b {
            assert(requested.contains(requested[0]));
        } else {
            lemma_requested_path(requested.skip(1), b);
            match requested_path(requested.skip(1), b) {
                Some(p) => {
                    let j = choose|j: int|
                        0 <= j < requested.skip(1).len() && requested.skip(1)[j] == p;
                    assert(requested[j + 1] == p);
                },
                None => {},
            }
        }
    }
}

pub fn find_requested<'a>(requested: &'a [ManagedPath], b: &[u8]) -> (r: Option<&'a ManagedPath>)
    ensures
        match r {
            Some(p) => requested_path(path::path_texts(requested@), b@) == Some(p@),
            None => requested_path(path::path_texts(requested@), b@) is None,
        },
{
    let ghost all = path::path_texts(requested@);
    let mut i: usize = 0;
    assert(all.skip(0) =~= all);
    while i < requested.len()
        invariant
            i <= requested.len(),
            all == path::path_texts(requested@),
            requested_path(all, b@) == requested_path(all.skip(i as int), b@),
        decreases requested.len() - i,
    {
        assert(all.skip(i as int)[0] == requested@[i as int]@);
        assert(all.skip(i as int).skip(1) =~= all.skip(i + 1));
        if bytes::eq(requested[i].as_str().as_bytes_vec().as_slice(), b) {
            return Some(&requested[i]);
        }
        i = i + 1;
    }
    None
}

/// What a record of four fields says of a path.
pub open spec fn rule_of(source: Seq<u8>, line: Seq<u8>, pattern: Seq<u8>) -> Result<
    Option<RuleModel>,
    Seq<char>,
> {
    if source.len() == 0 && line.len() == 0 && pattern.len() == 0 {
        Ok(None)
    } else if source.len() == 0 || line.len() == 0 || pattern.len() == 0 {
        Err("incomplete git check-ignore rule evidence"@)
    } else if !vstd::utf8::valid_utf8(source) {
        Err("non-UTF-8 git check-ignore rule source"@)
    } else if !vstd::utf8::valid_utf8(line) {
        Err("non-UTF-8 git check-ignore line"@)
    } else {
        match integer::unsigned_value(vstd::utf8::decode_utf8(line), usize::MAX as int) {
            None => Err("invalid git check-ignore line"@),
            Some(n) => if !vstd::utf8::valid_utf8(pattern) {
                Err("non-UTF-8 git check-ignore pattern"@)
            } else {
                let p = vstd::utf8::decode_utf8(pattern);
                Ok(
                    Some(
                        RuleModel {
                            source: vstd::utf8::decode_utf8(source),
                            line: n,
                            pattern: p,
                            ignored: !negated(p),
                        },
                    ),
                )
            },
        }
    }
}

fn read_rule(source: &[u8], line: &[u8], pattern: &[u8]) -> (r: Result<IgnoreMatch, GitveilError>)
    ensures
        match rule_of(source@, line@, pattern@) {
            Ok(rule) => r matches Ok(m) && m@ == rule,
            Err(message) => r matches Err(e) && e@ == command::protocol_fault(message),
        },
{
    if source.len() == 0 && line.len() == 0 && pattern.len() == 0 {
        return Ok(IgnoreMatch::Unmatched);
    }
    if source.len() == 0 || line.len() == 0 || pattern.len() == 0 {
        return Err(command::protocol_error("incomplete git check-ignore rule evidence"));
    }
    let source_text = match text::from_utf8(source) {
        Some(s) => s,
        None => {
            return Err(command::protocol_error("non-UTF-8 git check-ignore rule source"));
        },
    };
    let line_text = match text::from_utf8(line) {
        Some(s) => s,
        None => {
            return Err(command::protocol_error("non-UTF-8 git check-ignore line"));
        },
    };
    let number: usize = match integer::parse_unsigned(line_text.as_str(), usize::MAX as u64) {
        Some(n) => n as usize,
        None => {
            return Err(command::protocol_error("invalid git check-ignore line"));
        },
    };
    let pattern_text = match text::from_utf8(pattern) {
        Some(s) => s,
        None => {
            return Err(command::protocol_error("non-UTF-8 git check-ignore pattern"));
        },
    };
    Ok(IgnoreMatch::Rule(IgnoreRule::new(source_text, number, pattern_text)))
}

/// The fields of an answer; a zero byte at the end opens no further field.
pub open spec fn answer_fields(output: Seq<u8>) -> Seq<Seq<u8>> {
    let fields = bytes::split(output, 0);
    if fields.last().len() == 0 {
        fields.drop_last()
    } else {
        fields
    }
}

/// Some path was answered for already.
pub open spec fn answered_for(
    list: Seq<(Seq<char>, Option<RuleModel>)>,
    path: Seq<char>,
) -> bool {
    exists|i: int| 0 <= i < list.len() && (#[trigger] list[i]).0 == path
}

/// What the first records of an answer say.
pub open spec fn answers(fields: Seq<Seq<u8>>, requested: Seq<Seq<char>>, n: nat) -> Result<
    Seq<(Seq<char>, Option<RuleModel>)>,
    Seq<char>,
>
    decreases n,
{
    if n == 0 {
        Ok(Seq::empty())
    } else {
        let at = 4 * (n - 1);
        match answers(fields, requested, (n - 1) as nat) {
            Err(message) => Err(message),
            Ok(list) => match requested_path(requested, fields[at + 3]) {
                None => Err("git check-ignore returned an unrequested path"@),
                Some(path) => match rule_of(fields[at], fields[at + 1], fields[at + 2]) {
                    Err(message) => Err(message),
                    Ok(rule) => if answered_for(list, path) {
                        Err("git check-ignore returned a duplicate path"@)
                    } else {
                        Ok(list.push((path, rule)))
                    },
                },
            },
        }
    }
}

/// Every requested path was answered for.
pub open spec fn complete(
    list: Seq<(Seq<char>, Option<RuleModel>)>,
    requested: Seq<Seq<char>>,
) -> bool {
    forall|i: int| 0 <= i < requested.len() ==> answered_for(list, #[trigger] requested[i])
}

/// What an answer says of the requested paths: one rule, or none, for each.
pub open spec fn ignore_answer(output: Seq<u8>, requested: Seq<Seq<char>>) -> Result<
    Seq<(Seq<char>, Option<RuleModel>)>,
    Seq<char>,
> {
    let fields = answer_fields(output);
    if fields.len() % 4 != 0 {
        Err("invalid git check-ignore verbose output"@)
    } else {
        match answers(fields, requested, fields.len() / 4) {
            Err(message) => Err(message),
            Ok(list) => if complete(list, requested) {
                Ok(list)
            } else {
                Err("git check-ignore omitted a requested path"@)
            },
        }
    }
}

proof fn lemma_answers_fail(fields: Seq<Seq<u8>>, requested: Seq<Seq<char>>, k: nat, n: nat)
    requires
        k <= n,
        answers(fields, requested, k) is Err,
    ensures
        answers(fields, requested, n) == answers(fields, requested, k),
    decreases n,
{
    if k < n {
        lemma_answers_fail(fields, requested, k, (n - 1) as nat);
    }
}

/// What is known of the ignore rules of some paths.
#[derive(Debug)]
pub struct IgnoreMatches {
    entries: Vec<(ManagedPath, IgnoreMatch)>,
}

pub open spec fn entry_views(v: Seq<(ManagedPath, IgnoreMatch)>) -> Seq<
    (Seq<char>, Option<RuleModel>),
> {
    v.map_values(|e: (ManagedPath, IgnoreMatch)| (e.0@, e.1@))
}

impl View for IgnoreMatches {
    type V = Seq<(Seq<char>, Option<RuleModel>)>;

    closed spec fn view(&self) -> Seq<(Seq<char>, Option<RuleModel>)> {
        entry_views(self.entries@)
    }
}

/// What was answered for a path.
pub open spec fn answer_for(list: Seq<(Seq<char>, Option<RuleModel>)>, path: Seq<char>) -> Option<
    Option<RuleModel>,
>
    decreases list.len(),
{
    if list.len() == 0 {
        None
    } else if list[0].0 == path {
        Some(list[0].1)
    } else {
        answer_for(list.skip(1), path)
    }
}

impl IgnoreMatches {
    /// The answer on no paths.
    pub fn none() -> (r: IgnoreMatches)
        ensures
            r@ == Seq::<(Seq<char>, Option<RuleModel>)>::empty(),
    {
        let r = IgnoreMatches { entries: Vec::new() };
        assert(r@ =~= Seq::empty());
        r
    }

    pub fn len(&self) -> (r: usize)
        ensures
            r == self@.len(),
    {
        self.entries.len()
    }

    pub fn get(&self, path: &ManagedPath) -> (r: Option<&IgnoreMatch>)
        ensures
            match r {
                Some(m) => answer_for(self@, path@) == Some(m@),
                None => answer_for(self@, path@) is None,
            },
    {
        let ghost all = self@;
        let mut i: usize = 0;
        assert(all.skip(0) =~= all);
        while i < self.entries.len()
            invariant
                i <= self.entries.len(),
                all == entry_views(self.entries@),
                answer_for(all, path@) == answer_for(all.skip(i as int), path@),
            decreases self.entries.len() - i,
        {
            assert(all.skip(i as int)[0] == (
                self.entries@[i as int].0@,
                self.entries@[i as int].1@,
            ));
            assert(all.skip(i as int).skip(1) =~= all.skip(i + 1));
            if self.entries[i].0.same(path) {
                return Some(&self.entries[i].1);
            }
            i = i + 1;
        }
        None
    }
}

fn has_entry(list: &Vec<(ManagedPath, IgnoreMatch)>, path: &ManagedPath) -> (r: bool)
    ensures
        r == answered_for(entry_views(list@), path@),
{
    let mut i: usize = 0;
    while i < list.len()
        invariant
            i <= list.len(),
            forall|j: int| 0 <= j < i ==> (#[trigger] entry_views(list@)[j]).0 != path@,
        decreases list.len() - i,
    {
        assert(entry_views(list@)[i as int].0 == list@[i as int].0@);
        if list[i].0.same(path) {
            return true;
        }
        i = i + 1;
    }
    false
}

/// Reads the answer on the ignore rules of the requested paths.
pub fn parse_ignore_matches(output: &[u8], requested: &[ManagedPath]) -> (r: Result<
    IgnoreMatches,
    GitveilError,
>)
    ensures
        match ignore_answer(output@, path::path_texts(requested@)) {
            Ok(list) => r matches Ok(m) && m@ == list,
            Err(message) => r matches Err(e) && e@ == command::protocol_fault(message),
        },
{
    let mut fields = bytes::split_at(output, 0);
    let ghost whole = fields@;
    assert(bytes::pieces(whole).last() == whole.last()@);
    if fields[fields.len() - 1].len() == 0 {
        let _ = fields.pop();
        assert(bytes::pieces(fields@) =~= bytes::pieces(whole).drop_last());
    }
    let ghost all = answer_fields(output@);
    assert(bytes::pieces(fields@) == all);
    assert(all.len() == fields@.len());
    if fields.len() % 4 != 0 {
        return Err(command::protocol_error("invalid git check-ignore verbose output"));
    }
    let count: usize = fields.len() / 4;
    let ghost names = path::path_texts(requested@);
    let mut entries: Vec<(ManagedPath, IgnoreMatch)> = Vec::new();
    let mut k: usize = 0;
    assert(entry_views(entries@) =~= Seq::empty());
    while k < count
        invariant
            k <= count,
            fields@.len() == 4 * count,
            all == answer_fields(output@),
            all == bytes::pieces(fields@),
            names == path::path_texts(requested@),
            answers(all, names, k as nat) == Ok::<
                Seq<(Seq<char>, Option<RuleModel>)>,
                Seq<char>,
            >(entry_views(entries@)),
        decreases count - k,
    {
        let at: usize = 4 * k;
        assert(all[at as int] == fields@[at as int]@);
        assert(all[at + 1] == fields@[at + 1]@);
        assert(all[at + 2] == fields@[at + 2]@);
        assert(all[at + 3] == fields@[at + 3]@);
        proof {
            if answers(all, names, (k + 1) as nat) is Err {
                lemma_answers_fail(all, names, (k + 1) as nat, count as nat);
            }
        }
        let path = match find_requested(requested, fields[at + 3].as_slice()) {
            Some(path) => path,
            None => {
                return Err(
                    command::protocol_error("git check-ignore returned an unrequested path"),
                );
            },
        };
        let outcome = match read_rule(
            fields[at].as_slice(),
            fields[at + 1].as_slice(),
            fields[at + 2].as_slice(),
        ) {
            Ok(outcome) => outcome,
            Err(error) => {
                return Err(error);
            },
        };
        if has_entry(&entries, path) {
            return Err(command::protocol_error("git check-ignore returned a duplicate path"));
        }
        let ghost before = entries@;
        entries.push((path.clone(), outcome));
        assert(entry_views(entries@) =~= entry_views(before).push((path@, outcome@)));
        k = k + 1;
    }
    let mut i: usize = 0;
    while i < requested.len()
        invariant
            i <= requested.len(),
            names == path::path_texts(requested@),
            all == answer_fields(output@),
            all.len() % 4 == 0,
            answers(all, names, all.len() / 4) == Ok::<
                Seq<(Seq<char>, Option<RuleModel>)>,
                Seq<char>,
            >(entry_views(entries@)),
            forall|j: int|
                0 <= j < i ==> answered_for(entry_views(entries@), #[trigger] names[j]),
        decreases requested.len() - i,
    {
        assert(names[i as int] == requested@[i as int]@);
        if !has_entry(&entries, &requested[i]) {
            return Err(command::protocol_error("git check-ignore omitted a requested path"));
        }
        i = i + 1;
    }
    Ok(IgnoreMatches { entries })
}

/// Law: an accepted answer names no path twice, names requested paths only, and names
/// each of them.
pub proof fn law_answer_covers_request(output: Seq<u8>, requested: Seq<Seq<char>>)
    requires
        ignore_answer(output, requested) is Ok,
    ensures
        ({
            let list = ignore_answer(output, requested)->Ok_0;
            &&& complete(list, requested)
            &&& forall|i: int| 0 <= i < list.len() ==> requested.contains((#[trigger] list[i]).0)
            &&& forall|i: int, j: int|
                0 <= i < j < list.len() ==> (#[trigger] list[i]).0 != (#[trigger] list[j]).0
        }),
{
    let fields = answer_fields(output);
    lemma_answers(fields, requested, fields.len() / 4);
}

proof fn lemma_answers(fields: Seq<Seq<u8>>, requested: Seq<Seq<char>>, n: nat)
    requires
        answers(fields, requested, n) is Ok,
    ensures
        ({
            let list = answers(fields, requested, n)->Ok_0;
            &&& forall|i: int| 0 <= i < list.len() ==> requested.contains((#[trigger] list[i]).0)
            &&& forall|i: int, j: int|
                0 <= i < j < list.len() ==> (#[trigger] list[i]).0 != (#[trigger] list[j]).0
        }),
    decreases n,
{
    if n > 0 {
        lemma_answers(fields, requested, (n - 1) as nat);
        lemma_requested_path(requested, fields[4 * (n - 1) + 3]);
    }
}

/// Law: an accepted answer has one record for each of its paths, in its order: the path is a
/// requested one, no path comes twice, and its rule is there exactly where the record names
/// one. A rule ignores the path exactly where its pattern has no exclamation mark in front.
pub proof fn law_answers_say_what_is_recorded(
    fields: Seq<Seq<u8>>,
    requested: Seq<Seq<char>>,
    n: nat,
)
    requires
        answers(fields, requested, n) is Ok,
    ensures
        ({
            let list = answers(fields, requested, n)->Ok_0;
            &&& list.len() == n
            &&& forall|k: int|
                0 <= k < n ==> recorded(fields, requested, #[trigger] list[k], k)
            &&& forall|i: int, k: int|
                0 <= i < k < n ==> (#[trigger] list[i]).0 != (#[trigger] list[k]).0
        }),
    decreases n,
{
    if n > 0 {
        let m = (n - 1) as nat;
        law_answers_say_what_is_recorded(fields, requested, m);
        lemma_requested_path(requested, fields[4 * (n - 1) + 3]);
        let head = answers(fields, requested, m)->Ok_0;
        let list = answers(fields, requested, n)->Ok_0;
        assert forall|k: int| 0 <= k < n implies recorded(
            fields,
            requested,
            #[trigger] list[k],
            k,
        ) by {
            if k < m {
                assert(list[k] == head[k]);
            }
        }
        assert forall|i: int, k: int| 0 <= i < k < n implies (#[trigger] list[i]).0 != (
        #[trigger] list[k]).0 by {
            assert(list[i] == head[i]);
            if k < m {
                assert(list[k] == head[k]);
            } else {
                assert(!answered_for(head, list[k].0));
            }
        }
    }
}

/// A path and its rule are those of a record of an answer.
pub open spec fn recorded(
    fields: Seq<Seq<u8>>,
    requested: Seq<Seq<char>>,
    x: (Seq<char>, Option<RuleModel>),
    k: int,
) -> bool {
    let (source, line, pattern) = (fields[4 * k], fields[4 * k + 1], fields[4 * k + 2]);
    &&& requested.contains(x.0)
    &&& vstd::utf8::encode_utf8(x.0) == fields[4 * k + 3]
    &&& x.1 is None <==> source.len() == 0 && line.len() == 0 && pattern.len() == 0
    &&& x.1 matches Some(rule) ==> {
        &&& vstd::utf8::valid_utf8(source) && rule.source == vstd::utf8::decode_utf8(source)
        &&& vstd::utf8::valid_utf8(pattern) && rule.pattern == vstd::utf8::decode_utf8(pattern)
        &&& integer::unsigned_value(vstd::utf8::decode_utf8(line), usize::MAX as int) == Some(
            rule.line,
        )
        &&& rule.ignored <==> !(rule.pattern.len() > 0 && rule.pattern[0] == '!')
    }
}

} // verus!
