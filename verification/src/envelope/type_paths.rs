//! Where a document holds scalars that YAML strings stand for.

use vstd::prelude::*;

use crate::codec::integer;
use crate::codec::yaml;
use crate::codec::yaml::{YamlTree, YamlValue};
use crate::envelope::fault::{EnvelopeError, EnvelopeFault};
use crate::segment;
use crate::source::node;
use crate::source::{NodePath, PathSegment};
use crate::text;

verus! {

/// The kind of a scalar that a marked string stands for.
#[derive(Clone, Copy, Debug, PartialEq, Eq, Structural)]
pub enum InternalScalarType {
    DateTime,
    Integer,
    Float,
    Null,
}

impl InternalScalarType {
    pub open spec fn name(self) -> Seq<char> {
        match self {
            InternalScalarType::DateTime => "datetime"@,
            InternalScalarType::Integer => "integer"@,
            InternalScalarType::Float => "float"@,
            InternalScalarType::Null => "null"@,
        }
    }

    pub fn as_str(self) -> (r: &'static str)
        ensures
            r@ == self.name(),
    {
        match self {
            InternalScalarType::DateTime => "datetime",
            InternalScalarType::Integer => "integer",
            InternalScalarType::Float => "float",
            InternalScalarType::Null => "null",
        }
    }
}

pub open spec fn kind_named(name: Seq<char>) -> Option<InternalScalarType> {
    if name == "datetime"@ {
        Some(InternalScalarType::DateTime)
    } else if name == "integer"@ {
        Some(InternalScalarType::Integer)
    } else if name == "float"@ {
        Some(InternalScalarType::Float)
    } else if name == "null"@ {
        Some(InternalScalarType::Null)
    } else {
        None
    }
}

fn find_kind(name: &str) -> (r: Option<InternalScalarType>)
    ensures
        r == kind_named(name@),
{
    if text::eq(name, "datetime") {
        Some(InternalScalarType::DateTime)
    } else if text::eq(name, "integer") {
        Some(InternalScalarType::Integer)
    } else if text::eq(name, "float") {
        Some(InternalScalarType::Float)
    } else if text::eq(name, "null") {
        Some(InternalScalarType::Null)
    } else {
        None
    }
}

/// A key without slashes: a tilde becomes `~0`, a slash `~1`.
pub open spec fn escaped(key: Seq<char>) -> Seq<char>
    decreases key.len(),
{
    if key.len() == 0 {
        Seq::empty()
    } else {
        let head = escaped(key.drop_last());
        let c = key.last();
        if c == '~' {
            head.push('~').push('0')
        } else if c == '/' {
            head.push('~').push('1')
        } else {
            head.push(c)
        }
    }
}

fn escape(key: &str) -> (r: String)
    ensures
        r@ == escaped(key@),
{
    let chars = text::chars_of(key);
    let mut out: Vec<char> = Vec::new();
    let mut i: usize = 0;
    while i < chars.len()
        invariant
            i <= chars.len(),
            chars@ == key@,
            out@ == escaped(key@.take(i as int)),
        decreases chars.len() - i,
    {
        let c = chars[i];
        assert(key@.take(i + 1).drop_last() =~= key@.take(i as int));
        if c == '~' {
            out.push('~');
            out.push('0');
        } else if c == '/' {
            out.push('~');
            out.push('1');
        } else {
            out.push(c);
        }
        i = i + 1;
    }
    assert(key@.take(i as int) =~= key@);
    text::string_of(out.as_slice())
}

/// What stands behind the slash of one step.
pub open spec fn encoded_step(step: node::Step) -> Seq<char> {
    match step {
        node::Step::Key(key) => "k:"@ + escaped(key),
        node::Step::Index(n) => "i:"@ + segment::decimal(n as nat),
    }
}

pub open spec fn encoded_steps(path: Seq<node::Step>) -> Seq<char>
    decreases path.len(),
{
    if path.len() == 0 {
        Seq::empty()
    } else {
        encoded_steps(path.drop_last()) + ("/"@ + encoded_step(path.last()))
    }
}

/// The name of a path in the list of types.
pub open spec fn encoded(path: Seq<node::Step>) -> Seq<char> {
    "$"@ + encoded_steps(path)
}

pub fn encode_path(path: &NodePath) -> (r: String)
    ensures
        r@ == encoded(path@),
{
    let mut out = "$".to_owned();
    let segments = path.segments();
    let mut i: usize = 0;
    assert(out@ =~= "$"@ + encoded_steps(path@.take(0)));
    while i < segments.len()
        invariant
            node::steps(segments@) == path@,
            i <= segments.len(),
            out@ == "$"@ + encoded_steps(path@.take(i as int)),
        decreases segments.len() - i,
    {
        let ghost before = out@;
        assert(path@.take(i + 1).drop_last() =~= path@.take(i as int));
        assert(path@.take(i + 1).last() == segments@[i as int]@);
        out.append("/");
        match &segments[i] {
            PathSegment::Key(key) => {
                out.append("k:");
                out.append(escape(key.as_str()).as_str());
            },
            PathSegment::Index(n) => {
                out.append("i:");
                out.append(segment::decimal_of(*n).as_str());
            },
        }
        assert(out@ =~= before + ("/"@ + encoded_step(segments@[i as int]@)));
        assert(out@ =~= "$"@ + encoded_steps(path@.take(i + 1)));
        i = i + 1;
    }
    assert(path@.take(i as int) =~= path@);
    out
}

/// Nothing that stands behind a slash holds one.
pub open spec fn slashless(s: Seq<char>) -> bool {
    forall|i: int| 0 <= i < s.len() ==> #[trigger] s[i] != '/'
}

proof fn lemma_escaped(a: Seq<char>)
    ensures
        slashless(escaped(a)),
    decreases a.len(),
{
    if a.len() > 0 {
        lemma_escaped(a.drop_last());
    }
}

proof fn lemma_escaped_is_injective(a: Seq<char>, b: Seq<char>)
    requires
        escaped(a) == escaped(b),
    ensures
        a == b,
    decreases a.len(),
{
    lemma_escaped_end(a);
    lemma_escaped_end(b);
    if a.len() == 0 {
        assert(a =~= b);
    } else if b.len() > 0 {
        let (x, y) = (a.drop_last(), b.drop_last());
        let (s, t) = (escaped(a), escaped(b));
        assert(a.last() == b.last());
        if a.last() == '~' || a.last() == '/' {
            assert(escaped(x) =~= s.take(s.len() - 2));
            assert(escaped(y) =~= t.take(t.len() - 2));
        } else {
            assert(escaped(x) =~= s.take(s.len() - 1));
            assert(escaped(y) =~= t.take(t.len() - 1));
        }
        lemma_escaped_is_injective(x, y);
        assert(a =~= x.push(a.last()));
        assert(b =~= y.push(b.last()));
    }
}

/// How an escaped key ends tells what its last character was: after a tilde only a
/// digit of an escape can stand.
proof fn lemma_escaped_end(a: Seq<char>)
    ensures
        ({
            let s = escaped(a);
            &&& a.len() == 0 <==> s.len() == 0
            &&& a.len() > 0 ==> s.last() != '~'
            &&& a.len() > 0 && a.last() == '~' <==> s.len() >= 2 && s[s.len() - 2] == '~'
                && s.last() == '0'
            &&& a.len() > 0 && a.last() == '/' <==> s.len() >= 2 && s[s.len() - 2] == '~'
                && s.last() == '1'
            &&& a.len() > 0 && a.last() != '~' && a.last() != '/' ==> s.last() == a.last()
        }),
    decreases a.len(),
{
    if a.len() > 0 {
        lemma_escaped_end(a.drop_last());
    }
}

proof fn lemma_encoded_step(a: node::Step)
    requires
        a matches node::Step::Index(n) ==> 0 <= n,
    ensures
        slashless(encoded_step(a)),
        encoded_step(a).len() >= 2,
        encoded_step(a)[0] == if a is Key { 'k' } else { 'i' },
{
    reveal_strlit("k:");
    reveal_strlit("i:");
    match a {
        node::Step::Key(key) => {
            lemma_escaped(key);
        },
        node::Step::Index(n) => {
            integer::lemma_decimal(n as nat);
        },
    }
}

proof fn lemma_encoded_step_is_injective(a: node::Step, b: node::Step)
    requires
        a matches node::Step::Index(n) ==> 0 <= n,
        b matches node::Step::Index(n) ==> 0 <= n,
        encoded_step(a) == encoded_step(b),
    ensures
        a == b,
{
    lemma_encoded_step(a);
    lemma_encoded_step(b);
    reveal_strlit("k:");
    reveal_strlit("i:");
    match (a, b) {
        (node::Step::Key(x), node::Step::Key(y)) => {
            assert(escaped(x) =~= encoded_step(a).skip(2));
            assert(escaped(y) =~= encoded_step(b).skip(2));
            lemma_escaped_is_injective(x, y);
        },
        (node::Step::Index(x), node::Step::Index(y)) => {
            assert(segment::decimal(x as nat) =~= encoded_step(a).skip(2));
            assert(segment::decimal(y as nat) =~= encoded_step(b).skip(2));
            integer::lemma_decimal(x as nat);
            integer::lemma_decimal(y as nat);
        },
        _ => {},
    }
}

proof fn lemma_last_slash(a: Seq<char>, x: Seq<char>, b: Seq<char>, y: Seq<char>)
    requires
        slashless(x),
        slashless(y),
        a + ("/"@ + x) == b + ("/"@ + y),
    ensures
        a == b,
        x == y,
{
    reveal_strlit("/");
    let s = a + ("/"@ + x);
    let t = b + ("/"@ + y);
    assert("/"@.len() == 1);
    assert(s.len() == a.len() + 1 + x.len());
    assert(t.len() == b.len() + 1 + y.len());
    assert(s[a.len() as int] == '/');
    assert(t[b.len() as int] == '/');
    if a.len() < b.len() {
        assert(s[b.len() as int] == ("/"@ + x)[b.len() - a.len()]);
        assert(s[b.len() as int] == x[b.len() - a.len() - 1]);
    }
    if b.len() < a.len() {
        assert(t[a.len() as int] == ("/"@ + y)[a.len() - b.len()]);
        assert(t[a.len() as int] == y[a.len() - b.len() - 1]);
    }
    assert(a =~= s.take(a.len() as int));
    assert(b =~= t.take(b.len() as int));
    assert(x =~= s.skip(a.len() as int + 1));
    assert(y =~= t.skip(b.len() as int + 1));
}

/// Every index of the path is a natural number.
pub open spec fn natural(path: Seq<node::Step>) -> bool {
    forall|i: int|
        0 <= i < path.len() ==> ((#[trigger] path[i]) matches node::Step::Index(k) ==> 0 <= k)
}

/// Law: two paths have the same name only where they are the same path.
pub proof fn law_encoded_paths_are_distinct(p: Seq<node::Step>, q: Seq<node::Step>)
    requires
        natural(p),
        natural(q),
        encoded(p) == encoded(q),
    ensures
        p == q,
    decreases p.len(),
{
    reveal_strlit("$");
    reveal_strlit("/");
    assert(encoded_steps(p) =~= encoded(p).skip(1));
    assert(encoded_steps(q) =~= encoded(q).skip(1));
    if p.len() == 0 {
        if q.len() > 0 {
            assert(encoded_steps(q).len() > 0);
        }
        assert(p =~= q);
    } else if q.len() == 0 {
        assert(encoded_steps(p).len() > 0);
    } else {
        let (a, b) = (p.drop_last(), q.drop_last());
        assert(p[p.len() - 1] == p.last() && q[q.len() - 1] == q.last());
        lemma_encoded_step(p.last());
        lemma_encoded_step(q.last());
        lemma_last_slash(
            encoded_steps(a),
            encoded_step(p.last()),
            encoded_steps(b),
            encoded_step(q.last()),
        );
        lemma_encoded_step_is_injective(p.last(), q.last());
        assert forall|i: int| 0 <= i < a.len() implies ((
        #[trigger] a[i]) matches node::Step::Index(k) ==> 0 <= k) by {
            assert(a[i] == p[i]);
        }
        assert forall|i: int| 0 <= i < b.len() implies ((
        #[trigger] b[i]) matches node::Step::Index(k) ==> 0 <= k) by {
            assert(b[i] == q[i]);
        }
        law_encoded_paths_are_distinct(a, b);
        assert(p =~= a.push(p.last()));
        assert(q =~= b.push(q.last()));
    }
}

/// The type that a list gives for a name.
pub open spec fn type_at(types: Seq<(Seq<char>, InternalScalarType)>, name: Seq<char>) -> Option<
    InternalScalarType,
>
    decreases types.len(),
{
    if types.len() == 0 {
        None
    } else if types[0].0 == name {
        Some(types[0].1)
    } else {
        type_at(types.skip(1), name)
    }
}

pub open spec fn type_names(types: Seq<(Seq<char>, InternalScalarType)>) -> Seq<Seq<char>> {
    types.map_values(|x: (Seq<char>, InternalScalarType)| x.0)
}

/// A list of types, as mathematics sees it.
pub open spec fn view_types(v: Seq<(String, InternalScalarType)>) -> Seq<
    (Seq<char>, InternalScalarType),
> {
    v.map_values(|x: (String, InternalScalarType)| (x.0@, x.1))
}

pub fn find_type(types: &Vec<(String, InternalScalarType)>, name: &str) -> (r: Option<
    InternalScalarType,
>)
    ensures
        r == type_at(view_types(types@), name@),
{
    let ghost all = view_types(types@);
    let mut i: usize = 0;
    assert(all.skip(0) =~= all);
    while i < types.len()
        invariant
            all == view_types(types@),
            i <= types.len(),
            type_at(all.skip(i as int), name@) == type_at(all, name@),
        decreases types.len() - i,
    {
        assert(all.skip(i as int)[0] == (types@[i as int].0@, types@[i as int].1));
        if text::eq(types[i].0.as_str(), name) {
            return Some(types[i].1);
        }
        assert(all.skip(i as int).skip(1) =~= all.skip(i + 1));
        i = i + 1;
    }
    None
}

/// A type is found where the list holds the name.
pub proof fn lemma_type_at(types: Seq<(Seq<char>, InternalScalarType)>, name: Seq<char>)
    ensures
        type_at(types, name) is Some <==> type_names(types).contains(name),
    decreases types.len(),
{
    if types.len() > 0 {
        let rest = types.skip(1);
        lemma_type_at(rest, name);
        if types[0].0 == name {
            assert(type_names(types)[0] == name);
        } else {
            if type_names(rest).contains(name) {
                let i = choose|i: int| 0 <= i < rest.len() && type_names(rest)[i] == name;
                assert(type_names(types)[i + 1] == name);
            }
            if type_names(types).contains(name) {
                let i = choose|i: int| 0 <= i < types.len() && type_names(types)[i] == name;
                assert(type_names(rest)[i - 1] == name);
            }
        }
    }
}

/// A name begins with a dollar sign, and each step tells whether it is a key or an
/// index.
pub open spec fn valid_name(s: Seq<char>) -> bool {
    &&& s.len() > 0
    &&& s[0] == '$'
    &&& forall|i: int|
        1 <= i < segment::split(s, '/').len() ==> valid_step(
            #[trigger] segment::split(s, '/')[i],
        )
}

pub open spec fn valid_step(s: Seq<char>) -> bool {
    text::starts_with(s, "k:"@) || text::starts_with(s, "i:"@)
}

fn is_valid_name(s: &str) -> (r: bool)
    ensures
        r == valid_name(s@),
{
    let chars = text::chars_of(s);
    if chars.len() == 0 || chars[0] != '$' {
        return false;
    }
    let parts = segment::split_at_char(chars.as_slice(), '/');
    let key = text::chars_of("k:");
    let index = text::chars_of("i:");
    let mut i: usize = 1;
    while i < parts.len()
        invariant
            text::pieces(parts@) == segment::split(s@, '/'),
            key@ == "k:"@,
            index@ == "i:"@,
            1 <= i,
            forall|j: int|
                1 <= j < i && j < parts@.len() ==> valid_step(
                    #[trigger] segment::split(s@, '/')[j],
                ),
        decreases parts.len() - i,
    {
        assert(segment::split(s@, '/')[i as int] == parts@[i as int]@);
        if !text::begins(parts[i].as_slice(), key.as_slice()) && !text::begins(
            parts[i].as_slice(),
            index.as_slice(),
        ) {
            return false;
        }
        i = i + 1;
    }
    true
}

pub open spec fn structure(reason: Seq<char>) -> EnvelopeFault {
    EnvelopeFault::InvalidStructure(reason)
}

/// The marker of a type: a mapping of its name to an empty mapping.
pub open spec fn marker_type(t: YamlTree) -> Result<InternalScalarType, EnvelopeFault> {
    match yaml::mapping_of(t) {
        None => Err(structure("type marker must be a mapping"@)),
        Some(m) => if m.len() != 1 {
            Err(structure("invalid type marker"@))
        } else {
            match yaml::text_of(m[0].0) {
                None => Err(structure("unknown type marker"@)),
                Some(name) => match kind_named(name) {
                    None => Err(structure("unknown type marker"@)),
                    Some(kind) => match yaml::mapping_of(m[0].1) {
                        Some(inner) => if inner.len() == 0 {
                            Ok(kind)
                        } else {
                            Err(structure("invalid duplicate type marker"@))
                        },
                        None => Err(structure("invalid duplicate type marker"@)),
                    },
                },
            }
        },
    }
}

/// The types of the first `n` entries of a mapping.
pub open spec fn types_of(m: Seq<(YamlTree, YamlTree)>, n: int) -> Result<
    Seq<(Seq<char>, InternalScalarType)>,
    EnvelopeFault,
>
    decreases n,
{
    if n <= 0 || n > m.len() {
        Ok(Seq::empty())
    } else {
        match types_of(m, n - 1) {
            Err(fault) => Err(fault),
            Ok(head) => match yaml::text_of(m[n - 1].0) {
                None => Err(structure("type path must be a string"@)),
                Some(name) => if !valid_name(name) {
                    Err(structure("invalid type path"@))
                } else {
                    match marker_type(m[n - 1].1) {
                        Err(fault) => Err(fault),
                        Ok(kind) => if type_at(head, name) is Some {
                            Err(structure("invalid duplicate type marker"@))
                        } else {
                            Ok(head.push((name, kind)))
                        },
                    }
                },
            },
        }
    }
}

/// The types that the field of an envelope lists.
pub open spec fn types_in(t: YamlTree) -> Result<
    Seq<(Seq<char>, InternalScalarType)>,
    EnvelopeFault,
> {
    match yaml::mapping_of(t) {
        None => Err(structure("types must be a mapping"@)),
        Some(m) => types_of(m, m.len() as int),
    }
}

proof fn lemma_types_fail(m: Seq<(YamlTree, YamlTree)>, n: int, k: int)
    requires
        0 <= n <= k <= m.len(),
        types_of(m, n) is Err,
    ensures
        types_of(m, k) == types_of(m, n),
    decreases k,
{
    if n < k {
        lemma_types_fail(m, n, k - 1);
    }
}

fn read_marker(t: &YamlValue) -> (r: Result<InternalScalarType, EnvelopeError>)
    ensures
        match marker_type(t@) {
            Ok(kind) => r == Ok::<_, EnvelopeError>(kind),
            Err(fault) => r matches Err(e) && e@ == fault,
        },
{
    let m = match t.as_mapping() {
        Some(m) => m,
        None => {
            return Err(EnvelopeError::InvalidStructure("type marker must be a mapping"));
        },
    };
    if m.len() != 1 {
        return Err(EnvelopeError::InvalidStructure("invalid type marker"));
    }
    assert(yaml::pairs(m@)[0] == (m@[0].0@, m@[0].1@));
    let kind = match m[0].0.as_text() {
        Some(name) => match find_kind(name.as_str()) {
            Some(kind) => kind,
            None => {
                return Err(EnvelopeError::InvalidStructure("unknown type marker"));
            },
        },
        None => {
            return Err(EnvelopeError::InvalidStructure("unknown type marker"));
        },
    };
    match m[0].1.as_mapping() {
        Some(inner) => if inner.len() == 0 {
            Ok(kind)
        } else {
            Err(EnvelopeError::InvalidStructure("invalid duplicate type marker"))
        },
        None => Err(EnvelopeError::InvalidStructure("invalid duplicate type marker")),
    }
}

/// Reads the list of types of an envelope.
pub fn parse_type_paths(t: &YamlValue) -> (r: Result<
    Vec<(String, InternalScalarType)>,
    EnvelopeError,
>)
    ensures
        match types_in(t@) {
            Ok(types) => r matches Ok(v) && view_types(v@) == types,
            Err(fault) => r matches Err(e) && e@ == fault,
        },
{
    let list = match t.as_mapping() {
        Some(list) => list,
        None => {
            return Err(EnvelopeError::InvalidStructure("types must be a mapping"));
        },
    };
    let ghost m = yaml::pairs(list@);
    let mut out: Vec<(String, InternalScalarType)> = Vec::new();
    let mut i: usize = 0;
    assert(view_types(out@) =~= Seq::<(Seq<char>, InternalScalarType)>::empty());
    while i < list.len()
        invariant
            m == yaml::pairs(list@),
            yaml::mapping_of(t@) == Some(m),
            i <= list.len(),
            types_of(m, i as int) == Ok::<Seq<(Seq<char>, InternalScalarType)>, EnvelopeFault>(
                view_types(out@),
            ),
        decreases list.len() - i,
    {
        assert(m[i as int] == (list@[i as int].0@, list@[i as int].1@));
        proof {
            if types_of(m, i + 1) is Err {
                lemma_types_fail(m, i + 1, m.len() as int);
            }
        }
        let name = match list[i].0.as_text() {
            Some(name) => name,
            None => {
                return Err(EnvelopeError::InvalidStructure("type path must be a string"));
            },
        };
        if !is_valid_name(name.as_str()) {
            return Err(EnvelopeError::InvalidStructure("invalid type path"));
        }
        let kind = match read_marker(&list[i].1) {
            Ok(kind) => kind,
            Err(error) => {
                return Err(error);
            },
        };
        if find_type(&out, name.as_str()).is_some() {
            return Err(EnvelopeError::InvalidStructure("invalid duplicate type marker"));
        }
        let ghost before = out@;
        out.push((name.clone(), kind));
        assert(view_types(out@) =~= view_types(before).push((name@, kind)));
        i = i + 1;
    }
    Ok(out)
}

proof fn lemma_encoded_parts(path: Seq<node::Step>)
    requires
        natural(path),
    ensures
        segment::split(encoded(path), '/').len() == path.len() + 1,
        forall|i: int|
            1 <= i < segment::split(encoded(path), '/').len() ==> valid_step(
                #[trigger] segment::split(encoded(path), '/')[i],
            ),
        encoded(path).len() > 0,
        encoded(path)[0] == '$',
    decreases path.len(),
{
    reveal_strlit("$");
    reveal_strlit("/");
    reveal_strlit("k:");
    reveal_strlit("i:");
    if path.len() == 0 {
        assert(encoded(path) =~= "$"@);
        segment::lemma_before_is("$"@, '/', 1);
        assert(segment::split("$"@, '/') =~= seq!["$"@]);
    } else {
        let head = path.drop_last();
        let step = encoded_step(path.last());
        assert(path[path.len() - 1] == path.last());
        assert forall|i: int| 0 <= i < head.len() implies ((
        #[trigger] head[i]) matches node::Step::Index(k) ==> 0 <= k) by {
            assert(head[i] == path[i]);
        }
        lemma_encoded_parts(head);
        lemma_encoded_step(path.last());
        assert(encoded(path) =~= encoded(head).push('/') + step);
        assert(!step.contains('/'));
        segment::lemma_split_piece(encoded(head), step, '/');
        let (a, b) = (segment::split(encoded(head), '/'), segment::split(encoded(path), '/'));
        assert forall|i: int| 1 <= i < b.len() implies valid_step(#[trigger] b[i]) by {
            if i < a.len() {
                assert(b[i] == a[i]);
            } else {
                assert(b[i] == step);
                match path.last() {
                    node::Step::Key(_) => {
                        assert(step.subrange(0, 2) =~= "k:"@);
                    },
                    node::Step::Index(_) => {
                        assert(step.subrange(0, 2) =~= "i:"@);
                    },
                }
            }
        }
    }
}

/// The name of a path is one that the reader accepts.
pub proof fn lemma_encoded_name(path: Seq<node::Step>)
    requires
        natural(path),
    ensures
        valid_name(encoded(path)),
{
    lemma_encoded_parts(path);
}

/// The field of an envelope that lists types.
pub open spec fn types_tree(types: Seq<(Seq<char>, InternalScalarType)>) -> YamlTree {
    YamlTree::Mapping(
        types.map_values(
            |x: (Seq<char>, InternalScalarType)|
                (YamlTree::String(x.0), marker_tree(x.1)),
        ),
    )
}

pub open spec fn marker_tree(kind: InternalScalarType) -> YamlTree {
    YamlTree::Mapping(seq![(YamlTree::String(kind.name()), YamlTree::Mapping(Seq::empty()))])
}

proof fn lemma_marker(kind: InternalScalarType)
    ensures
        marker_type(marker_tree(kind)) == Ok::<InternalScalarType, EnvelopeFault>(kind),
{
    reveal_strlit("datetime");
    reveal_strlit("integer");
    reveal_strlit("float");
    reveal_strlit("null");
    assert("datetime"@.len() == 8 && "integer"@.len() == 7 && "float"@.len() == 5 && "null"@.len()
        == 4);
}

/// Law: a list of types without a name twice is read as it was written.
pub proof fn law_types_are_read_back(types: Seq<(Seq<char>, InternalScalarType)>, n: int)
    requires
        0 <= n <= types.len(),
        type_names(types).no_duplicates(),
        forall|i: int| 0 <= i < types.len() ==> valid_name((#[trigger] types[i]).0),
    ensures
        types_of(types_tree(types)->Mapping_0, n) == Ok::<
            Seq<(Seq<char>, InternalScalarType)>,
            EnvelopeFault,
        >(types.take(n)),
    decreases n,
{
    let m = types_tree(types)->Mapping_0;
    if n > 0 {
        law_types_are_read_back(types, n - 1);
        let head = types.take(n - 1);
        assert(m[n - 1] == (YamlTree::String(types[n - 1].0), marker_tree(types[n - 1].1)));
        lemma_marker(types[n - 1].1);
        lemma_type_at(head, types[n - 1].0);
        if type_names(head).contains(types[n - 1].0) {
            let k = choose|k: int|
                0 <= k < type_names(head).len() && type_names(head)[k] == types[n - 1].0;
            assert(type_names(types)[k] == type_names(head)[k]);
            assert(type_names(types)[n - 1] == types[n - 1].0);
        }
        assert(head.push(types[n - 1]) =~= types.take(n));
    } else {
        assert(types.take(0) =~= Seq::<(Seq<char>, InternalScalarType)>::empty());
    }
}

} // verus!
