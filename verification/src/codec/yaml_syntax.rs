//! The syntax of a YAML file: where its scalars stand.

use vstd::prelude::*;

verus! {

/// A key of a mapping: whether it is a plain integer, float, boolean or null, and
/// its text.
pub struct KeyModel {
    pub integer: bool,
    pub float: bool,
    pub boolean: bool,
    pub null: bool,
    pub text: Seq<char>,
}

/// The syntax of a YAML value. A scalar has the byte range of its text.
pub enum SyntaxTree {
    Scalar(int, int),
    Mapping(Seq<(Option<KeyModel>, Option<SyntaxTree>)>),
    Sequence(Seq<SyntaxTree>),
    Alias,
    Tagged(Option<(int, int)>),
}

pub struct SyntaxKey {
    pub integer: bool,
    pub float: bool,
    pub boolean: bool,
    pub null: bool,
    pub text: String,
}

impl View for SyntaxKey {
    type V = KeyModel;

    open spec fn view(&self) -> KeyModel {
        KeyModel {
            integer: self.integer,
            float: self.float,
            boolean: self.boolean,
            null: self.null,
            text: self.text@,
        }
    }
}

pub enum SyntaxNode {
    Scalar(usize, usize),
    Mapping(Vec<(Option<SyntaxKey>, Option<SyntaxNode>)>),
    Sequence(Vec<SyntaxNode>),
    Alias,
    Tagged(Option<(usize, usize)>),
}

pub open spec fn view_key(k: Option<SyntaxKey>) -> Option<KeyModel> {
    match k {
        Some(key) => Some(key@),
        None => None,
    }
}

pub open spec fn view_range(r: Option<(usize, usize)>) -> Option<(int, int)> {
    match r {
        Some((start, end)) => Some((start as int, end as int)),
        None => None,
    }
}

impl SyntaxNode {
    pub open spec fn view(&self) -> SyntaxTree
        decreases self,
    {
        match self {
            SyntaxNode::Scalar(start, end) => SyntaxTree::Scalar(*start as int, *end as int),
            SyntaxNode::Mapping(v) => SyntaxTree::Mapping(
                Seq::new(
                    v@.len(),
                    |i: int|
                        if 0 <= i < v@.len() {
                            (
                                view_key(v@[i].0),
                                match v@[i].1 {
                                    Some(n) => Some(n.view()),
                                    None => None,
                                },
                            )
                        } else {
                            arbitrary()
                        },
                ),
            ),
            SyntaxNode::Sequence(v) => SyntaxTree::Sequence(
                Seq::new(
                    v@.len(),
                    |i: int|
                        if 0 <= i < v@.len() {
                            v@[i].view()
                        } else {
                            arbitrary()
                        },
                ),
            ),
            SyntaxNode::Alias => SyntaxTree::Alias,
            SyntaxNode::Tagged(range) => SyntaxTree::Tagged(view_range(*range)),
        }
    }
}

pub open spec fn view_node(n: Option<SyntaxNode>) -> Option<SyntaxTree> {
    match n {
        Some(node) => Some(node@),
        None => None,
    }
}

pub open spec fn items(v: Seq<SyntaxNode>) -> Seq<SyntaxTree> {
    v.map_values(|x: SyntaxNode| x@)
}

pub open spec fn entries(v: Seq<(Option<SyntaxKey>, Option<SyntaxNode>)>) -> Seq<
    (Option<KeyModel>, Option<SyntaxTree>),
> {
    v.map_values(|x: (Option<SyntaxKey>, Option<SyntaxNode>)| (view_key(x.0), view_node(x.1)))
}

pub proof fn lemma_view(n: SyntaxNode)
    ensures
        n matches SyntaxNode::Mapping(v) ==> n@ == SyntaxTree::Mapping(entries(v@)),
        n matches SyntaxNode::Sequence(v) ==> n@ == SyntaxTree::Sequence(items(v@)),
{
    match n {
        SyntaxNode::Mapping(v) => {
            assert(n@->Mapping_0 =~= entries(v@));
        },
        SyntaxNode::Sequence(v) => {
            assert(n@->Sequence_0 =~= items(v@));
        },
        _ => {},
    }
}

#[verifier::external_type_specification]
#[verifier::external_body]
pub struct ExYamlNode(yaml_edit::YamlNode);

/// The syntax that a node of `yaml_edit` stands for.
pub uninterp spec fn syntax_tree(n: yaml_edit::YamlNode) -> SyntaxTree;

/// One level of the syntax of a node.
pub enum SyntaxShape {
    Scalar(usize, usize),
    Mapping(Vec<(Option<yaml_edit::YamlNode>, Option<yaml_edit::YamlNode>)>),
    Sequence(Vec<yaml_edit::YamlNode>),
    Alias,
    Tagged(Option<(usize, usize)>),
}

pub open spec fn outside_node(n: Option<yaml_edit::YamlNode>) -> Option<SyntaxTree> {
    match n {
        Some(node) => Some(syntax_tree(node)),
        None => None,
    }
}

pub open spec fn outside_items(v: Seq<yaml_edit::YamlNode>) -> Seq<SyntaxTree> {
    v.map_values(|x: yaml_edit::YamlNode| syntax_tree(x))
}

pub open spec fn outside_key(n: Option<yaml_edit::YamlNode>) -> Option<KeyModel> {
    match n {
        Some(node) => syntax_key(node),
        None => None,
    }
}

pub open spec fn outside_entries(
    v: Seq<(Option<yaml_edit::YamlNode>, Option<yaml_edit::YamlNode>)>,
) -> Seq<(Option<KeyModel>, Option<SyntaxTree>)> {
    v.map_values(
        |x: (Option<yaml_edit::YamlNode>, Option<yaml_edit::YamlNode>)|
            (outside_key(x.0), outside_node(x.1)),
    )
}

impl SyntaxShape {
    pub open spec fn tree(self) -> SyntaxTree {
        match self {
            SyntaxShape::Scalar(start, end) => SyntaxTree::Scalar(start as int, end as int),
            SyntaxShape::Mapping(v) => SyntaxTree::Mapping(outside_entries(v@)),
            SyntaxShape::Sequence(v) => SyntaxTree::Sequence(outside_items(v@)),
            SyntaxShape::Alias => SyntaxTree::Alias,
            SyntaxShape::Tagged(range) => SyntaxTree::Tagged(view_range(range)),
        }
    }
}

/// What a node says as a key of a mapping; `None` where it is no scalar.
pub uninterp spec fn syntax_key(n: yaml_edit::YamlNode) -> Option<KeyModel>;

/// `yaml_edit::YamlNode::as_scalar`, and of a scalar `as_i64`, `as_f64`, `as_bool`,
/// `is_null` and `as_string`.
#[verifier::external_body]
fn scalar_key(node: &yaml_edit::YamlNode) -> (r: Option<SyntaxKey>)
    ensures
        view_key(r) == syntax_key(*node),
{
    node.as_scalar().map(
        |key| SyntaxKey {
            integer: key.as_i64().is_some(),
            float: key.as_f64().is_some(),
            boolean: key.as_bool().is_some(),
            null: key.is_null(),
            text: key.as_string(),
        },
    )
}

/// Takes one level of a `yaml_edit::YamlNode` apart, variant by variant: a scalar
/// by its byte range, a mapping by the key and value nodes of its entries, a
/// sequence by its values, and a tagged node by the range of its scalar.
#[verifier::external_body]
fn syntax_shape(node: yaml_edit::YamlNode) -> (r: SyntaxShape)
    ensures
        r.tree() == syntax_tree(node),
{
    match node {
        yaml_edit::YamlNode::Scalar(scalar) => {
            let range = scalar.byte_range();
            SyntaxShape::Scalar(range.start as usize, range.end as usize)
        },
        yaml_edit::YamlNode::Mapping(map) => SyntaxShape::Mapping(
            map.entries().map(|entry| (entry.key_node(), entry.value_node())).collect(),
        ),
        yaml_edit::YamlNode::Sequence(list) => SyntaxShape::Sequence(list.values().collect()),
        yaml_edit::YamlNode::Alias(_) => SyntaxShape::Alias,
        yaml_edit::YamlNode::TaggedNode(tagged) => SyntaxShape::Tagged(
            tagged.value().map(|scalar| scalar.byte_range()).map(|r| (r.start as usize, r.end as usize)),
        ),
    }
}

/// The roots of the documents of a YAML file, and how the file is printed; or why
/// it cannot be parsed.
pub uninterp spec fn yaml_file_syntax(s: Seq<char>) -> Result<
    (Seq<Option<SyntaxTree>>, Seq<char>),
    Seq<char>,
>;

pub open spec fn outside_roots(v: Seq<Option<yaml_edit::YamlNode>>) -> Seq<Option<SyntaxTree>> {
    v.map_values(|x: Option<yaml_edit::YamlNode>| outside_node(x))
}

/// `str::parse::<yaml_edit::YamlFile>`, the root of each of its documents, where
/// that is a mapping, a sequence or a scalar, and how the file prints.
#[verifier::external_body]
fn yaml_file(s: &str) -> (r: Result<(Vec<Option<yaml_edit::YamlNode>>, String), String>)
    ensures
        match r {
            Ok(parsed) => yaml_file_syntax(s@) == Ok::<
                (Seq<Option<SyntaxTree>>, Seq<char>),
                Seq<char>,
            >((outside_roots(parsed.0@), parsed.1@)),
            Err(reason) => yaml_file_syntax(s@) == Err::<
                (Seq<Option<SyntaxTree>>, Seq<char>),
                Seq<char>,
            >(reason@),
        },
{
    let file = s.parse::<yaml_edit::YamlFile>().map_err(|error| error.to_string())?;
    let roots = file.documents().map(|document| {
        document.as_mapping().map(yaml_edit::YamlNode::Mapping)
            .or_else(|| document.as_sequence().map(yaml_edit::YamlNode::Sequence))
            .or_else(|| document.as_scalar().map(yaml_edit::YamlNode::Scalar))
    }).collect();
    Ok((roots, file.to_string()))
}

fn from_outside(node: yaml_edit::YamlNode) -> (r: SyntaxNode)
    ensures
        r@ == syntax_tree(node),
    decreases syntax_tree(node),
{
    let ghost t = syntax_tree(node);
    match syntax_shape(node) {
        SyntaxShape::Scalar(start, end) => SyntaxNode::Scalar(start, end),
        SyntaxShape::Alias => SyntaxNode::Alias,
        SyntaxShape::Tagged(range) => SyntaxNode::Tagged(range),
        SyntaxShape::Sequence(list) => {
            let ghost given = list@;
            let mut rest = list;
            let mut out: Vec<SyntaxNode> = Vec::new();
            assert(given.skip(0) =~= given);
            while rest.len() > 0
                invariant
                    t == syntax_tree(node),
                    t == SyntaxTree::Sequence(outside_items(given)),
                    out@.len() <= given.len(),
                    rest@ == given.skip(out@.len() as int),
                    forall|j: int|
                        0 <= j < out@.len() ==> (#[trigger] out@[j])@ == syntax_tree(given[j]),
                decreases rest@.len(),
            {
                let ghost k = out@.len() as int;
                let item = rest.remove(0);
                assert(item == given[k]);
                assert(t->Sequence_0[k] == syntax_tree(item));
                assert(decreases_to!(t => t->Sequence_0[k]));
                assert(rest@ =~= given.skip(k + 1));
                out.push(from_outside(item));
            }
            assert(items(out@) =~= outside_items(given));
            let r = SyntaxNode::Sequence(out);
            proof {
                lemma_view(r);
            }
            r
        },
        SyntaxShape::Mapping(list) => {
            let ghost given = list@;
            let mut rest = list;
            let mut out: Vec<(Option<SyntaxKey>, Option<SyntaxNode>)> = Vec::new();
            assert(given.skip(0) =~= given);
            while rest.len() > 0
                invariant
                    t == syntax_tree(node),
                    t == SyntaxTree::Mapping(outside_entries(given)),
                    out@.len() <= given.len(),
                    rest@ == given.skip(out@.len() as int),
                    forall|j: int|
                        0 <= j < out@.len() ==> view_key((#[trigger] out@[j]).0) == outside_key(
                            given[j].0,
                        ) && view_node(out@[j].1) == outside_node(given[j].1),
                decreases rest@.len(),
            {
                let ghost k = out@.len() as int;
                let (key_node, value) = rest.remove(0);
                assert((key_node, value) == given[k]);
                assert(t->Mapping_0[k] == (outside_key(key_node), outside_node(value)));
                let key = match &key_node {
                    Some(inner) => scalar_key(inner),
                    None => None,
                };
                assert(rest@ =~= given.skip(k + 1));
                let child = match value {
                    Some(inner) => {
                        assert(decreases_to!(t => t->Mapping_0[k].1->Some_0));
                        Some(from_outside(inner))
                    },
                    None => None,
                };
                out.push((key, child));
            }
            assert(entries(out@) =~= outside_entries(given));
            let r = SyntaxNode::Mapping(out);
            proof {
                lemma_view(r);
            }
            r
        },
    }
}

pub open spec fn roots(v: Seq<Option<SyntaxNode>>) -> Seq<Option<SyntaxTree>> {
    v.map_values(|x: Option<SyntaxNode>| view_node(x))
}

/// Parses the syntax of a YAML file.
pub fn parse(s: &str) -> (r: Result<(Vec<Option<SyntaxNode>>, String), String>)
    ensures
        match r {
            Ok(parsed) => yaml_file_syntax(s@) == Ok::<
                (Seq<Option<SyntaxTree>>, Seq<char>),
                Seq<char>,
            >((roots(parsed.0@), parsed.1@)),
            Err(reason) => yaml_file_syntax(s@) == Err::<
                (Seq<Option<SyntaxTree>>, Seq<char>),
                Seq<char>,
            >(reason@),
        },
{
    let (list, printed) = match yaml_file(s) {
        Ok(parsed) => parsed,
        Err(reason) => {
            return Err(reason);
        },
    };
    let ghost given = list@;
    let mut rest = list;
    let mut out: Vec<Option<SyntaxNode>> = Vec::new();
    assert(given.skip(0) =~= given);
    while rest.len() > 0
        invariant
            out@.len() <= given.len(),
            rest@ == given.skip(out@.len() as int),
            forall|j: int|
                0 <= j < out@.len() ==> view_node(#[trigger] out@[j]) == outside_node(given[j]),
        decreases rest@.len(),
    {
        let ghost k = out@.len() as int;
        let item = rest.remove(0);
        assert(item == given[k]);
        assert(rest@ =~= given.skip(k + 1));
        out.push(
            match item {
                Some(node) => Some(from_outside(node)),
                None => None,
            },
        );
    }
    assert(roots(out@) =~= outside_roots(given));
    Ok((out, printed))
}

} // verus!
