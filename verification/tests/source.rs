use gitveil::codec::toml_codec::TomlSyntax;
use gitveil::config::SourceFormat;
use gitveil::source::strict::{StrictMapping, StrictNode, StrictSequence};
use gitveil::source::toml_format::{fill, scrub};
use gitveil::source::{
    parse, Layout, LineEnding, Node, NodePath, Scalar, SourceDocument, SourceError,
};

fn text(value: &str) -> StrictNode {
    StrictNode::text(value.to_owned())
}

fn member(key: &str, value: StrictNode) -> (String, StrictNode) {
    (key.to_owned(), value)
}

fn sequence(values: Vec<StrictNode>) -> StrictNode {
    values
        .into_iter()
        .fold(StrictSequence::new(&NodePath::root()), StrictSequence::push)
        .finish()
}

fn mapping(values: Vec<(String, StrictNode)>) -> StrictNode {
    let mut out = StrictMapping::new(SourceFormat::Json, &NodePath::root());
    for (key, value) in values {
        out = out.put(key, value).expect("a new key");
    }
    out.finish()
}

fn dotenv(body: &str) -> Result<SourceDocument, SourceError> {
    parse(SourceFormat::Dotenv, body.as_bytes(), Ok(vec![]))
}

fn rendered(document: &SourceDocument) -> String {
    String::from_utf8(document.generate().expect("generate")).expect("utf-8")
}

fn value_of(document: &SourceDocument, key: &str) -> String {
    match document.root().get(key) {
        Some(Node::Scalar(Scalar::String(value))) => value.clone(),
        _ => panic!("no text at {key}"),
    }
}

fn message(result: Result<SourceDocument, SourceError>) -> String {
    result.err().expect("refused").message()
}

#[test]
fn dotenv_documents_keep_their_layout() {
    for body in [
        "A=1\n",
        "# head\n\nexport A=1\nB='two words' # note\nC=\"x\\ny\"\n# tail\n",
        "A=1\r\nB=2\r\n",
        "A=1",
        "",
        "\n",
        "E=\"\"\n",
        "E=\n",
        "E=",
        "export E=\n# note\nF=''\n",
        "A='x\n<<<<<<<y\n=======' # c\n",
    ] {
        let document = dotenv(body).expect("dotenv");
        assert_eq!(rendered(&document), body);
    }
}

#[test]
fn dotenv_values_are_unquoted() {
    let document = dotenv("A=plain # c\nB='single $x'\nC=\"a\\nb\\t\\\"q\\\"\"\n").expect("dotenv");
    assert_eq!(value_of(&document, "A"), "plain");
    assert_eq!(value_of(&document, "B"), "single $x");
    assert_eq!(value_of(&document, "C"), "a\nb\t\"q\"");
}

#[test]
fn an_empty_value_keeps_its_style_unless_a_comment_follows() {
    let document = dotenv("E=\nF=\"\"\nG=''\nH=\"\" # c\n").expect("dotenv");
    assert_eq!(rendered(&document), "E=\nF=\"\"\nG=''\nH=\"\" # c\n");
    let again = dotenv(&rendered(&document)).expect("again");
    assert!(again.semantic_eq(&document));
    // Without quotes, what looks like a comment is the value.
    let bare = dotenv("E= # c\n").expect("dotenv");
    assert_eq!(value_of(&bare, "E"), "# c");
    assert_eq!(rendered(&bare), "E=# c\n");
}

#[test]
fn dotenv_values_may_span_lines() {
    let document = dotenv("A=\"x\ny\"\nB=2\n").expect("dotenv");
    assert_eq!(value_of(&document, "A"), "x\ny");
    assert_eq!(value_of(&document, "B"), "2");
}

#[test]
fn dotenv_faults_are_named() {
    assert!(matches!(
        dotenv("nothing\n"),
        Err(SourceError::Parse { reason, .. }) if reason == "expected KEY=VALUE assignment"
    ));
    assert!(matches!(
        dotenv("1A=2\n"),
        Err(SourceError::Parse { reason, .. }) if reason == "invalid dotenv key"
    ));
    assert_eq!(message(dotenv("nothing\n")), "invalid dotenv document");
    assert!(matches!(
        dotenv("A=1\nA=2\n"),
        Err(SourceError::DuplicateKey { .. })
    ));
    assert!(matches!(
        parse(SourceFormat::Dotenv, &[0xff], Ok(vec![])),
        Err(SourceError::NonUtf8 { .. })
    ));
    assert!(matches!(
        dotenv("<<<<<<< ours\nA=1\n=======\nA=2\n>>>>>>> theirs\n"),
        Err(SourceError::ConflictMarkers { .. })
    ));
    assert!(matches!(dotenv("A=\"open\n"), Err(SourceError::Parse { .. })));
}

#[test]
fn only_named_text_can_be_written_as_dotenv() {
    let other = parse(
        SourceFormat::Json,
        b"{\"a\":1}",
        Ok(vec![mapping(vec![member(
            "a",
            StrictNode::integer("1".to_owned()),
        )])]),
    )
    .expect("json");
    let document = SourceDocument::new(
        SourceFormat::Dotenv,
        other.root().clone(),
        other.layout().clone(),
    );
    assert!(matches!(
        document.generate(),
        Err(SourceError::Generate { .. })
    ));
}

#[test]
fn json_is_written_pretty_and_keeps_its_last_line_end() {
    let raws = || {
        Ok(vec![mapping(vec![
            member("a", StrictNode::integer("12345678901234567890123".to_owned())),
            member("b", sequence(vec![StrictNode::boolean(true), StrictNode::null()])),
            member("c", text("q\"")),
        ])])
    };
    let input = "{\"a\":12345678901234567890123,\"b\":[true,null],\"c\":\"q\\\"\"}";
    let document = parse(SourceFormat::Json, input.as_bytes(), raws()).expect("json");
    let pretty = "{\n  \"a\": 12345678901234567890123,\n  \"b\": [\n    true,\n    null\n  ],\n  \"c\": \"q\\\"\"\n}";
    assert_eq!(rendered(&document), pretty);
    let lined = format!("{input}\n");
    let document = parse(SourceFormat::Json, lined.as_bytes(), raws()).expect("json");
    assert_eq!(rendered(&document), format!("{pretty}\n"));
}

#[test]
fn json_refuses_a_key_that_stands_twice() {
    let path = NodePath::root().child_key("top");
    let mapping = StrictMapping::new(SourceFormat::Json, &path);
    assert_eq!(
        mapping.enter_key("a").expect("new").to_text(),
        path.child_key("a").to_text()
    );
    let mapping = mapping
        .put("a".to_owned(), StrictNode::null())
        .expect("a new key");
    let refused = "duplicate key top.a in json document";
    assert_eq!(mapping.enter_key("a").err().expect("repeated"), refused);
    assert!(mapping.enter_key("b").is_ok());
    assert_eq!(
        mapping
            .put("a".to_owned(), StrictNode::null())
            .err()
            .expect("repeated"),
        refused
    );
    // A deserializer hands the reason on, with its place in the text.
    let reason = format!("{refused} at line 1 column 14");
    let error = parse(SourceFormat::Json, b"{\"a\":null,\"a\":", Err(reason.clone()))
        .err()
        .expect("refused");
    assert!(matches!(&error, SourceError::Parse { reason: given, .. } if *given == reason));
    assert_eq!(error.message(), "invalid json document");
}

#[test]
fn json_numbers_come_under_their_mark() {
    let mark = "$serde_json::private::Number";
    let json = StrictMapping::new(SourceFormat::Json, &NodePath::root());
    assert!(json.number_follows(mark));
    assert!(!json.number_follows("a"));
    assert!(!StrictMapping::new(SourceFormat::Yaml, &NodePath::root()).number_follows(mark));
    let json = json.put("a".to_owned(), StrictNode::null()).expect("new");
    assert!(!json.number_follows(mark));
    assert!(StrictNode::number("1e3", false)
        .expect("number")
        .into_node()
        .same(&Node::Scalar(Scalar::Float("1e3".to_owned()))));
    assert!(StrictNode::number("-7", false)
        .expect("number")
        .into_node()
        .same(&Node::Scalar(Scalar::Integer("-7".to_owned()))));
    assert_eq!(
        StrictNode::number("1", true).err().expect("refused"),
        "invalid JSON number representation"
    );
}

#[test]
fn json_refuses_what_is_no_number() {
    assert_eq!(
        StrictNode::float("inf".to_owned(), false)
            .err()
            .expect("refused"),
        "non-finite floats are not supported"
    );
    assert!(matches!(
        parse(SourceFormat::Json, b"{", Err("broken".to_owned())),
        Err(SourceError::Parse { .. })
    ));
}

#[test]
fn yaml_keeps_comments_and_order() {
    let body = "# head\nb: two # note\na: 1\nlist:\n  - x\n  - true\n";
    let raws = Ok(vec![mapping(vec![
        member("b", text("two")),
        member("a", StrictNode::integer("1".to_owned())),
        member(
            "list",
            sequence(vec![text("x"), StrictNode::boolean(true)]),
        ),
    ])]);
    let document = parse(SourceFormat::Yaml, body.as_bytes(), raws).expect("yaml");
    assert_eq!(
        document.root().mapping_keys().expect("mapping"),
        vec!["b", "a", "list"]
    );
    assert!(document.layout().template().is_some());
    assert!(
        !document.layout().template().expect("template").body().contains("two"),
        "no value stays in the template"
    );
    assert_eq!(rendered(&document), body);
}

#[test]
fn a_yaml_stream_is_a_sequence_of_documents() {
    let body = "a: 1\n---\nb: 2\n";
    let document = parse(
        SourceFormat::Yaml,
        body.as_bytes(),
        Ok(vec![
            mapping(vec![member("a", StrictNode::integer("1".to_owned()))]),
            mapping(vec![member("b", StrictNode::integer("2".to_owned()))]),
        ]),
    )
    .expect("yaml");
    assert!(matches!(document.root(), Node::Sequence(items) if items.len() == 2));
    assert_eq!(rendered(&document), body);
}

#[test]
fn toml_keeps_comments_and_order() {
    let body = "# head\ntitle = \"x\" # note\n\n[owner]\nage = 3\nat = 1979-05-27T07:32:00Z\nok = true\n";
    let document = parse(SourceFormat::Toml, body.as_bytes(), Ok(vec![])).expect("toml");
    assert_eq!(value_of(&document, "title"), "x");
    assert_eq!(rendered(&document), body);
    assert!(
        !document.layout().template().expect("template").body().contains("1979"),
        "no value stays in the template"
    );
}

#[test]
fn toml_faults_are_parse_errors() {
    assert!(matches!(
        parse(SourceFormat::Toml, b"a = \n", Ok(vec![])),
        Err(SourceError::Parse { .. })
    ));
    assert!(parse(SourceFormat::Toml, b"a = 1\na = 2\n", Ok(vec![])).is_err());
}

#[test]
fn the_first_line_end_names_the_kind() {
    assert_eq!(LineEnding::detect("a\r\nb\n"), LineEnding::CrLf);
    assert_eq!(LineEnding::detect("a\nb"), LineEnding::Lf);
    assert_eq!(LineEnding::detect(""), LineEnding::Lf);
    assert_eq!(LineEnding::CrLf.apply("a\nb"), "a\r\nb");
    assert_eq!(LineEnding::Lf.apply("a\nb"), "a\nb");
}

#[test]
fn a_tag_without_a_name_is_told_apart() {
    let named = Node::Tagged {
        tag: "!Ref".to_owned(),
        value: Box::new(Node::Sequence(vec![])),
    };
    let nameless = Node::Tagged {
        tag: String::new(),
        value: Box::new(Node::Sequence(vec![])),
    };
    assert!(named.has_named_tags());
    assert!(!nameless.has_named_tags());
    assert!(!Node::Sequence(vec![nameless]).has_named_tags());
}

#[test]
fn toml_numbers_and_string_styles_are_restored() {
    for body in [
        "ratio = 2.5\ncount = -7\n",
        "path = 'C:\\dir'\n",
        "list = [1, 2.5, \"x\"] # note\npoint = { x = 1, y = \"b\" }\n",
        "[[item]]\nname = \"a\"\n\n[[item]]\nname = \"b\"\n",
    ] {
        let document = parse(SourceFormat::Toml, body.as_bytes(), Ok(vec![])).expect("toml");
        assert_eq!(rendered(&document), body);
    }
}

#[test]
fn toml_layouts_are_restored() {
    for body in [
        "a = \"\"\"two\\nlines\"\"\"\nb = '''x'''\nc = \"\u{e9}\" # \u{e9}\n",
        "list = [\n  1, # one\n  2,\n]\n",
        "[a]\r\nb = 1\r\n",
        "a.b = 1\na.d = 3\nc = 2\n",
        "# only a comment\n",
        "",
    ] {
        let document = parse(SourceFormat::Toml, body.as_bytes(), Ok(vec![])).expect("toml");
        assert_eq!(rendered(&document), body);
    }
    let document = parse(SourceFormat::Toml, b"a = 1", Ok(vec![])).expect("toml");
    assert_eq!(rendered(&document), "a = 1");
    // Dotted keys of one table are written together.
    let body = b"a.b = 1\nc = 2\na.d = 3\n";
    let document = parse(SourceFormat::Toml, body, Ok(vec![])).expect("toml");
    assert_eq!(rendered(&document), "a.b = 1\na.d = 3\nc = 2\n");
}

#[test]
fn toml_values_of_another_kind_are_put_in() {
    let source = parse(SourceFormat::Toml, b"a = 1 # note\n", Ok(vec![])).expect("toml");
    let put = |value: Node| {
        let document = SourceDocument::new(
            SourceFormat::Toml,
            Node::Mapping(vec![("a".to_owned(), value)]),
            source.layout().clone(),
        );
        document
            .generate()
            .map(|bytes| String::from_utf8(bytes).expect("text"))
    };
    let number = |text: &str| Node::Scalar(Scalar::Integer(text.to_owned()));
    assert_eq!(
        put(Node::Sequence(vec![
            number("+5"),
            Node::Scalar(Scalar::String("x".to_owned())),
            Node::Scalar(Scalar::Float("2.50".to_owned())),
            Node::Scalar(Scalar::DateTime("1979-05-27t07:32:00z".to_owned())),
        ]))
        .expect("array"),
        "a = [5, \"x\", 2.5, 1979-05-27T07:32:00Z] # note\n"
    );
    assert_eq!(
        put(Node::Mapping(vec![
            ("k".to_owned(), Node::Scalar(Scalar::Bool(true))),
            ("odd key".to_owned(), Node::Mapping(vec![])),
        ]))
        .expect("table"),
        "a = { k = true, \"odd key\" = {} } # note\n"
    );
    assert!(matches!(
        put(Node::Scalar(Scalar::Null)),
        Err(SourceError::LayoutMismatch(_))
    ));
    assert!(matches!(
        put(number("9223372036854775808")),
        Err(SourceError::Generate { .. })
    ));
    assert!(put(Node::Scalar(Scalar::Float("x".to_owned()))).is_err());
    assert!(put(Node::Scalar(Scalar::DateTime("x".to_owned()))).is_err());
}

#[test]
fn toml_values_are_marked_and_filled_in_by_their_ranges() {
    let number = TomlSyntax::Other { span: Some((4, 5)) };
    let syntax = TomlSyntax::Table(vec![("a".to_owned(), number)]);
    let template = scrub("a = 1\n", &syntax).expect("template");
    assert_eq!(template.body(), "a = \"__GITVEIL_VALUE_0000__\"\n");
    let literal = TomlSyntax::Text {
        value: "x".to_owned(),
        span: Some((4, 7)),
    };
    let syntax = TomlSyntax::Table(vec![("a".to_owned(), literal)]);
    let template = scrub("a = 'x'\n", &syntax).expect("template");
    assert_eq!(template.body(), "a = \"__GITVEIL_VALUE_0000__@sl\"\n");
    let token = TomlSyntax::Text {
        value: "__GITVEIL_VALUE_0000__".to_owned(),
        span: Some((4, 8)),
    };
    let syntax = TomlSyntax::Table(vec![("a".to_owned(), token)]);
    let root = Node::Mapping(vec![("a".to_owned(), Node::Scalar(Scalar::Bool(false)))]);
    assert_eq!(fill("a = \"..\"\n", &syntax, &root).expect("filled"), "a = false\n");
    let nowhere = TomlSyntax::Table(vec![("a".to_owned(), TomlSyntax::Other { span: None })]);
    assert!(scrub("a = 1\n", &nowhere).is_none());
}

#[test]
fn yaml_numbers_are_restored() {
    let body = "ratio: 2.5\ncount: -7\nnone: null\n";
    let raws = Ok(vec![mapping(vec![
        member(
            "ratio",
            StrictNode::float("2.5".to_owned(), true).expect("finite"),
        ),
        member("count", StrictNode::integer("-7".to_owned())),
        member("none", StrictNode::null()),
    ])]);
    let document = parse(SourceFormat::Yaml, body.as_bytes(), raws).expect("yaml");
    assert_eq!(rendered(&document), body);
}

#[test]
fn a_layout_without_its_template_cannot_be_written() {
    let source = parse(SourceFormat::Toml, b"a = 1\n", Ok(vec![])).expect("toml");
    for format in [SourceFormat::Toml, SourceFormat::Yaml] {
        let bare = SourceDocument::new(
            format,
            source.root().clone(),
            Layout::new(LineEnding::Lf, true),
        );
        assert!(matches!(bare.generate(), Err(SourceError::Generate { .. })));
    }
}

#[test]
fn a_template_of_another_document_does_not_fit() {
    let source = parse(SourceFormat::Toml, b"a = 1\n", Ok(vec![])).expect("toml");
    let other = SourceDocument::new(
        SourceFormat::Toml,
        Node::Mapping(vec![]),
        source.layout().clone(),
    );
    assert!(matches!(
        other.generate(),
        Err(SourceError::LayoutMismatch(_))
    ));
}

#[test]
fn formats_are_found_by_name() {
    assert!(matches!(
        SourceFormat::from_str("toml"),
        Ok(SourceFormat::Toml)
    ));
    assert_eq!(
        SourceFormat::from_str("in\"i")
            .expect_err("unknown")
            .message(),
        "unsupported source format \"in\\\"i\""
    );
}
