use std::collections::BTreeMap;
use std::fmt;

use gitveil::config::SourceFormat;
use gitveil::envelope::layout_record;
use gitveil::manifest::{Manifest, ManifestError};
use gitveil::source::dotenv::{parse_value, render_value};
use gitveil::source::strict::{StrictMapping, StrictNode, StrictSequence};
use gitveil::source::{parse, LineEnding, Node, NodePath, QuoteStyle, Scalar, SourceError};
use serde::de::{self, DeserializeSeed, Error as _, MapAccess, SeqAccess, Visitor};
use serde::Deserializer;

struct Reader {
    format: SourceFormat,
    path: NodePath,
}

impl<'de> DeserializeSeed<'de> for Reader {
    type Value = StrictNode;

    fn deserialize<D: Deserializer<'de>>(self, source: D) -> Result<StrictNode, D::Error> {
        source.deserialize_any(self)
    }
}

impl<'de> Visitor<'de> for Reader {
    type Value = StrictNode;

    fn expecting(&self, formatter: &mut fmt::Formatter<'_>) -> fmt::Result {
        formatter.write_str("a value")
    }

    fn visit_f64<E: de::Error>(self, value: f64) -> Result<StrictNode, E> {
        StrictNode::float(value.to_string(), value.is_finite()).map_err(E::custom)
    }

    fn visit_u64<E: de::Error>(self, value: u64) -> Result<StrictNode, E> {
        Ok(StrictNode::integer(value.to_string()))
    }

    fn visit_str<E: de::Error>(self, value: &str) -> Result<StrictNode, E> {
        Ok(StrictNode::text(value.to_owned()))
    }

    fn visit_seq<A: SeqAccess<'de>>(self, mut source: A) -> Result<StrictNode, A::Error> {
        let mut values = StrictSequence::new(&self.path);
        while let Some(value) = source.next_element_seed(Reader {
            format: self.format,
            path: values.next_path(),
        })? {
            values = values.push(value);
        }
        Ok(values.finish())
    }

    fn visit_map<A: MapAccess<'de>>(self, mut source: A) -> Result<StrictNode, A::Error> {
        let mut values = StrictMapping::new(self.format, &self.path);
        while let Some(key) = source.next_key::<String>()? {
            if values.number_follows(&key) {
                let number = source.next_value::<String>()?;
                let goes_on = source.next_key::<String>()?.is_some();
                return StrictNode::number(&number, goes_on).map_err(A::Error::custom);
            }
            let path = values.enter_key(&key).map_err(A::Error::custom)?;
            let value = source.next_value_seed(Reader {
                format: self.format,
                path,
            })?;
            values = values.put(key, value).map_err(A::Error::custom)?;
        }
        Ok(values.finish())
    }
}

fn json(text: &str) -> Result<Vec<StrictNode>, String> {
    let mut source = serde_json::Deserializer::from_str(text);
    let root = Reader {
        format: SourceFormat::Json,
        path: NodePath::root(),
    }
    .deserialize(&mut source)
    .map_err(|error| error.to_string())?;
    source.end().map_err(|error| error.to_string())?;
    Ok(vec![root])
}

fn yaml(text: &str) -> Result<Vec<StrictNode>, String> {
    yaml_serde::Deserializer::from_str(text)
        .map(|source| {
            Reader {
                format: SourceFormat::Yaml,
                path: NodePath::root(),
            }
            .deserialize(source)
            .map_err(|error| error.to_string())
        })
        .collect()
}

fn reason(format: SourceFormat, text: &str, raws: Result<Vec<StrictNode>, String>) -> String {
    match parse(format, text.as_bytes(), raws) {
        Err(SourceError::Parse { reason, .. }) => reason,
        _ => panic!("no parse error"),
    }
}

#[test]
fn what_a_deserializer_delivers_is_read_strictly() {
    let text = "{\"a\": [1, 2.50, {\"b\": \"x\"}]}";
    let document = parse(SourceFormat::Json, text.as_bytes(), json(text)).expect("json");
    let path = NodePath::root().child_key("a").child_index(1);
    assert!(document
        .root()
        .at_path(&path)
        .expect("value")
        .same(&Node::Scalar(Scalar::Float("2.50".to_owned()))));
}

#[test]
fn a_repeated_key_is_refused_where_it_stands() {
    // The text behind the repeated key is broken, and is not reached.
    let text = "{\"a\": {\"b\": 1,\n \"b\": ]";
    assert_eq!(
        reason(SourceFormat::Json, text, json(text)),
        "duplicate key a.b in json document at line 2 column 4"
    );
    let text = "a:\n  b: 1\n  b: 2\n";
    let found = reason(SourceFormat::Yaml, text, yaml(text));
    assert!(found.contains("duplicate key a.b in yaml document"), "{found}");
    assert!(found.contains("line"), "{found}");
    let text = "a: .inf\n";
    let found = reason(SourceFormat::Yaml, text, yaml(text));
    assert!(found.contains("non-finite floats are not supported"), "{found}");
}

fn schema(text: &str) -> String {
    match Manifest::parse(text.as_bytes()) {
        Err(ManifestError::Json(reason)) => reason,
        _ => panic!("no schema error"),
    }
}

#[test]
fn a_manifest_is_refused_at_its_first_fault() {
    for (text, expected) in [
        ("5", "invalid type: number, expected struct RawManifest"),
        ("null", "invalid type: null, expected struct RawManifest"),
        ("[]", "invalid length 0, expected struct RawManifest with 3 elements"),
        ("[1, {}]", "invalid length 2, expected struct RawManifest with 3 elements"),
        ("[1, {}, [], 4]", "invalid length 4, expected fewer elements in array"),
        ("{\"version\": 1}", "missing field `recipientPolicies`"),
        ("{\"version\": 1, \"recipientPolicies\": {}}", "missing field `files`"),
        (
            "{\"version\": 1, \"other\": 2, \"files\": 3}",
            "unknown field `other`, expected one of `version`, `recipientPolicies`, `files`",
        ),
        ("{\"version\": \"1\"}", "invalid type: string \"1\", expected u64"),
        ("{\"version\": 1.5}", "invalid number"),
        ("{\"version\": -0}", "invalid number"),
        ("{\"version\": true}", "invalid type: boolean `true`, expected u64"),
        ("{\"version\": 1, \"recipientPolicies\": []}", "invalid type: sequence, expected a map"),
        (
            "{\"version\": 1, \"recipientPolicies\": {\"p\": {\"x\": 1}}}",
            "unknown field `x`, expected `age`",
        ),
        (
            "{\"version\": 1, \"recipientPolicies\": {\"p\": {}}}",
            "missing field `age`",
        ),
        (
            "{\"version\": 1, \"recipientPolicies\": {\"p\": [[\"a\", 1]]}}",
            "invalid type: number, expected a string",
        ),
        (
            "{\"version\": 1, \"recipientPolicies\": {\"p\": []}}",
            "invalid length 0, expected struct RawPolicy with 1 element",
        ),
        (
            "{\"version\": 1, \"files\": {}}",
            "invalid type: map, expected a sequence",
        ),
        (
            "{\"version\": 1, \"files\": [{\"path\": \"a\", \"profile\": \"p\"}]}",
            "missing field `format`",
        ),
        (
            "{\"version\": 1, \"files\": [[\"a\", \"dotenv\"]]}",
            "invalid length 2, expected struct RawEntry with 4 elements",
        ),
        (
            "{\"version\": 1, \"files\": [\"a\"]}",
            "invalid type: string \"a\", expected struct RawEntry",
        ),
        ("{", "EOF while parsing an object at line 1 column 1"),
    ] {
        assert_eq!(schema(text), expected, "{text}");
    }
    assert!(matches!(
        Manifest::parse(b"{\"version\": \"\xff\"}"),
        Err(ManifestError::Json(reason)) if reason.contains("invalid unicode code point")
    ));
}

#[test]
fn the_reasons_are_those_of_serde() {
    let texts = ["null", "true", "1.5", "-0", "\"a\\\"\"", "[1]", "{\"a\": 1}"];
    for text in texts {
        let value: serde_json::Value = serde_json::from_str(text).expect("json");
        if let Err(error) = serde_json::from_value::<u64>(value.clone()) {
            assert_eq!(
                schema(&format!("{{\"version\": {text}}}")),
                error.to_string()
            );
        }
        if let Err(error) = serde_json::from_value::<BTreeMap<String, Vec<String>>>(value.clone()) {
            if !text.starts_with('{') {
                assert_eq!(
                    schema(&format!("{{\"version\": 1, \"recipientPolicies\": {text}}}")),
                    error.to_string()
                );
            }
        }
        if let Err(error) = serde_json::from_value::<Vec<String>>(value.clone()) {
            assert_eq!(
                schema(&format!(
                    "{{\"version\": 1, \"recipientPolicies\": {{\"p\": {{\"age\": {text}}}}}}}"
                )),
                error.to_string()
            );
        }
        if let Err(error) = serde_json::from_value::<String>(value) {
            assert_eq!(
                schema(&format!("{{\"version\": 1, \"files\": [{{\"path\": {text}}}]}}")),
                error.to_string()
            );
        }
    }
}

#[test]
fn a_layout_refuses_a_field_that_stands_twice() {
    let layout = |more: &str, template: &str| {
        format!(
            "{{\"line_ending\":\"lf\",\"trailing_newline\":true{more},\"template\":{template}}}"
        )
    };
    let template = |path: &str| {
        format!("{{\"body\":\"b:\\\"{{\",\"placeholders\":[{{\"token\":\"t\",\"path\":[{path}]}}]}}")
    };
    let step = "{\"kind\":\"index\",\"value\":2}";
    let read = layout_record::parse(&layout("", &template(step))).expect("layout");
    assert_eq!(read.line_ending(), LineEnding::Lf);
    // A field that is not known is passed over, however often it stands.
    assert!(layout_record::parse(&layout(",\"x\":1,\"x\":2", &template(step))).is_ok());
    for text in [
        layout(",\"trailing_newline\":true", &template(step)),
        layout(",\"trailing\\u005fnewline\":true", &template(step)),
        layout("", "{\"body\":\"b\",\"body\":\"b\",\"placeholders\":[]}"),
        layout("", &template("{\"kind\":\"index\",\"kind\":\"index\",\"value\":2}")),
        layout("", &template("{\"kind\":\"index\",\"value\":-0}")),
        layout(
            ",\"dotenv\":[{\"key\":\"A\",\"key\":\"A\",\"exported\":false,\"quote\":\"double\",\"leading\":[],\"inline_comment\":null}]",
            "null",
        ),
    ] {
        assert!(layout_record::parse(&text).is_err(), "{text}");
    }
}

#[test]
fn rendered_values_are_read_back() {
    for value in ["", "plain", "two words", " lead", "it's", "a\nb", "say \"x\"", "# c", "a #b"] {
        for preferred in [QuoteStyle::Unquoted, QuoteStyle::Single, QuoteStyle::Double] {
            let rendered = render_value(value, preferred);
            let read = parse_value(&rendered, &Vec::new(), 0);
            let Ok(read) = read else {
                panic!("not read: {value}");
            };
            assert_eq!(read.value.iter().collect::<String>(), value);
            assert!(read.quote == preferred || read.quote == QuoteStyle::Double);
            assert_eq!(read.consumed, 0);
            assert!(read.comment.is_none());
        }
    }
}
