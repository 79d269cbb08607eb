use gitveil::baseline::record::{record_file_name, RecordParts};
use gitveil::baseline::{BaselineError, BaselineRecord, CipherSummary};
use gitveil::config::SourceFormat;
use gitveil::envelope::encrypted::is_encrypted_scalar;
use gitveil::envelope::{CiphertextEnvelope, DecryptedEnvelope, EnvelopeError};
use gitveil::path::ManagedPath;
use gitveil::source::strict::{StrictMapping, StrictNode, StrictSequence};
use gitveil::source::{
    parse, Layout, LineEnding, Node, NodePath, Scalar, SourceDocument,
};

const RECIPIENT: &str = "age1qyqszqgpqyqszqgpqyqszqgpqyqszqgpqyqszqgpqyqszqgpqyqs3290gq";
const SECOND: &str = "age1qgpqyqszqgpqyqszqgpqyqszqgpqyqszqgpqyqszqgpqyqszqgpquuzgag";
const SALT: [u8; 32] = [7; 32];

fn sequence(values: Vec<StrictNode>) -> StrictNode {
    values
        .into_iter()
        .fold(StrictSequence::new(&NodePath::root()), StrictSequence::push)
        .finish()
}

fn mapping(values: Vec<(String, StrictNode)>) -> StrictNode {
    let mut out = StrictMapping::new(SourceFormat::Json, &NodePath::root());
    for (key, value) in values {
        out = out.put(key, value).expect("a new key");
    }
    out.finish()
}

fn leaf(name: &str) -> String {
    format!("ENC[AES256_GCM,data:{name},iv:i,tag:t,type:str]")
}

fn metadata(recipients: &[&str]) -> String {
    let mut text = String::from("sops:\n  age:\n");
    for recipient in recipients {
        text.push_str(&format!("    - recipient: {recipient}\n      enc: key\n"));
    }
    text.push_str(&format!(
        "  lastmodified: '2024-01-01T00:00:00Z'\n  mac: {}\n  encrypted_regex: .*\n  version: 3.13.3\n",
        leaf("mac")
    ));
    text
}

fn ciphertext(a: &str, b: &str) -> String {
    format!(
        "gitveil_v1_dotenv:\n  data:\n    A: {}\n    B: {}\n  layout: {}\n{}",
        leaf(a),
        leaf(b),
        leaf("layout"),
        metadata(&[RECIPIENT, SECOND])
    )
}

fn envelope(text: &str) -> Result<CiphertextEnvelope, EnvelopeError> {
    CiphertextEnvelope::parse(text.as_bytes(), SourceFormat::Dotenv)
}

fn dotenv(body: &str) -> SourceDocument {
    parse(SourceFormat::Dotenv, body.as_bytes(), Ok(vec![])).expect("dotenv")
}

fn round_trip(document: &SourceDocument) {
    let envelope = DecryptedEnvelope::from_source(document).expect("envelope");
    assert!(envelope.has_named_tags());
    let bytes = envelope.to_yaml().expect("yaml");
    let read = DecryptedEnvelope::from_yaml(&bytes, document.format())
        .expect("read back")
        .into_source()
        .expect("source");
    assert!(read.semantic_eq(document));
}

#[test]
fn envelopes_give_their_documents_back() {
    round_trip(&dotenv("# head\nexport A='x' # note\nB=\"a\\nb\"\n"));
    round_trip(
        &parse(
            SourceFormat::Toml,
            b"a = 1\nb = 1.5\nc = 1979-05-27\nd = [true, \"x\"]\n[t]\ne = \"y\"\n",
            Ok(vec![]),
        )
        .expect("toml"),
    );
    round_trip(
        &parse(
            SourceFormat::Json,
            b"{\"a\":null,\"b/c\":[1,2.50,false]}\n",
            Ok(vec![mapping(vec![
                ("a".to_owned(), StrictNode::null()),
                (
                    "b/c".to_owned(),
                    sequence(vec![
                        StrictNode::integer("1".to_owned()),
                        StrictNode::float("2.50".to_owned(), true).expect("finite"),
                        StrictNode::boolean(false),
                    ]),
                ),
            ])]),
        )
        .expect("json"),
    );
}

#[test]
fn envelopes_mark_what_text_alone_does_not_tell() {
    let document = SourceDocument::new(
        SourceFormat::Json,
        Node::Mapping(vec![
            ("i".to_owned(), Node::Scalar(Scalar::Integer("10".to_owned()))),
            ("s".to_owned(), Node::Scalar(Scalar::String("10".to_owned()))),
            ("n".to_owned(), Node::Scalar(Scalar::Null)),
        ]),
        Layout::new(LineEnding::Lf, true),
    );
    let bytes = DecryptedEnvelope::from_source(&document)
        .expect("envelope")
        .to_yaml()
        .expect("yaml");
    let text = String::from_utf8(bytes).expect("utf-8");
    assert!(text.starts_with("gitveil_v1_json:\n"));
    assert!(text.contains("gitveil:integer:MTA"));
    assert!(text.contains("gitveil:null"));
    assert!(text.contains("$/k:i"));
    assert!(!text.contains("$/k:s"));
    round_trip(&document);
}

#[test]
fn plain_envelopes_are_checked() {
    let read = |text: &str| DecryptedEnvelope::from_yaml(text.as_bytes(), SourceFormat::Dotenv);
    assert!(matches!(
        read("- a\n").err(),
        Some(EnvelopeError::InvalidStructure(_))
    ));
    assert!(matches!(
        read("gitveil_v1_json:\n  data: {}\n").err(),
        Some(EnvelopeError::FormatMismatch)
    ));
    assert!(matches!(
        DecryptedEnvelope::from_yaml(&[0xff], SourceFormat::Dotenv).err(),
        Some(EnvelopeError::NonUtf8)
    ));
    assert!(matches!(read("a: [").err(), Some(EnvelopeError::Yaml(_))));
}

#[test]
fn ciphertext_is_read_with_its_leaves_and_recipients() {
    let envelope = envelope(&ciphertext("a", "b")).expect("envelope");
    assert_eq!(envelope.format(), SourceFormat::Dotenv);
    assert_eq!(envelope.key_paths(), ["A".to_owned(), "B".to_owned()]);
    assert_eq!(
        envelope
            .age_recipients()
            .iter()
            .map(|recipient| recipient.as_str())
            .collect::<Vec<_>>(),
        [RECIPIENT, SECOND]
    );
    assert_eq!(envelope.layout_ciphertext(), leaf("layout"));
    assert_eq!(
        envelope.leaf_ciphertexts().get("A").map(String::as_str),
        Some(leaf("a").as_str())
    );
}

#[test]
fn the_discriminator_names_the_format() {
    assert!(matches!(
        CiphertextEnvelope::detect_format(ciphertext("a", "b").as_bytes()),
        Ok(SourceFormat::Dotenv)
    ));
    assert!(matches!(
        CiphertextEnvelope::detect_format(b"other: {}\n"),
        Err(EnvelopeError::FormatMismatch)
    ));
}

#[test]
fn damaged_ciphertext_is_refused() {
    let whole = ciphertext("a", "b");
    let fault = |text: String| envelope(&text).err().expect("refused");
    assert!(matches!(
        fault(whole.replace(&leaf("a"), "open")),
        EnvelopeError::PlaintextLeaf(path) if path.to_text() == "A"
    ));
    assert!(matches!(
        fault(whole.replace(&leaf("layout"), "open")),
        EnvelopeError::PlaintextLeaf(path) if path.to_text() == "layout"
    ));
    assert!(matches!(
        fault(whole.replace("  encrypted_regex: .*\n", "  encrypted_regex: ^x\n")),
        EnvelopeError::SelectorDrift
    ));
    assert!(matches!(
        fault(whole.replace("  version: 3.13.3\n", "")),
        EnvelopeError::MissingField("version")
    ));
    assert!(matches!(
        fault(whole.replace(&leaf("mac"), "open")),
        EnvelopeError::InvalidMetadata("mac is not encrypted")
    ));
    assert!(matches!(
        fault(whole.replace(SECOND, RECIPIENT)),
        EnvelopeError::InvalidMetadata("age recipient metadata contains a duplicate")
    ));
    assert!(matches!(
        fault(whole.replace(SECOND, "age1x")),
        EnvelopeError::InvalidMetadata("age recipient is invalid")
    ));
    assert!(matches!(
        fault(whole.replace("  version: 3.13.3\n", "  version: 3.13.3\n  kms: []\n")),
        EnvelopeError::InvalidMetadata("only age recipient metadata is supported")
    ));
    assert!(matches!(
        fault(whole.replace("gitveil_v1_dotenv", "gitveil_v1_json")),
        EnvelopeError::FormatMismatch
    ));
    assert!(matches!(
        fault(format!("{whole}more: 1\n")),
        EnvelopeError::InvalidStructure(_)
    ));
}

#[test]
fn encrypted_scalars_have_four_fields() {
    assert!(is_encrypted_scalar(&leaf("x")));
    assert!(is_encrypted_scalar("ENC[AES256_GCM,data:x,iv:y,tag:z,type:bool]"));
    for text in [
        "x",
        "ENC[AES256_GCM,data:,iv:y,tag:z,type:str]",
        "ENC[AES256_GCM,data:x,iv:y,tag:z,type:list]",
        "ENC[AES256_GCM,data:x,iv:y,tag:z]",
        "ENC[AES256_GCM,data:x,iv:y,tag:z,type:str",
    ] {
        assert!(!is_encrypted_scalar(text), "{text}");
    }
}

#[test]
fn records_tell_what_changed() {
    let document = dotenv("A=1\nB=2\n");
    let sealed = envelope(&ciphertext("a", "b")).expect("envelope");
    let summary = CipherSummary::from_envelope(&sealed);
    let record = BaselineRecord::capture(&document, &summary, SALT);
    assert!(record.diff_plain(&document).is_empty());
    assert!(record.diff_cipher(&summary).is_empty());

    let diff = record.diff_plain(&dotenv("A=1\nB=x\nC=3\n"));
    assert_eq!(diff.changed, ["B".to_owned()]);
    assert_eq!(diff.added, ["C".to_owned()]);
    assert!(diff.removed.is_empty());
    let diff = record.diff_plain(&dotenv("B=2\n"));
    assert_eq!(diff.removed, ["A".to_owned()]);

    let other = envelope(&ciphertext("other", "b")).expect("envelope");
    let diff = record.diff_cipher(&CipherSummary::from_envelope(&other));
    assert_eq!(diff.changed, ["A".to_owned()]);
    assert!(!diff.layout_changed);
}

#[test]
fn records_are_read_back() {
    let document = dotenv("A=1\n");
    let record = BaselineRecord::capture(&document, &CipherSummary::empty(), SALT);
    let bytes = record.to_json().expect("json");
    let text = String::from_utf8(bytes.clone()).expect("utf-8");
    assert!(!text.contains("\"1\""), "no value is kept");
    let read = BaselineRecord::from_json(&bytes).expect("record");
    assert!(read.diff_plain(&document).is_empty());
    assert!(!read.diff_plain(&dotenv("A=2\n")).is_empty());
    assert_eq!(read.to_json().expect("json"), bytes);
    assert!(BaselineRecord::from_json(b"{}").is_err());
    assert!(matches!(
        BaselineRecord::from_json(text.replace("\"version\":1", "\"version\":2").as_bytes()).err(),
        Some(BaselineError::UnsupportedVersion(2))
    ));
}

#[test]
fn records_are_read_back_whatever_their_keys_are() {
    let value = || Node::Scalar(Scalar::String("1".to_owned()));
    for key in [
        "$serde_json::private::Number",
        "$serde_json::private::RawValue",
        "\"quoted\\\u{e9}\n",
        "",
    ] {
        let document = SourceDocument::new(
            SourceFormat::Json,
            Node::Mapping(vec![(key.to_owned(), value())]),
            Layout::new(LineEnding::Lf, true),
        );
        let record = BaselineRecord::capture(&document, &CipherSummary::empty(), SALT);
        let bytes = record.to_json().expect("json");
        let read = BaselineRecord::from_json(&bytes).expect("record");
        assert!(read.diff_plain(&document).is_empty());
        assert_eq!(read.to_json().expect("json"), bytes);
    }
}

#[test]
fn records_are_assembled_of_their_parts() {
    let parts = |version: u32, salt: &str| RecordParts {
        version: Some(version),
        salt: Some(salt.to_owned()),
        keys: Some(vec![]),
        layout: Some("l".to_owned()),
        cipher_units: Some(vec![]),
        cipher_layout: Some("c".to_owned()),
    };
    let salt = "07".repeat(32);
    assert!(BaselineRecord::assemble(parts(1, &salt)).is_ok());
    assert!(matches!(
        BaselineRecord::assemble(parts(3, &salt)),
        Err(BaselineError::UnsupportedVersion(3))
    ));
    assert!(matches!(
        BaselineRecord::assemble(parts(1, "07")),
        Err(BaselineError::Deserialize(reason)) if reason == "baseline salt is not 32 hexadecimal bytes"
    ));
    let mut missing = parts(1, &salt);
    missing.layout = None;
    assert!(BaselineRecord::assemble(missing).is_err());
    // The fields of a record may also stand in an array, in their order.
    let text = format!("[1,\"{salt}\",{{\"A\":\"x\"}},\"l\",{{}},\"c\"]");
    assert!(BaselineRecord::from_json(text.as_bytes()).is_ok());
    assert!(BaselineRecord::from_json(b"[1]").is_err());
    // A repeated field is refused; of a repeated key of a map the last counts.
    let object = |layout: &str, keys: &str| {
        format!(
            "{{\"version\":1,\"salt\":\"{salt}\",\"keys\":{keys},{layout}\"cipher_units\":{{}},\"cipher_layout\":\"c\"}}"
        )
    };
    let once = object("\"layout\": \"l:{\\\"[\",", "{\"A\":\"x\",\"A\":\"y\"}");
    let read = BaselineRecord::from_json(once.as_bytes()).expect("record");
    assert!(String::from_utf8(read.to_json().expect("json"))
        .expect("text")
        .contains("{\"A\":\"y\"}"));
    let twice = object("\"layout\":\"l\",\"layout\":\"l\",", "{}");
    assert!(matches!(
        BaselineRecord::from_json(twice.as_bytes()),
        Err(BaselineError::Deserialize(_))
    ));
    assert!(BaselineRecord::from_json(object("", "{}").as_bytes()).is_err());
    assert!(BaselineRecord::from_json(b"1").is_err());
}

#[test]
fn a_difference_names_the_units_in_order() {
    let record = BaselineRecord::capture(
        &dotenv("C=1\nA=1\nB=1\nD=1\n"),
        &CipherSummary::empty(),
        SALT,
    );
    let diff = record.diff_plain(&dotenv("Z=1\nB=2\nE=1\nA=2\nC=1\n# tail\n"));
    assert_eq!(diff.changed, ["A".to_owned(), "B".to_owned()]);
    assert_eq!(diff.added, ["E".to_owned(), "Z".to_owned()]);
    assert_eq!(diff.removed, ["D".to_owned()]);
    assert!(diff.layout_changed);
}

#[test]
fn digests_are_salted() {
    let document = dotenv("A=1\n");
    let first = BaselineRecord::capture(&document, &CipherSummary::empty(), SALT);
    let second = BaselineRecord::capture(&document, &CipherSummary::empty(), [8; 32]);
    assert_ne!(
        first.to_json().expect("json"),
        second.to_json().expect("json")
    );
    let fresh = BaselineRecord::capture_fresh(&document, &CipherSummary::empty());
    assert!(fresh.diff_plain(&document).is_empty());
}

#[test]
fn record_files_are_named_by_digest() {
    let name = record_file_name(&ManagedPath::new(".env").expect("path"));
    assert_eq!(
        name,
        "e9cbb0224c4a3d23a6019ba557e0cd568c1ad5e1582ff1e335fb7d99b7a1055d.json"
    );
    assert_ne!(
        name,
        record_file_name(&ManagedPath::new("other").expect("path"))
    );
}
