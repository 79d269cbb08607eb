//! The form of an encrypted scalar.

use vstd::prelude::*;

use crate::segment;
use crate::text;

verus! {

/// A field that begins with its label and holds something behind it.
pub open spec fn labelled(field: Seq<char>, label: Seq<char>) -> bool {
    text::starts_with(field, label) && field.len() > label.len()
}

/// The kinds of values that are encrypted.
pub open spec fn value_kind(s: Seq<char>) -> bool {
    s == "str"@ || s == "int"@ || s == "float"@ || s == "bool"@ || s == "bytes"@ || s == "comment"@
        || s == "null"@
}

/// The fields of an encrypted scalar.
pub open spec fn cipher_fields(f: Seq<Seq<char>>) -> bool {
    &&& f.len() == 4
    &&& labelled(f[0], "data:"@)
    &&& labelled(f[1], "iv:"@)
    &&& labelled(f[2], "tag:"@)
    &&& text::starts_with(f[3], "type:"@)
    &&& value_kind(f[3].skip("type:"@.len() as int))
}

/// An encrypted scalar: `ENC[AES256_GCM,data:..,iv:..,tag:..,type:..]`.
pub open spec fn encrypted_scalar(s: Seq<char>) -> bool {
    let head = "ENC[AES256_GCM,"@;
    &&& text::starts_with(s, head)
    &&& s.len() > head.len()
    &&& s.last() == ']'
    &&& cipher_fields(segment::split(s.subrange(head.len() as int, s.len() - 1), ','))
}

fn is_labelled(field: &[char], label: &str) -> (r: bool)
    ensures
        r == labelled(field@, label@),
{
    let head = text::chars_of(label);
    text::begins(field, head.as_slice()) && field.len() > head.len()
}

fn is_value_kind(s: &str) -> (r: bool)
    ensures
        r == value_kind(s@),
{
    text::eq(s, "str") || text::eq(s, "int") || text::eq(s, "float") || text::eq(s, "bool")
        || text::eq(s, "bytes") || text::eq(s, "comment") || text::eq(s, "null")
}

fn are_cipher_fields(fields: &Vec<Vec<char>>) -> (r: bool)
    ensures
        r == cipher_fields(text::pieces(fields@)),
{
    if fields.len() != 4 {
        return false;
    }
    let ghost f = text::pieces(fields@);
    assert(f[0] == fields@[0]@ && f[1] == fields@[1]@ && f[2] == fields@[2]@ && f[3]
        == fields@[3]@);
    let head = text::chars_of("type:");
    if !is_labelled(fields[0].as_slice(), "data:") || !is_labelled(fields[1].as_slice(), "iv:")
        || !is_labelled(fields[2].as_slice(), "tag:") || !text::begins(
        fields[3].as_slice(),
        head.as_slice(),
    ) {
        return false;
    }
    let kind = segment::slice_to_vec(fields[3].as_slice(), head.len(), fields[3].len());
    assert(kind@ =~= f[3].skip("type:"@.len() as int));
    is_value_kind(text::string_of(kind.as_slice()).as_str())
}

pub fn is_encrypted_scalar(value: &str) -> (r: bool)
    ensures
        r == encrypted_scalar(value@),
{
    let chars = text::chars_of(value);
    let head = text::chars_of("ENC[AES256_GCM,");
    if !text::begins(chars.as_slice(), head.as_slice()) || chars.len() <= head.len()
        || chars[chars.len() - 1] != ']' {
        return false;
    }
    let inner = segment::slice_to_vec(chars.as_slice(), head.len(), chars.len() - 1);
    are_cipher_fields(&segment::split_at_char(inner.as_slice(), ','))
}

/// The text of an encrypted scalar with the given fields.
pub open spec fn scalar_text(
    data: Seq<char>,
    iv: Seq<char>,
    tag: Seq<char>,
    kind: Seq<char>,
) -> Seq<char> {
    "ENC[AES256_GCM,"@ + ("data:"@ + data) + seq![','] + ("iv:"@ + iv) + seq![','] + ("tag:"@ + tag)
        + seq![','] + ("type:"@ + kind) + seq![']']
}

proof fn lemma_labelled(field: Seq<char>, label: Seq<char>)
    requires
        text::starts_with(field, label),
    ensures
        field == label + field.skip(label.len() as int),
        label.len() <= field.len(),
{
    assert(field =~= label + field.skip(label.len() as int));
}

/// Law: whatever counts as encrypted has its cipher, its data, its initialization vector, its
/// tag and its kind, none of them empty, and the kind is one of a value.
pub proof fn law_encrypted_scalars_are_complete(s: Seq<char>)
    requires
        encrypted_scalar(s),
    ensures
        exists|data: Seq<char>, iv: Seq<char>, tag: Seq<char>, kind: Seq<char>|
            s == #[trigger] scalar_text(data, iv, tag, kind) && data.len() > 0 && iv.len() > 0
                && tag.len() > 0 && (kind == "str"@ || kind == "int"@ || kind == "float"@ || kind
                == "bool"@ || kind == "bytes"@ || kind == "comment"@ || kind == "null"@),
{
    let head = "ENC[AES256_GCM,"@;
    let inner = s.subrange(head.len() as int, s.len() - 1);
    let f = segment::split(inner, ',');
    segment::law_split_is_undone_by_join(inner, ',');
    lemma_labelled(f[0], "data:"@);
    lemma_labelled(f[1], "iv:"@);
    lemma_labelled(f[2], "tag:"@);
    lemma_labelled(f[3], "type:"@);
    let data = f[0].skip("data:"@.len() as int);
    let iv = f[1].skip("iv:"@.len() as int);
    let tag = f[2].skip("tag:"@.len() as int);
    let kind = f[3].skip("type:"@.len() as int);
    lemma_joined_fields(f);
    assert(s =~= head + inner + seq![']']);
    assert(s =~= scalar_text(data, iv, tag, kind));
}

proof fn lemma_joined_fields(f: Seq<Seq<char>>)
    requires
        f.len() == 4,
    ensures
        segment::join(f, seq![',']) == f[0] + seq![','] + f[1] + seq![','] + f[2] + seq![','] + f[3],
{
    let three = f.drop_last();
    let two = three.drop_last();
    let one = two.drop_last();
    assert(one.len() == 1 && one[0] == f[0]);
    assert(segment::join(one, seq![',']) == f[0]);
    assert(segment::join(two, seq![',']) == f[0] + seq![','] + f[1]);
    assert(segment::join(three, seq![',']) == f[0] + seq![','] + f[1] + seq![','] + f[2]);
}

/// Law: a scalar with all of its fields counts as encrypted.
pub proof fn law_complete_scalars_are_encrypted(
    data: Seq<char>,
    iv: Seq<char>,
    tag: Seq<char>,
    kind: Seq<char>,
)
    requires
        data.len() > 0 && !data.contains(','),
        iv.len() > 0 && !iv.contains(','),
        tag.len() > 0 && !tag.contains(','),
        value_kind(kind),
    ensures
        encrypted_scalar(scalar_text(data, iv, tag, kind)),
{
    let s = scalar_text(data, iv, tag, kind);
    let head = "ENC[AES256_GCM,"@;
    let (a, b, c, d) = ("data:"@ + data, "iv:"@ + iv, "tag:"@ + tag, "type:"@ + kind);
    reveal_strlit("data:");
    reveal_strlit("iv:");
    reveal_strlit("tag:");
    reveal_strlit("type:");
    lemma_no_comma("data:"@, data);
    lemma_no_comma("iv:"@, iv);
    lemma_no_comma("tag:"@, tag);
    lemma_kind_has_no_comma(kind);
    lemma_no_comma("type:"@, kind);
    let inner = s.subrange(head.len() as int, s.len() - 1);
    let ab = a.push(',') + b;
    let abc = ab.push(',') + c;
    let abcd = abc.push(',') + d;
    assert(inner =~= abcd);
    segment::lemma_split_piece(abc, d, ',');
    segment::lemma_split_piece(ab, c, ',');
    segment::lemma_split_piece(a, b, ',');
    segment::lemma_before(a, ',');
    assert(segment::split(a, ',') =~= seq![a]);
    let f = segment::split(inner, ',');
    assert(f =~= seq![a, b, c, d]);
    assert(d.skip("type:"@.len() as int) =~= kind);
    assert(a.subrange(0, "data:"@.len() as int) =~= "data:"@);
    assert(b.subrange(0, "iv:"@.len() as int) =~= "iv:"@);
    assert(c.subrange(0, "tag:"@.len() as int) =~= "tag:"@);
    assert(d.subrange(0, "type:"@.len() as int) =~= "type:"@);
    assert(s.subrange(0, head.len() as int) =~= head);
    assert(s.last() == ']');
}

proof fn lemma_no_comma(label: Seq<char>, value: Seq<char>)
    requires
        !label.contains(','),
        !value.contains(','),
    ensures
        !(label + value).contains(','),
{
    if (label + value).contains(',') {
        let i = choose|i: int| 0 <= i < (label + value).len() && (label + value)[i] == ',';
        if i < label.len() {
            assert(label[i] == ',');
        } else {
            assert(value[i - label.len()] == ',');
        }
    }
}

proof fn lemma_kind_has_no_comma(kind: Seq<char>)
    requires
        value_kind(kind),
    ensures
        !kind.contains(','),
{
    reveal_strlit("str");
    reveal_strlit("int");
    reveal_strlit("float");
    reveal_strlit("bool");
    reveal_strlit("bytes");
    reveal_strlit("comment");
    reveal_strlit("null");
}

} // verus!
