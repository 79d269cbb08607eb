//! Digests and their hexadecimal text.

use vstd::prelude::*;


verus! {

/// The SHA-256 digest of bytes.
pub uninterp spec fn sha256(bytes: Seq<u8>) -> Seq<u8>;

/// `sha2::Sha256::digest`, whose output has 32 bytes.
#[verifier::external_body]
pub(crate) fn sha256_of(bytes: &[u8]) -> (r: Vec<u8>)
    ensures
        r@ == sha256(bytes@),
        r@.len() == 32,
{
    <sha2::Sha256 as sha2::Digest>::digest(bytes).to_vec()
}

/// The hexadecimal digit of a number below 16, in lower case.
pub open spec fn hex_digit(n: int) -> char {
    if n < 10 {
        (('0' as u32) + n) as char
    } else {
        (('a' as u32) + (n - 10)) as char
    }
}

/// The hexadecimal text of bytes, in lower case.
pub open spec fn hex_text(bytes: Seq<u8>) -> Seq<char>
    decreases bytes.len(),
{
    if bytes.len() == 0 {
        Seq::empty()
    } else {
        hex_text(bytes.drop_last()).push(hex_digit(bytes.last() as int / 16)).push(
            hex_digit(bytes.last() as int % 16),
        )
    }
}

/// The value of a hexadecimal digit.
pub open spec fn hex_value(c: char) -> Option<int> {
    if '0' <= c <= '9' {
        Some(c as int - '0' as int)
    } else if 'a' <= c <= 'f' {
        Some(c as int - 'a' as int + 10)
    } else if 'A' <= c <= 'F' {
        Some(c as int - 'A' as int + 10)
    } else {
        None
    }
}

/// The bytes of a hexadecimal text: two digits for each.
pub open spec fn hex_bytes(s: Seq<char>) -> Option<Seq<u8>>
    decreases s.len(),
{
    if s.len() == 0 {
        Some(Seq::empty())
    } else if s.len() == 1 {
        None
    } else {
        match (
            hex_bytes(s.take(s.len() - 2)),
            hex_value(s[s.len() - 2]),
            hex_value(s[s.len() - 1]),
        ) {
            (Some(head), Some(high), Some(low)) => Some(head.push((high * 16 + low) as u8)),
            _ => None,
        }
    }
}

/// `hex::encode`.
#[verifier::external_body]
pub(crate) fn hex_encode(bytes: &[u8]) -> (r: String)
    ensures
        r@ == hex_text(bytes@),
{
    hex::encode(bytes)
}

/// `hex::decode`, without its error.
#[verifier::external_body]
pub(crate) fn hex_decode(s: &str) -> (r: Option<Vec<u8>>)
    ensures
        match r {
            Some(bytes) => hex_bytes(s@) == Some(bytes@),
            None => hex_bytes(s@) is None,
        },
{
    hex::decode(s).ok()
}

/// The hexadecimal text of bytes is read as these bytes.
pub proof fn lemma_hex(bytes: Seq<u8>)
    ensures
        hex_bytes(hex_text(bytes)) == Some(bytes),
    decreases bytes.len(),
{
    if bytes.len() > 0 {
        let s = hex_text(bytes);
        let b = bytes.last() as int;
        lemma_hex(bytes.drop_last());
        assert(s.take(s.len() - 2) =~= hex_text(bytes.drop_last()));
        assert(hex_value(hex_digit(b / 16)) == Some(b / 16));
        assert(hex_value(hex_digit(b % 16)) == Some(b % 16));
        assert((b / 16) * 16 + b % 16 == b);
        assert(bytes.drop_last().push(bytes.last()) =~= bytes);
    } else {
        assert(bytes =~= Seq::<u8>::empty());
    }
}

/// A number in eight bytes, the highest first.
pub open spec fn be_bytes(n: nat) -> Seq<u8> {
    seq![
        (n / 72057594037927936 % 256) as u8,
        (n / 281474976710656 % 256) as u8,
        (n / 1099511627776 % 256) as u8,
        (n / 4294967296 % 256) as u8,
        (n / 16777216 % 256) as u8,
        (n / 65536 % 256) as u8,
        (n / 256 % 256) as u8,
        (n % 256) as u8,
    ]
}

/// The bytes of a number, the highest first.
pub fn to_be_bytes(n: u64) -> (r: Vec<u8>)
    ensures
        r@ == be_bytes(n as nat),
{
    let mut out: Vec<u8> = Vec::new();
    push_be(&mut out, n);
    assert(out@ =~= be_bytes(n as nat));
    out
}

fn push_be(out: &mut Vec<u8>, n: u64)
    ensures
        final(out)@ == old(out)@ + be_bytes(n as nat),
{
    let ghost before = out@;
    out.push((n / 72057594037927936 % 256) as u8);
    out.push((n / 281474976710656 % 256) as u8);
    out.push((n / 1099511627776 % 256) as u8);
    out.push((n / 4294967296 % 256) as u8);
    out.push((n / 16777216 % 256) as u8);
    out.push((n / 65536 % 256) as u8);
    out.push((n / 256 % 256) as u8);
    out.push((n % 256) as u8);
    assert(out@ =~= before + be_bytes(n as nat));
}

pub fn append_bytes(out: &mut Vec<u8>, more: &[u8])
    ensures
        final(out)@ == old(out)@ + more@,
{
    let ghost before = out@;
    let mut i: usize = 0;
    while i < more.len()
        invariant
            i <= more.len(),
            out@ =~= before + more@.take(i as int),
        decreases more.len() - i,
    {
        out.push(more[i]);
        assert(more@.take(i + 1) =~= more@.take(i as int).push(more@[i as int]));
        i = i + 1;
    }
    assert(more@.take(i as int) =~= more@);
}

/// What is hashed for a body under a name: each part after its length.
pub open spec fn digest_input(
    domain: Seq<u8>,
    salt: Seq<u8>,
    name: Seq<u8>,
    body: Seq<u8>,
) -> Seq<u8> {
    domain + be_bytes(salt.len()) + salt + be_bytes(name.len()) + name + be_bytes(body.len()) + body
}

/// The salted digest of a body under a name.
pub open spec fn digest_of(
    domain: Seq<u8>,
    salt: Seq<u8>,
    name: Seq<u8>,
    body: Seq<u8>,
) -> Seq<char> {
    hex_text(sha256(digest_input(domain, salt, name, body)))
}

pub fn digest(domain: &[u8], salt: &[u8], name: &[u8], body: &[u8]) -> (r: String)
    ensures
        r@ == digest_of(domain@, salt@, name@, body@),
{
    let mut input: Vec<u8> = Vec::new();
    append_bytes(&mut input, domain);
    push_be(&mut input, salt.len() as u64);
    append_bytes(&mut input, salt);
    push_be(&mut input, name.len() as u64);
    append_bytes(&mut input, name);
    push_be(&mut input, body.len() as u64);
    append_bytes(&mut input, body);
    assert(input@ =~= digest_input(domain@, salt@, name@, body@));
    hex_encode(sha256_of(input.as_slice()).as_slice())
}

/// A number below two to the sixty-fourth is told by its bytes.
proof fn lemma_be_bytes(n: nat, m: nat)
    requires
        n < 18446744073709551616,
        m < 18446744073709551616,
        be_bytes(n) == be_bytes(m),
    ensures
        n == m,
{
    let (a, b) = (be_bytes(n), be_bytes(m));
    assert(a[0] == b[0] && a[1] == b[1] && a[2] == b[2] && a[3] == b[3]);
    assert(a[4] == b[4] && a[5] == b[5] && a[6] == b[6] && a[7] == b[7]);
    lemma_digits(n as int);
    lemma_digits(m as int);
}

proof fn lemma_digits(n: int)
    requires
        0 <= n < 18446744073709551616,
    ensures
        n == (n / 72057594037927936 % 256) * 72057594037927936 + (n / 281474976710656 % 256)
            * 281474976710656 + (n / 1099511627776 % 256) * 1099511627776 + (n / 4294967296 % 256)
            * 4294967296 + (n / 16777216 % 256) * 16777216 + (n / 65536 % 256) * 65536 + (n / 256
            % 256) * 256 + n % 256,
{
    vstd::arithmetic::div_mod::lemma_div_denominator(n, 256, 256);
    vstd::arithmetic::div_mod::lemma_div_denominator(n, 65536, 256);
    vstd::arithmetic::div_mod::lemma_div_denominator(n, 16777216, 256);
    vstd::arithmetic::div_mod::lemma_div_denominator(n, 4294967296, 256);
    vstd::arithmetic::div_mod::lemma_div_denominator(n, 1099511627776, 256);
    vstd::arithmetic::div_mod::lemma_div_denominator(n, 281474976710656, 256);
}

/// Law: what is hashed tells its parts apart: under one domain, the same bytes come of the
/// same salt, the same name and the same body only.
pub proof fn law_hashed_parts_are_told_apart(
    domain: Seq<u8>,
    a: (Seq<u8>, Seq<u8>, Seq<u8>),
    b: (Seq<u8>, Seq<u8>, Seq<u8>),
)
    requires
        a.0.len() < 18446744073709551616,
        a.1.len() < 18446744073709551616,
        a.2.len() < 18446744073709551616,
        b.0.len() < 18446744073709551616,
        b.1.len() < 18446744073709551616,
        b.2.len() < 18446744073709551616,
        digest_input(domain, a.0, a.1, a.2) == digest_input(domain, b.0, b.1, b.2),
    ensures
        a.0 == b.0,
        a.1 == b.1,
        a.2 == b.2,
{
    let none = Seq::<u8>::empty();
    let (k2, l2) = (be_bytes(a.2.len()), be_bytes(b.2.len()));
    let (k1, l1) = (be_bytes(a.1.len()), be_bytes(b.1.len()));
    let (k0, l0) = (be_bytes(a.0.len()), be_bytes(b.0.len()));
    lemma_regrouped(domain, k0, a.0, k1, a.1, k2, a.2);
    lemma_regrouped(domain, l0, b.0, l1, b.1, l2, b.2);
    lemma_same_tail(
        domain,
        k0 + a.0 + (k1 + a.1 + (k2 + a.2 + none)),
        l0 + b.0 + (l1 + b.1 + (l2 + b.2 + none)),
    );
    lemma_part(a.0, b.0, k1 + a.1 + (k2 + a.2 + none), l1 + b.1 + (l2 + b.2 + none));
    lemma_part(a.1, b.1, k2 + a.2 + none, l2 + b.2 + none);
    lemma_part(a.2, b.2, none, none);
}

proof fn lemma_regrouped(
    d: Seq<u8>,
    k0: Seq<u8>,
    s0: Seq<u8>,
    k1: Seq<u8>,
    s1: Seq<u8>,
    k2: Seq<u8>,
    s2: Seq<u8>,
)
    ensures
        d + k0 + s0 + k1 + s1 + k2 + s2 == d + (k0 + s0 + (k1 + s1 + (k2 + s2 + Seq::<
            u8,
        >::empty()))),
{
    assert(d + k0 + s0 + k1 + s1 + k2 + s2 =~= d + (k0 + s0 + (k1 + s1 + (k2 + s2 + Seq::<
        u8,
    >::empty()))));
}

proof fn lemma_same_tail(d: Seq<u8>, p: Seq<u8>, q: Seq<u8>)
    requires
        d + p == d + q,
    ensures
        p == q,
{
    assert((d + p).skip(d.len() as int) =~= p);
    assert((d + q).skip(d.len() as int) =~= q);
}

/// A part after its length is told from what follows.
proof fn lemma_part(a: Seq<u8>, b: Seq<u8>, p: Seq<u8>, q: Seq<u8>)
    requires
        a.len() < 18446744073709551616,
        b.len() < 18446744073709551616,
        be_bytes(a.len()) + a + p == be_bytes(b.len()) + b + q,
    ensures
        a == b,
        p == q,
{
    let (x, y) = (be_bytes(a.len()) + a + p, be_bytes(b.len()) + b + q);
    assert(x.take(8) =~= be_bytes(a.len()));
    assert(y.take(8) =~= be_bytes(b.len()));
    lemma_be_bytes(a.len(), b.len());
    let n = a.len() as int;
    assert(x.subrange(8, 8 + n) =~= a);
    assert(y.subrange(8, 8 + n) =~= b);
    assert(x.skip(8 + n) =~= p);
    assert(y.skip(8 + n) =~= q);
}

} // verus!
