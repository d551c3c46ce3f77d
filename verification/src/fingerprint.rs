//! Versioned BLAKE3 keys: the canonical byte encoding of key inputs, the
//! hash call, and the prefixed hexadecimal text form.
use vstd::prelude::*;
use vstd::utf8::encode_utf8;

use crate::identity::{subject_full_identity, SubjectId, SubjectView};
use crate::model::{kind_custom_of, kind_tag_of, Candidate, CandidateView, FindingKind, IssueId, KindView};

verus! {

// ---------------------------------------------------------------------------
// BLAKE3 key derivation.
// ---------------------------------------------------------------------------

/// The 32 bytes that `blake3::derive_key` returns for a context string and
/// key material.
pub uninterp spec fn blake3_derive_key(context: Seq<char>, material: Seq<u8>) -> Seq<u8>;

/// Calls `blake3::derive_key`: BLAKE3 in key-derivation mode, keyed by the
/// context string, over the key material. The digest is named, not restated;
/// the crate documents it as equal to `Hasher::new_derive_key(context)`
/// followed by `update(material)` and `finalize()`.
#[verifier::external_body]
fn derive_key(context: &str, material: &[u8]) -> (r: [u8; 32])
    ensures
        r@ == blake3_derive_key(context@, material@),
{
    blake3::derive_key(context, material)
}

// ---------------------------------------------------------------------------
// The canonical, length-prefixed encoding of key inputs.
// ---------------------------------------------------------------------------

/// The eight big-endian bytes of a 64-bit length.
pub open spec fn be64(n: nat) -> Seq<u8> {
    seq![
        ((n / 0x100000000000000) % 256) as u8,
        ((n / 0x1000000000000) % 256) as u8,
        ((n / 0x10000000000) % 256) as u8,
        ((n / 0x100000000) % 256) as u8,
        ((n / 0x1000000) % 256) as u8,
        ((n / 0x10000) % 256) as u8,
        ((n / 0x100) % 256) as u8,
        (n % 256) as u8,
    ]
}

/// A byte string preceded by its big-endian 64-bit length.
pub open spec fn length_prefixed(v: Seq<u8>) -> Seq<u8> {
    be64(v.len()) + v
}

/// A present field: its tag, the marker byte 1, and its value.
pub open spec fn present_field(tag: Seq<char>, value: Seq<char>) -> Seq<u8> {
    length_prefixed(encode_utf8(tag)) + seq![1u8] + length_prefixed(encode_utf8(value))
}

/// An absent field: its tag and the marker byte 0.
pub open spec fn absent_field(tag: Seq<char>) -> Seq<u8> {
    length_prefixed(encode_utf8(tag)) + seq![0u8]
}

/// An optional field, present or absent.
pub open spec fn optional_field(tag: Seq<char>, value: Option<Seq<char>>) -> Seq<u8> {
    match value {
        Some(v) => present_field(tag, v),
        None => absent_field(tag),
    }
}

/// The encoding of a finding kind: its tag and, for a custom kind, its value.
pub open spec fn kind_fields(tag: Seq<char>, custom: Option<Seq<char>>) -> Seq<u8> {
    present_field("kind"@, tag) + optional_field("kind_value"@, custom)
}

/// The key material of an occurrence key.
pub open spec fn occurrence_material(
    partition: Seq<char>,
    kind_tag: Seq<char>,
    kind_custom: Option<Seq<char>>,
    source: Seq<char>,
    subtype: Option<Seq<char>>,
    native_id: Seq<char>,
) -> Seq<u8> {
    present_field("partition"@, partition) + kind_fields(kind_tag, kind_custom) + present_field(
        "source"@,
        source,
    ) + optional_field("subtype"@, subtype) + present_field("native_id"@, native_id)
}

/// The key material of a correlation key for one issue and, optionally, one
/// full subject identity.
pub open spec fn correlation_material(
    partition: Seq<char>,
    kind_tag: Seq<char>,
    kind_custom: Option<Seq<char>>,
    issue: Seq<char>,
    subject: Option<Seq<char>>,
) -> Seq<u8> {
    present_field("partition"@, partition) + kind_fields(kind_tag, kind_custom) + present_field(
        "issue"@,
        issue,
    ) + optional_field("subject"@, subject)
}

/// A UTF-8 encoding takes at most four bytes per character.
proof fn lemma_encode_len(s: Seq<char>)
    ensures
        encode_utf8(s).len() <= 4 * s.len(),
    decreases s.len(),
{
    if s.len() > 0 {
        lemma_encode_len(s.drop_first());
    }
}

/// Equal encodings come from equal characters.
proof fn lemma_encode_injective(a: Seq<char>, b: Seq<char>)
    requires
        encode_utf8(a) == encode_utf8(b),
    ensures
        a == b,
{
    vstd::utf8::encode_utf8_decode_utf8(a);
    vstd::utf8::encode_utf8_decode_utf8(b);
}

/// Lengths below 2^64 have distinct big-endian encodings.
proof fn lemma_be64_injective(n: nat, m: nat)
    requires
        n < 0x1_0000_0000_0000_0000,
        m < 0x1_0000_0000_0000_0000,
        be64(n) == be64(m),
    ensures
        n == m,
{
    let x: u64 = n as u64;
    let y: u64 = m as u64;
    assert(be64(n)[0] == be64(m)[0] && be64(n)[1] == be64(m)[1] && be64(n)[2] == be64(m)[2] && be64(n)[3] == be64(m)[3]);
    assert(be64(n)[4] == be64(m)[4] && be64(n)[5] == be64(m)[5] && be64(n)[6] == be64(m)[6] && be64(n)[7] == be64(m)[7]);
    assert(x == y) by (bit_vector)
        requires
            (x / 0x100000000000000) % 256 == (y / 0x100000000000000) % 256,
            (x / 0x1000000000000) % 256 == (y / 0x1000000000000) % 256,
            (x / 0x10000000000) % 256 == (y / 0x10000000000) % 256,
            (x / 0x100000000) % 256 == (y / 0x100000000) % 256,
            (x / 0x1000000) % 256 == (y / 0x1000000) % 256,
            (x / 0x10000) % 256 == (y / 0x10000) % 256,
            (x / 0x100) % 256 == (y / 0x100) % 256,
            x % 256 == y % 256,
    ;
}

/// A length prefix fixes what it prefixes: two length-prefixed strings,
/// each followed by more bytes, are equal only with equal strings and equal
/// rests.
proof fn lemma_prefixed_split(a: Seq<u8>, b: Seq<u8>, ra: Seq<u8>, rb: Seq<u8>)
    requires
        a.len() < 0x1_0000_0000_0000_0000,
        b.len() < 0x1_0000_0000_0000_0000,
        length_prefixed(a) + ra == length_prefixed(b) + rb,
    ensures
        a == b,
        ra == rb,
{
    let x = length_prefixed(a) + ra;
    let y = length_prefixed(b) + rb;
    assert(x.subrange(0, 8) =~= be64(a.len()));
    assert(y.subrange(0, 8) =~= be64(b.len()));
    lemma_be64_injective(a.len(), b.len());
    assert(x.subrange(8, 8 + a.len() as int) =~= a);
    assert(y.subrange(8, 8 + b.len() as int) =~= b);
    assert(x.subrange(8 + a.len() as int, x.len() as int) =~= ra);
    assert(y.subrange(8 + b.len() as int, y.len() as int) =~= rb);
}

/// Whether the texts a field encoding carries are short enough for their
/// 64-bit length prefixes, as any text held in memory is.
pub open spec fn encodable(s: Seq<char>) -> bool {
    s.len() < 0x1000_0000_0000_0000
}

/// A present field fixes its value and what follows it.
proof fn lemma_present_split(tag: Seq<char>, v1: Seq<char>, v2: Seq<char>, r1: Seq<u8>, r2: Seq<u8>)
    requires
        encodable(tag),
        encodable(v1),
        encodable(v2),
        present_field(tag, v1) + r1 == present_field(tag, v2) + r2,
    ensures
        v1 == v2,
        r1 == r2,
{
    let t = encode_utf8(tag);
    lemma_encode_len(tag);
    lemma_encode_len(v1);
    lemma_encode_len(v2);
    let tail1 = seq![1u8] + length_prefixed(encode_utf8(v1)) + r1;
    let tail2 = seq![1u8] + length_prefixed(encode_utf8(v2)) + r2;
    assert(present_field(tag, v1) + r1 =~= length_prefixed(t) + tail1);
    assert(present_field(tag, v2) + r2 =~= length_prefixed(t) + tail2);
    lemma_prefixed_split(t, t, tail1, tail2);
    assert(tail1.drop_first() =~= length_prefixed(encode_utf8(v1)) + r1);
    assert(tail2.drop_first() =~= length_prefixed(encode_utf8(v2)) + r2);
    lemma_prefixed_split(encode_utf8(v1), encode_utf8(v2), r1, r2);
    lemma_encode_injective(v1, v2);
}

/// An optional field fixes its value, or its absence, and what follows it.
proof fn lemma_optional_split(tag: Seq<char>, v1: Option<Seq<char>>, v2: Option<Seq<char>>, r1: Seq<u8>, r2: Seq<u8>)
    requires
        encodable(tag),
        v1 matches Some(x) ==> encodable(x),
        v2 matches Some(x) ==> encodable(x),
        optional_field(tag, v1) + r1 == optional_field(tag, v2) + r2,
    ensures
        v1 == v2,
        r1 == r2,
{
    let t = encode_utf8(tag);
    lemma_encode_len(tag);
    let tail1 = optional_field(tag, v1).subrange((t.len() + 8) as int, optional_field(tag, v1).len() as int) + r1;
    let tail2 = optional_field(tag, v2).subrange((t.len() + 8) as int, optional_field(tag, v2).len() as int) + r2;
    assert(optional_field(tag, v1) + r1 =~= length_prefixed(t) + tail1);
    assert(optional_field(tag, v2) + r2 =~= length_prefixed(t) + tail2);
    lemma_prefixed_split(t, t, tail1, tail2);
    assert(tail1[0] == if v1 is Some { 1u8 } else { 0u8 });
    assert(tail2[0] == if v2 is Some { 1u8 } else { 0u8 });
    match (v1, v2) {
        (Some(x), Some(y)) => {
            lemma_encode_len(x);
            lemma_encode_len(y);
            assert(tail1.drop_first() =~= length_prefixed(encode_utf8(x)) + r1);
            assert(tail2.drop_first() =~= length_prefixed(encode_utf8(y)) + r2);
            lemma_prefixed_split(encode_utf8(x), encode_utf8(y), r1, r2);
            lemma_encode_injective(x, y);
        },
        (None, None) => {
            assert(tail1.drop_first() =~= r1);
            assert(tail2.drop_first() =~= r2);
        },
        _ => {},
    }
}

/// The field tags of key material are encodable.
proof fn lemma_tags_encodable()
    ensures
        encodable("partition"@),
        encodable("kind"@),
        encodable("kind_value"@),
        encodable("source"@),
        encodable("subtype"@),
        encodable("native_id"@),
{
    reveal_strlit("partition");
    reveal_strlit("kind");
    reveal_strlit("kind_value");
    reveal_strlit("source");
    reveal_strlit("subtype");
    reveal_strlit("native_id");
}

/// Regrouping the six parts of occurrence material to the right.
proof fn lemma_regroup(a: Seq<u8>, b: Seq<u8>, c: Seq<u8>, d: Seq<u8>, e: Seq<u8>, f: Seq<u8>)
    ensures
        a + (b + c) + d + e + f == a + (b + (c + (d + (e + f)))),
{
    assert(a + (b + c) + d + e + f =~= a + (b + (c + (d + (e + f)))));
}

/// Equal occurrence material comes from equal fields.
proof fn lemma_material_fields(
    p1: Seq<char>,
    t1: Seq<char>,
    c1: Option<Seq<char>>,
    s1: Seq<char>,
    st1: Option<Seq<char>>,
    n1: Seq<char>,
    p2: Seq<char>,
    t2: Seq<char>,
    c2: Option<Seq<char>>,
    s2: Seq<char>,
    st2: Option<Seq<char>>,
    n2: Seq<char>,
)
    requires
        encodable(p1) && encodable(t1) && encodable(s1) && encodable(n1),
        encodable(p2) && encodable(t2) && encodable(s2) && encodable(n2),
        c1 matches Some(v) ==> encodable(v),
        c2 matches Some(v) ==> encodable(v),
        st1 matches Some(v) ==> encodable(v),
        st2 matches Some(v) ==> encodable(v),
        occurrence_material(p1, t1, c1, s1, st1, n1) == occurrence_material(p2, t2, c2, s2, st2, n2),
    ensures
        p1 == p2 && t1 == t2 && c1 == c2 && s1 == s2 && st1 == st2 && n1 == n2,
{
    lemma_tags_encodable();
    let e = Seq::<u8>::empty();
    let z1 = present_field("native_id"@, n1);
    let z2 = present_field("native_id"@, n2);
    let k1 = optional_field("subtype"@, st1) + z1;
    let k2 = optional_field("subtype"@, st2) + z2;
    let h1 = present_field("source"@, s1) + k1;
    let h2 = present_field("source"@, s2) + k2;
    let g1 = optional_field("kind_value"@, c1) + h1;
    let g2 = optional_field("kind_value"@, c2) + h2;
    let f1 = present_field("kind"@, t1) + g1;
    let f2 = present_field("kind"@, t2) + g2;
    lemma_regroup(
        present_field("partition"@, p1),
        present_field("kind"@, t1),
        optional_field("kind_value"@, c1),
        present_field("source"@, s1),
        optional_field("subtype"@, st1),
        z1,
    );
    lemma_regroup(
        present_field("partition"@, p2),
        present_field("kind"@, t2),
        optional_field("kind_value"@, c2),
        present_field("source"@, s2),
        optional_field("subtype"@, st2),
        z2,
    );
    lemma_present_split("partition"@, p1, p2, f1, f2);
    lemma_present_split("kind"@, t1, t2, g1, g2);
    lemma_optional_split("kind_value"@, c1, c2, h1, h2);
    lemma_present_split("source"@, s1, s2, k1, k2);
    lemma_optional_split("subtype"@, st1, st2, z1, z2);
    assert(z1 =~= z1 + e);
    assert(z2 =~= z2 + e);
    lemma_present_split("native_id"@, n1, n2, e, e);
}

/// A finding kind is fixed by its tag and custom value.
proof fn lemma_kind_fields(a: KindView, b: KindView)
    requires
        kind_tag_of(a) == kind_tag_of(b),
        kind_custom_of(a) == kind_custom_of(b),
    ensures
        a == b,
{
    reveal_strlit("vulnerability");
    reveal_strlit("misconfiguration");
    reveal_strlit("secret");
    reveal_strlit("code");
    reveal_strlit("other");
    assert("vulnerability"@.len() == 13 && "misconfiguration"@.len() == 16 && "secret"@.len() == 6);
    assert("code"@.len() == 4 && "other"@.len() == 5);
    match (a, b) {
        (KindView::Other(x), KindView::Other(y)) => {
            assert(kind_custom_of(a) == Some(x) && kind_custom_of(b) == Some(y));
        },
        _ => {
            assert(kind_tag_of(a).len() == kind_tag_of(b).len());
        },
    }
}

/// Whether the texts of a candidate's occurrence are encodable.
pub open spec fn occurrence_encodable(c: CandidateView) -> bool {
    &&& encodable(c.partition)
    &&& kind_custom_of(c.kind) matches Some(v) ==> encodable(v)
    &&& encodable(c.origin.source)
    &&& c.origin.subtype matches Some(v) ==> encodable(v)
    &&& encodable(c.origin.native_id)
}

/// The encoding of occurrence keys is injective: candidates with equal key
/// material have one partition, one finding kind and one origin.
pub proof fn lemma_occurrence_material_injective(a: CandidateView, b: CandidateView)
    requires
        occurrence_encodable(a),
        occurrence_encodable(b),
        occurrence_material(
            a.partition,
            kind_tag_of(a.kind),
            kind_custom_of(a.kind),
            a.origin.source,
            a.origin.subtype,
            a.origin.native_id,
        ) == occurrence_material(
            b.partition,
            kind_tag_of(b.kind),
            kind_custom_of(b.kind),
            b.origin.source,
            b.origin.subtype,
            b.origin.native_id,
        ),
    ensures
        a.partition == b.partition,
        a.kind == b.kind,
        a.origin == b.origin,
{
    reveal_strlit("vulnerability");
    reveal_strlit("misconfiguration");
    reveal_strlit("secret");
    reveal_strlit("code");
    reveal_strlit("other");
    assert(encodable(kind_tag_of(a.kind)) && encodable(kind_tag_of(b.kind)));
    lemma_material_fields(
        a.partition,
        kind_tag_of(a.kind),
        kind_custom_of(a.kind),
        a.origin.source,
        a.origin.subtype,
        a.origin.native_id,
        b.partition,
        kind_tag_of(b.kind),
        kind_custom_of(b.kind),
        b.origin.source,
        b.origin.subtype,
        b.origin.native_id,
    );
    lemma_kind_fields(a.kind, b.kind);
}

fn push_bytes(out: &mut Vec<u8>, v: &[u8])
    ensures
        final(out)@ == old(out)@ + v@,
{
    let ghost start = out@;
    let mut i: usize = 0;
    while i < v.len()
        invariant
            i <= v.len(),
            out@ == start + v@.take(i as int),
        decreases v.len() - i,
    {
        out.push(v[i]);
        assert(v@.take(i + 1) == v@.take(i as int).push(v@[i as int]));
        i = i + 1;
    }
    assert(v@.take(v.len() as int) == v@);
}

fn push_length_prefixed(out: &mut Vec<u8>, v: &[u8])
    ensures
        final(out)@ == old(out)@ + length_prefixed(v@),
{
    let n: u64 = v.len() as u64;
    let len_bytes: [u8; 8] = [
        ((n / 0x100000000000000) % 256) as u8,
        ((n / 0x1000000000000) % 256) as u8,
        ((n / 0x10000000000) % 256) as u8,
        ((n / 0x100000000) % 256) as u8,
        ((n / 0x1000000) % 256) as u8,
        ((n / 0x10000) % 256) as u8,
        ((n / 0x100) % 256) as u8,
        (n % 256) as u8,
    ];
    assert(len_bytes@ =~= be64(v@.len()));
    push_bytes(out, &len_bytes);
    push_bytes(out, v);
    assert(final(out)@ =~= old(out)@ + length_prefixed(v@)) by {
        assert(old(out)@ + be64(v@.len()) + v@ =~= old(out)@ + length_prefixed(v@));
    }
}

fn push_present(out: &mut Vec<u8>, tag: &str, value: &str)
    ensures
        final(out)@ == old(out)@ + present_field(tag@, value@),
{
    push_length_prefixed(out, tag.as_bytes());
    out.push(1u8);
    push_length_prefixed(out, value.as_bytes());
    assert(final(out)@ =~= old(out)@ + present_field(tag@, value@));
}

fn push_absent(out: &mut Vec<u8>, tag: &str)
    ensures
        final(out)@ == old(out)@ + absent_field(tag@),
{
    push_length_prefixed(out, tag.as_bytes());
    out.push(0u8);
    assert(final(out)@ =~= old(out)@ + absent_field(tag@));
}

fn push_optional(out: &mut Vec<u8>, tag: &str, value: Option<&str>)
    ensures
        final(out)@ == old(out)@ + optional_field(tag@, opt_view(value)),
{
    match value {
        Some(v) => push_present(out, tag, v),
        None => push_absent(out, tag),
    }
}

/// The character view of an optional string slice.
pub open spec fn opt_view(value: Option<&str>) -> Option<Seq<char>> {
    match value {
        Some(v) => Some(v@),
        None => None,
    }
}

fn push_kind(out: &mut Vec<u8>, tag: &str, custom: Option<&str>)
    ensures
        final(out)@ == old(out)@ + kind_fields(tag@, opt_view(custom)),
{
    push_present(out, "kind", tag);
    push_optional(out, "kind_value", custom);
    assert(final(out)@ =~= old(out)@ + kind_fields(tag@, opt_view(custom)));
}

// ---------------------------------------------------------------------------
// Lowercase hexadecimal text.
// ---------------------------------------------------------------------------

/// The lowercase hexadecimal digit of a nibble.
pub open spec fn hex_digit(n: u8) -> char {
    if n < 10 {
        (n + 48) as char
    } else {
        (n + 87) as char
    }
}

/// Two lowercase hexadecimal digits per byte, high nibble first, as
/// `blake3::Hash::to_hex` renders a digest.
pub open spec fn hex_lower(bytes: Seq<u8>) -> Seq<char>
    decreases bytes.len(),
{
    if bytes.len() == 0 {
        seq![]
    } else {
        hex_lower(bytes.drop_last()) + seq![hex_digit(bytes.last() / 16), hex_digit(bytes.last() % 16)]
    }
}

fn nibble_char(n: u8) -> (c: char)
    requires
        n < 16,
    ensures
        c == hex_digit(n),
{
    if n < 10 {
        (n + 48) as char
    } else {
        (n + 87) as char
    }
}

fn push_hex(out: &mut String, bytes: &[u8; 32])
    ensures
        final(out)@ == old(out)@ + hex_lower(bytes@),
{
    let ghost start = out@;
    let mut i: usize = 0;
    while i < 32
        invariant
            i <= 32,
            bytes@.len() == 32,
            out@ == start + hex_lower(bytes@.take(i as int)),
        decreases 32 - i,
    {
        let b = bytes[i];
        crate::text::push_char(out, nibble_char(b / 16));
        crate::text::push_char(out, nibble_char(b % 16));
        assert(bytes@.take(i + 1).drop_last() =~= bytes@.take(i as int));
        assert(out@ =~= start + hex_lower(bytes@.take(i + 1)));
        i = i + 1;
    }
    assert(bytes@.take(32) =~= bytes@);
}

/// The value of an ASCII hexadecimal digit, of either case.
pub open spec fn hex_value(c: char) -> Option<u8> {
    if '0' <= c && c <= '9' {
        Some(((c as u32) - 48) as u8)
    } else if 'a' <= c && c <= 'f' {
        Some(((c as u32) - 87) as u8)
    } else if 'A' <= c && c <= 'F' {
        Some(((c as u32) - 55) as u8)
    } else {
        None
    }
}

pub(crate) fn hex_nibble(c: char) -> (r: Option<u8>)
    ensures
        r == hex_value(c),
{
    if '0' <= c && c <= '9' {
        Some((c as u32 - 48) as u8)
    } else if 'a' <= c && c <= 'f' {
        Some((c as u32 - 87) as u8)
    } else if 'A' <= c && c <= 'F' {
        Some((c as u32 - 55) as u8)
    } else {
        None
    }
}

/// Whether every character of `s` is an ASCII hexadecimal digit.
pub open spec fn all_hex(s: Seq<char>) -> bool {
    forall|i: int| 0 <= i < s.len() ==> (#[trigger] hex_value(s[i])) is Some
}

/// The bytes that a string of hexadecimal digit pairs encodes.
pub open spec fn decode_hex(s: Seq<char>) -> Seq<u8> {
    Seq::new(
        s.len() / 2,
        |i: int| (hex_value(s[2 * i]).unwrap() * 16 + hex_value(s[2 * i + 1]).unwrap()) as u8,
    )
}

/// Whether `value` begins with `prefix` followed by exactly 64 hexadecimal digits.
pub open spec fn well_formed_key_text(value: Seq<char>, prefix: Seq<char>) -> bool {
    &&& crate::text::has_prefix(value, prefix)
    &&& value.len() - prefix.len() == 64
    &&& all_hex(value.subrange(prefix.len() as int, value.len() as int))
}

/// Parses `prefix` followed by 64 hexadecimal digits into 32 bytes.
fn parse_key(value: &str, prefix: &'static str) -> (r: Result<[u8; 32], KeyParseError>)
    ensures
        match r {
            Ok(bytes) => well_formed_key_text(value@, prefix@) && bytes@ == decode_hex(
                value@.subrange(prefix@.len() as int, value@.len() as int),
            ),
            Err(KeyParseError::Prefix { expected }) => expected@ == prefix@
                && !crate::text::has_prefix(value@, prefix@),
            Err(KeyParseError::Digest) => crate::text::has_prefix(value@, prefix@)
                && !well_formed_key_text(value@, prefix@),
        },
{
    let v = crate::text::chars_of(value);
    let p = crate::text::chars_of(prefix);
    if !crate::text::starts_with(v.as_slice(), p.as_slice()) {
        return Err(KeyParseError::Prefix { expected: prefix });
    }
    if v.len() - p.len() != 64 {
        return Err(KeyParseError::Digest);
    }
    let ghost digest = v@.subrange(p.len() as int, v.len() as int);
    let mut output: [u8; 32] = [0u8; 32];
    let mut index: usize = 0;
    while index < 32
        invariant
            v@ == value@,
            p@ == prefix@,
            crate::text::has_prefix(value@, prefix@),
            v.len() == p.len() + 64,
            digest == v@.subrange(p.len() as int, v.len() as int),
            index <= 32,
            output@.len() == 32,
            forall|k: int| 0 <= k < 2 * index ==> (#[trigger] hex_value(digest[k])) is Some,
            forall|k: int| 0 <= k < index ==> output@[k] == (hex_value(digest[2 * k]).unwrap() * 16
                + hex_value(digest[2 * k + 1]).unwrap()) as u8,
        decreases 32 - index,
    {
        let high = hex_nibble(v[p.len() + 2 * index]);
        let low = hex_nibble(v[p.len() + 2 * index + 1]);
        assert(digest[2 * index as int] == v@[p.len() + 2 * index]);
        assert(digest[2 * index + 1] == v@[p.len() + 2 * index + 1]);
        match (high, low) {
            (Some(h), Some(l)) => {
                output[index] = h * 16 + l;
                index = index + 1;
            },
            _ => {
                assert(hex_value(digest[2 * index as int]) is None || hex_value(digest[2 * index + 1]) is None);
                assert(!all_hex(digest));
                return Err(KeyParseError::Digest);
            },
        }
    }
    assert(output@ =~= decode_hex(digest));
    Ok(output)
}

/// A versioned BLAKE3 key for one source-local occurrence.
///
/// The key hashes the hard partition and finding kind together with the source,
/// optional subtype, and native source ID. It remains separate from
/// [`CorrelationKey`], which deliberately excludes source provenance.
#[derive(Clone, Copy, Debug, Eq, Hash, Ord, PartialEq, PartialOrd)]
pub struct OccurrenceKey {
    bytes: [u8; 32],
}

impl View for OccurrenceKey {
    type V = Seq<u8>;

    closed spec fn view(&self) -> Seq<u8> {
        self.bytes@
    }
}

/// The context string of occurrence keys.
pub open spec fn occurrence_context() -> Seq<char> {
    "custos-dedup/occurrence/v1"@
}

/// The context string of correlation keys.
pub open spec fn correlation_context() -> Seq<char> {
    "custos-dedup/correlation/v1"@
}

/// The occurrence key of a candidate: its partition, finding kind, source,
/// optional subtype, and native identifier.
pub open spec fn occurrence_key_of(c: CandidateView) -> Seq<u8> {
    blake3_derive_key(
        occurrence_context(),
        occurrence_material(
            c.partition,
            kind_tag_of(c.kind),
            kind_custom_of(c.kind),
            c.origin.source,
            c.origin.subtype,
            c.origin.native_id,
        ),
    )
}

/// The correlation key of a partition, finding kind, issue alias, and
/// optional subject: the subject enters by its key-domain-separated identity.
pub open spec fn correlation_key_of(
    partition: Seq<char>,
    kind: KindView,
    issue: Seq<char>,
    subject: Option<SubjectView>,
) -> Seq<u8> {
    blake3_derive_key(
        correlation_context(),
        correlation_material(
            partition,
            kind_tag_of(kind),
            kind_custom_of(kind),
            issue,
            match subject {
                Some(s) => Some(subject_full_identity(s)),
                None => None,
            },
        ),
    )
}

impl OccurrenceKey {
    /// Computes a source-local occurrence key.
    pub fn for_candidate(candidate: &Candidate) -> (k: OccurrenceKey)
        ensures
            k@ == occurrence_key_of(candidate@),
    {
        let origin = candidate.origin();
        let kind = candidate.kind();
        OccurrenceKey::from_parts(
            candidate.partition(),
            kind.key_tag(),
            kind.custom_key(),
            origin.source(),
            origin.subtype(),
            origin.native_id(),
        )
    }

    /// Computes the key of an occurrence from its hard boundaries and
    /// source-local identity.
    pub(crate) fn from_parts(
        partition: &str,
        kind_tag: &str,
        kind_custom: Option<&str>,
        source: &str,
        subtype: Option<&str>,
        native_id: &str,
    ) -> (k: OccurrenceKey)
        ensures
            k@ == blake3_derive_key(
                occurrence_context(),
                occurrence_material(
                    partition@,
                    kind_tag@,
                    opt_view(kind_custom),
                    source@,
                    opt_view(subtype),
                    native_id@,
                ),
            ),
    {
        let mut material: Vec<u8> = Vec::new();
        push_present(&mut material, "partition", partition);
        push_kind(&mut material, kind_tag, kind_custom);
        push_present(&mut material, "source", source);
        push_optional(&mut material, "subtype", subtype);
        push_present(&mut material, "native_id", native_id);
        assert(material@ =~= occurrence_material(
            partition@,
            kind_tag@,
            opt_view(kind_custom),
            source@,
            opt_view(subtype),
            native_id@,
        ));
        OccurrenceKey { bytes: derive_key("custos-dedup/occurrence/v1", material.as_slice()) }
    }

    /// Returns the raw 256-bit digest.
    pub fn as_bytes(&self) -> (r: &[u8; 32])
        ensures
            r@ == self@,
    {
        &self.bytes
    }

    /// Renders the key as `occ:v1:` followed by 64 lowercase hexadecimal digits.
    pub fn to_string(&self) -> (s: String)
        ensures
            s@ == "occ:v1:"@ + hex_lower(self@),
    {
        let mut s = String::from_str("occ:v1:");
        push_hex(&mut s, &self.bytes);
        s
    }

    /// Parses the rendering of [`Self::to_string`]; hexadecimal digits of
    /// either case are accepted.
    pub fn parse(value: &str) -> (r: Result<OccurrenceKey, KeyParseError>)
        ensures
            match r {
                Ok(k) => well_formed_key_text(value@, "occ:v1:"@) && k@ == decode_hex(
                    value@.subrange(7, value@.len() as int),
                ),
                Err(KeyParseError::Prefix { expected }) => expected@ == "occ:v1:"@
                    && !crate::text::has_prefix(value@, "occ:v1:"@),
                Err(KeyParseError::Digest) => crate::text::has_prefix(value@, "occ:v1:"@)
                    && !well_formed_key_text(value@, "occ:v1:"@),
            },
    {
        proof {
            reveal_strlit("occ:v1:");
        }
        match parse_key(value, "occ:v1:") {
            Ok(bytes) => Ok(OccurrenceKey { bytes }),
            Err(e) => Err(e),
        }
    }

    /// Keys with equal bytes are equal.
    pub proof fn lemma_view_injective(self, other: OccurrenceKey)
        ensures
            self@ == other@ ==> self == other,
    {
        broadcast use vstd::array::axiom_array_ext_equal;
        if self@ == other@ {
            assert(self.bytes =~= other.bytes);
        }
    }
}

impl core::str::FromStr for OccurrenceKey {
    type Err = KeyParseError;

    fn from_str(value: &str) -> Result<Self, Self::Err> {
        OccurrenceKey::parse(value)
    }
}

/// A versioned BLAKE3 key for exact cross-source correlation.
///
/// A key contains the hard partition, finding kind, one normalized issue alias,
/// and one full normalized subject identifier. A candidate can therefore have
/// several keys when it carries multiple aliases for the same atomic issue.
#[derive(Clone, Copy, Debug, Eq, Hash, Ord, PartialEq, PartialOrd)]
pub struct CorrelationKey {
    bytes: [u8; 32],
}

impl View for CorrelationKey {
    type V = Seq<u8>;

    closed spec fn view(&self) -> Seq<u8> {
        self.bytes@
    }
}

impl CorrelationKey {
    /// Computes the exact key for one issue alias on one full subject identity.
    pub fn for_issue_subject(partition: &str, kind: &FindingKind, issue: &IssueId, subject: &SubjectId) -> (k:
        CorrelationKey)
        ensures
            k@ == correlation_key_of(partition@, kind@, issue@, Some(subject@)),
    {
        CorrelationKey::from_parts(
            partition,
            kind.key_tag(),
            kind.custom_key(),
            issue.as_str(),
            Some(subject.full_identity()),
        )
    }

    /// Computes the exact key for one issue alias without a subject.
    pub fn for_issue_only(partition: &str, kind: &FindingKind, issue: &IssueId) -> (k: CorrelationKey)
        ensures
            k@ == correlation_key_of(partition@, kind@, issue@, None),
    {
        CorrelationKey::from_parts(partition, kind.key_tag(), kind.custom_key(), issue.as_str(), None)
    }

    /// Computes the key for one issue alias and, when present, one full
    /// subject identity.
    pub(crate) fn from_parts(
        partition: &str,
        kind_tag: &str,
        kind_custom: Option<&str>,
        issue: &str,
        subject: Option<&str>,
    ) -> (k: CorrelationKey)
        ensures
            k@ == blake3_derive_key(
                correlation_context(),
                correlation_material(partition@, kind_tag@, opt_view(kind_custom), issue@, opt_view(subject)),
            ),
    {
        let mut material: Vec<u8> = Vec::new();
        push_present(&mut material, "partition", partition);
        push_kind(&mut material, kind_tag, kind_custom);
        push_present(&mut material, "issue", issue);
        push_optional(&mut material, "subject", subject);
        assert(material@ =~= correlation_material(
            partition@,
            kind_tag@,
            opt_view(kind_custom),
            issue@,
            opt_view(subject),
        ));
        CorrelationKey { bytes: derive_key("custos-dedup/correlation/v1", material.as_slice()) }
    }

    /// Returns the raw 256-bit digest.
    pub fn as_bytes(&self) -> (r: &[u8; 32])
        ensures
            r@ == self@,
    {
        &self.bytes
    }

    /// Renders the key as `corr:v1:` followed by 64 lowercase hexadecimal digits.
    pub fn to_string(&self) -> (s: String)
        ensures
            s@ == "corr:v1:"@ + hex_lower(self@),
    {
        let mut s = String::from_str("corr:v1:");
        push_hex(&mut s, &self.bytes);
        s
    }

    /// Parses the rendering of [`Self::to_string`]; hexadecimal digits of
    /// either case are accepted.
    pub fn parse(value: &str) -> (r: Result<CorrelationKey, KeyParseError>)
        ensures
            match r {
                Ok(k) => well_formed_key_text(value@, "corr:v1:"@) && k@ == decode_hex(
                    value@.subrange(8, value@.len() as int),
                ),
                Err(KeyParseError::Prefix { expected }) => expected@ == "corr:v1:"@
                    && !crate::text::has_prefix(value@, "corr:v1:"@),
                Err(KeyParseError::Digest) => crate::text::has_prefix(value@, "corr:v1:"@)
                    && !well_formed_key_text(value@, "corr:v1:"@),
            },
    {
        proof {
            reveal_strlit("corr:v1:");
        }
        match parse_key(value, "corr:v1:") {
            Ok(bytes) => Ok(CorrelationKey { bytes }),
            Err(e) => Err(e),
        }
    }

    /// Keys with equal bytes are equal.
    pub proof fn lemma_view_injective(self, other: CorrelationKey)
        ensures
            self@ == other@ ==> self == other,
    {
        broadcast use vstd::array::axiom_array_ext_equal;
        if self@ == other@ {
            assert(self.bytes =~= other.bytes);
        }
    }
}

impl core::str::FromStr for CorrelationKey {
    type Err = KeyParseError;

    fn from_str(value: &str) -> Result<Self, Self::Err> {
        CorrelationKey::parse(value)
    }
}

/// An invalid serialized occurrence or correlation key.
#[derive(Debug, Eq, PartialEq)]
#[non_exhaustive]
pub enum KeyParseError {
    /// The versioned type prefix did not match the target key type.
    Prefix {
        /// The required prefix.
        expected: &'static str,
    },
    /// The digest was not exactly 64 hexadecimal characters.
    Digest,
}

// ---------------------------------------------------------------------------
// Byte order of keys.
// ---------------------------------------------------------------------------

/// Lexicographic comparison of byte strings: negative, zero, or positive.
pub open spec fn byte_sign(a: Seq<u8>, b: Seq<u8>) -> int
    decreases a.len(),
{
    if a.len() == 0 {
        if b.len() == 0 { 0 } else { -1 }
    } else if b.len() == 0 {
        1
    } else if a[0] < b[0] {
        -1
    } else if a[0] > b[0] {
        1
    } else {
        byte_sign(a.drop_first(), b.drop_first())
    }
}

/// Comparison is antisymmetric and is zero exactly on equal byte strings.
pub proof fn lemma_byte_antisym(a: Seq<u8>, b: Seq<u8>)
    ensures
        byte_sign(a, b) == -byte_sign(b, a),
        -1 <= byte_sign(a, b) <= 1,
        byte_sign(a, b) == 0 <==> a == b,
    decreases a.len(),
{
    if a.len() > 0 && b.len() > 0 {
        lemma_byte_antisym(a.drop_first(), b.drop_first());
        if a[0] == b[0] && a.drop_first() == b.drop_first() {
            assert(a =~= seq![a[0]] + a.drop_first());
            assert(b =~= seq![b[0]] + b.drop_first());
        }
        if a == b {
            assert(a.drop_first() == b.drop_first());
        }
    } else if a.len() == 0 && b.len() == 0 {
        assert(a =~= b);
    }
}

/// The order is transitive.
pub proof fn lemma_byte_trans(a: Seq<u8>, b: Seq<u8>, c: Seq<u8>)
    requires
        byte_sign(a, b) < 0,
        byte_sign(b, c) < 0,
    ensures
        byte_sign(a, c) < 0,
    decreases a.len(),
{
    if a.len() > 0 && b.len() > 0 && c.len() > 0 {
        if a[0] == b[0] && b[0] == c[0] {
            lemma_byte_trans(a.drop_first(), b.drop_first(), c.drop_first());
        }
    }
}

/// Compares two 32-byte digests lexicographically.
pub fn compare_digests(a: &[u8; 32], b: &[u8; 32]) -> (r: i8)
    ensures
        r as int == byte_sign(a@, b@),
{
    let mut i: usize = 0;
    assert(a@.subrange(0, 32) =~= a@);
    assert(b@.subrange(0, 32) =~= b@);
    while i < 32
        invariant
            i <= 32,
            a@.len() == 32,
            b@.len() == 32,
            byte_sign(a@, b@) == byte_sign(a@.subrange(i as int, 32), b@.subrange(i as int, 32)),
        decreases 32 - i,
    {
        let ghost sa = a@.subrange(i as int, 32);
        let ghost sb = b@.subrange(i as int, 32);
        assert(sa[0] == a@[i as int]);
        assert(sb[0] == b@[i as int]);
        if a[i] < b[i] {
            return -1;
        }
        if a[i] > b[i] {
            return 1;
        }
        assert(sa.drop_first() =~= a@.subrange(i + 1, 32));
        assert(sb.drop_first() =~= b@.subrange(i + 1, 32));
        i = i + 1;
    }
    0
}

impl OccurrenceKey {
    /// Compares two keys in their derived order (lexicographic by byte).
    pub fn compare(&self, other: &OccurrenceKey) -> (r: i8)
        ensures
            r as int == byte_sign(self@, other@),
    {
        compare_digests(&self.bytes, &other.bytes)
    }
}

impl CorrelationKey {
    /// Compares two keys in their derived order (lexicographic by byte).
    pub fn compare(&self, other: &CorrelationKey) -> (r: i8)
        ensures
            r as int == byte_sign(self@, other@),
    {
        compare_digests(&self.bytes, &other.bytes)
    }
}

/// Rendering a key and parsing the text gives back the same key.
pub proof fn lemma_hex_round_trip(bytes: Seq<u8>)
    ensures
        hex_lower(bytes).len() == 2 * bytes.len(),
        all_hex(hex_lower(bytes)),
        decode_hex(hex_lower(bytes)) == bytes,
    decreases bytes.len(),
{
    if bytes.len() > 0 {
        let init = bytes.drop_last();
        lemma_hex_round_trip(init);
        let h = hex_lower(bytes);
        let b = bytes.last();
        assert(h == hex_lower(init) + seq![hex_digit(b / 16), hex_digit(b % 16)]);
        assert forall|i: int| 0 <= i < h.len() implies (#[trigger] hex_value(h[i])) is Some by {
            if i >= hex_lower(init).len() {
                assert(h[i] == hex_digit(b / 16) || h[i] == hex_digit(b % 16));
            } else {
                assert(h[i] == hex_lower(init)[i]);
            }
        }
        assert(hex_value(hex_digit(b / 16)) == Some(b / 16));
        assert(hex_value(hex_digit(b % 16)) == Some(b % 16));
        assert forall|i: int| 0 <= i < bytes.len() implies #[trigger] decode_hex(h)[i] == bytes[i] by {
            if i < init.len() {
                assert(h[2 * i] == hex_lower(init)[2 * i]);
                assert(h[2 * i + 1] == hex_lower(init)[2 * i + 1]);
                assert(decode_hex(hex_lower(init))[i] == init[i]);
            } else {
                assert(h[2 * i] == hex_digit(b / 16));
                assert(h[2 * i + 1] == hex_digit(b % 16));
            }
        }
        assert(decode_hex(h) =~= bytes);
    } else {
        assert(decode_hex(hex_lower(bytes)) =~= bytes);
    }
}

/// Parsing the rendering of an occurrence key yields that key.
pub proof fn lemma_occurrence_key_text_round_trip(key: OccurrenceKey)
    ensures
        well_formed_key_text("occ:v1:"@ + hex_lower(key@), "occ:v1:"@),
        decode_hex(("occ:v1:"@ + hex_lower(key@)).subrange(7, 71)) == key@,
{
    reveal_strlit("occ:v1:");
    key.bytes@.len();
    assert(key@.len() == 32);
    lemma_hex_round_trip(key@);
    let t = "occ:v1:"@ + hex_lower(key@);
    assert(t.subrange(0, 7) =~= "occ:v1:"@);
    assert(t.subrange(7, t.len() as int) =~= hex_lower(key@));
}

/// Parsing the rendering of a correlation key yields that key.
pub proof fn lemma_correlation_key_text_round_trip(key: CorrelationKey)
    ensures
        well_formed_key_text("corr:v1:"@ + hex_lower(key@), "corr:v1:"@),
        decode_hex(("corr:v1:"@ + hex_lower(key@)).subrange(8, 72)) == key@,
{
    reveal_strlit("corr:v1:");
    assert(key@.len() == 32);
    lemma_hex_round_trip(key@);
    let t = "corr:v1:"@ + hex_lower(key@);
    assert(t.subrange(0, 8) =~= "corr:v1:"@);
    assert(t.subrange(8, t.len() as int) =~= hex_lower(key@));
}

// ---------------------------------------------------------------------------
// Sorted key sets.
// ---------------------------------------------------------------------------

/// The byte views of correlation keys.
pub open spec fn key_views(v: Seq<CorrelationKey>) -> Seq<Seq<u8>> {
    Seq::new(v.len(), |i: int| v[i]@)
}

/// Whether byte strings are strictly increasing, hence free of duplicates.
pub open spec fn keys_sorted(v: Seq<Seq<u8>>) -> bool {
    forall|i: int, j: int| 0 <= i < j < v.len() ==> byte_sign(#[trigger] v[i], #[trigger] v[j]) < 0
}

proof fn lemma_key_sorted_insert(v: Seq<Seq<u8>>, j: int, item: Seq<u8>)
    requires
        keys_sorted(v),
        0 <= j <= v.len(),
        forall|k: int| 0 <= k < j ==> byte_sign(#[trigger] v[k], item) < 0,
        j < v.len() ==> byte_sign(item, v[j]) < 0,
    ensures
        keys_sorted(v.insert(j, item)),
        v.insert(j, item).to_set() == v.to_set().insert(item),
{
    let nv = v.insert(j, item);
    assert forall|a: int, b: int| 0 <= a < b < nv.len() implies byte_sign(#[trigger] nv[a], #[trigger] nv[b]) < 0 by {
        if a < j && b == j {
        } else if a == j && b > j {
            if b - 1 > j {
                lemma_byte_trans(item, v[j], v[b - 1]);
            }
        } else if a < j && b > j {
            assert(byte_sign(v[a], v[b - 1]) < 0);
        } else if a > j {
            assert(nv[a] == v[a - 1]);
        }
    }
    assert forall|x: Seq<u8>| #[trigger] nv.to_set().contains(x) == v.to_set().insert(item).contains(x) by {
        if x == item {
            assert(nv[j] == x);
        } else if v.contains(x) {
            let k = choose|k: int| 0 <= k < v.len() && v[k] == x;
            if k < j {
                assert(nv[k] == x);
            } else {
                assert(nv[k + 1] == x);
            }
        } else if nv.contains(x) {
            let k = choose|k: int| 0 <= k < nv.len() && nv[k] == x;
            if k < j {
                assert(v[k] == x);
            } else if k > j {
                assert(v[k - 1] == x);
            }
        }
    }
    assert(nv.to_set() =~= v.to_set().insert(item));
}

/// Adds a key to a strictly sorted vector unless it is already there.
pub fn insert_key_unique(v: &mut Vec<CorrelationKey>, item: CorrelationKey)
    requires
        keys_sorted(key_views(old(v)@)),
    ensures
        keys_sorted(key_views(final(v)@)),
        key_views(final(v)@).to_set() == key_views(old(v)@).to_set().insert(item@),
{
    let ghost old_v = key_views(v@);
    let mut j: usize = 0;
    let mut sign: i8 = 1;
    while j < v.len() && sign > 0
        invariant
            j <= v.len(),
            key_views(v@) == old_v,
            keys_sorted(old_v),
            forall|k: int| 0 <= k < j ==> byte_sign(#[trigger] old_v[k], item@) < 0,
            sign <= 0 ==> j < v.len() && sign as int == byte_sign(item@, old_v[j as int]),
        decreases v.len() - j + (if sign > 0 { 1int } else { 0int }),
    {
        let c = item.compare(&v[j]);
        assert(old_v[j as int] == v@[j as int]@);
        if c > 0 {
            proof {
                lemma_byte_antisym(item@, old_v[j as int]);
            }
            j = j + 1;
        } else {
            sign = c;
        }
    }
    if sign == 0 {
        proof {
            lemma_byte_antisym(item@, old_v[j as int]);
            assert(old_v.to_set().contains(item@)) by {
                assert(old_v[j as int] == item@);
            }
            assert(old_v.to_set().insert(item@) =~= old_v.to_set());
        }
        return;
    }
    let ghost iv = item@;
    v.insert(j, item);
    proof {
        assert(key_views(v@) =~= old_v.insert(j as int, iv));
        lemma_key_sorted_insert(old_v, j as int, iv);
    }
}

} // verus!
