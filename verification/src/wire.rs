//! The payload of the settings messages: fields that each end in a zero
//! byte, carried in an `SbpString` of the multipart encoding.
use vstd::prelude::*;
use vstd::utf8::*;
use sbp::sbp_string::Multipart;
use sbp::SbpString;
use crate::text::{bytes_text, text_of_bytes, str_eq};

verus! {

broadcast use {encode_utf8_decode_utf8, encode_utf8_valid_utf8};

#[verifier::external_type_specification]
#[verifier::external_body]
pub struct ExMultipart(Multipart);

#[verifier::external_type_specification]
#[verifier::external_body]
#[verifier::reject_recursive_types(T)]
#[verifier::reject_recursive_types(E)]
pub struct ExSbpString<T, E>(SbpString<T, E>);

/// The bytes an `SbpString` holds.
pub uninterp spec fn multipart_bytes(s: SbpString<Vec<u8>, Multipart>) -> Seq<u8>;

/// Calls `SbpString::to_vec`; believed: it gives the bytes the string holds.
#[verifier::external_body]
fn payload_bytes(s: &SbpString<Vec<u8>, Multipart>) -> (r: Vec<u8>)
    ensures
        r@ == multipart_bytes(*s),
{
    s.to_vec()
}

/// Calls `SbpString::from` on bytes; believed: the string holds exactly
/// these bytes.
#[verifier::external_body]
fn multipart_from(v: Vec<u8>) -> (r: SbpString<Vec<u8>, Multipart>)
    ensures
        multipart_bytes(r) == v@,
{
    SbpString::from(v)
}

/// The runs of bytes between zero bytes: one more run than there are zeros.
pub open spec fn zero_split(b: Seq<u8>) -> Seq<Seq<u8>>
    decreases b.len(),
{
    if b.len() == 0 {
        seq![Seq::<u8>::empty()]
    } else {
        let s = zero_split(b.drop_last());
        if b.last() == 0u8 {
            s.push(Seq::<u8>::empty())
        } else {
            s.update(s.len() - 1, s.last().push(b.last()))
        }
    }
}

/// The fields of a payload: each run that ends in a zero byte, as text.
/// What follows the last zero byte is no field.
pub open spec fn payload_fields(b: Seq<u8>) -> Seq<Seq<char>> {
    zero_split(b).drop_last().map_values(|p: Seq<u8>| bytes_text(p))
}

proof fn lemma_zero_split_len(b: Seq<u8>)
    ensures
        zero_split(b).len() >= 1,
    decreases b.len(),
{
    if b.len() > 0 {
        lemma_zero_split_len(b.drop_last());
    }
}

proof fn lemma_zero_split_step(b: Seq<u8>, i: int, start: int)
    requires
        0 <= start <= i < b.len(),
        zero_split(b.take(i)).len() >= 1,
        zero_split(b.take(i)).last() == b.subrange(start, i),
    ensures
        b[i] == 0u8 ==> zero_split(b.take(i + 1)) == zero_split(b.take(i)).push(Seq::<u8>::empty()),
        b[i] != 0u8 ==> zero_split(b.take(i + 1)) == zero_split(b.take(i)).update(
            zero_split(b.take(i)).len() - 1,
            b.subrange(start, i + 1),
        ),
{
    assert(b.take(i + 1).drop_last() =~= b.take(i));
    assert(b.subrange(start, i).push(b[i]) =~= b.subrange(start, i + 1));
}

/// Splits a payload into its fields, as the settings client reads them.
pub fn split_multipart(s: &SbpString<Vec<u8>, Multipart>) -> (r: Vec<String>)
    ensures
        r@.map_values(|x: String| x@) == payload_fields(multipart_bytes(*s)),
{
    let b = payload_bytes(s);
    let ghost bs = b@;
    let mut parts: Vec<String> = Vec::new();
    let ghost mut runs: Seq<Seq<u8>> = Seq::empty();
    let mut start: usize = 0;
    let mut i: usize = 0;
    assert(b@.take(0) =~= Seq::<u8>::empty());
    assert(b@.subrange(0, 0) =~= Seq::<u8>::empty());
    while i < b.len()
        invariant
            bs == b@,
            0 <= start <= i <= b@.len(),
            zero_split(b@.take(i as int)) == runs.push(b@.subrange(start as int, i as int)),
            parts@.len() == runs.len(),
            forall|j: int| 0 <= j < runs.len() ==> (#[trigger] parts@[j])@ == bytes_text(runs[j]),
        decreases b@.len() - i,
    {
        proof {
            lemma_zero_split_step(b@, i as int, start as int);
        }
        if b[i] == 0u8 {
            let piece = vstd::slice::slice_subrange(b.as_slice(), start, i);
            let t = text_of_bytes(piece);
            parts.push(t);
            proof {
                runs = runs.push(b@.subrange(start as int, i as int));
                assert(b@.subrange(i + 1, i + 1) =~= Seq::<u8>::empty());
            }
            start = i + 1;
        }
        i = i + 1;
    }
    proof {
        assert(b@.take(b@.len() as int) =~= b@);
        let f = zero_split(b@).drop_last();
        assert(f =~= runs);
        assert(parts@.map_values(|x: String| x@) =~= payload_fields(bs));
    }
    parts
}

fn push_bytes(out: &mut Vec<u8>, b: &[u8])
    ensures
        final(out)@ == old(out)@ + b@,
{
    let mut i: usize = 0;
    while i < b.len()
        invariant
            0 <= i <= b@.len(),
            out@ == old(out)@ + b@.take(i as int),
        decreases b@.len() - i,
    {
        out.push(b[i]);
        i = i + 1;
        assert(out@ =~= old(out)@ + b@.take(i as int));
    }
    assert(b@.take(b@.len() as int) =~= b@);
}

/// The payload of fields written one after the other, each followed by a
/// zero byte.
pub open spec fn fields_payload(fields: Seq<Seq<char>>) -> Seq<u8>
    decreases fields.len(),
{
    if fields.len() == 0 {
        Seq::empty()
    } else {
        fields_payload(fields.drop_last()) + encode_utf8(fields.last()) + seq![0u8]
    }
}

/// The payload of a read request: `group`, then `name`.
pub fn read_request_payload(group: &str, name: &str) -> (r: SbpString<Vec<u8>, Multipart>)
    ensures
        multipart_bytes(r) == fields_payload(seq![group@, name@]),
{
    let mut out: Vec<u8> = Vec::new();
    push_bytes(&mut out, group.as_bytes());
    out.push(0u8);
    push_bytes(&mut out, name.as_bytes());
    out.push(0u8);
    proof {
        let f = seq![group@, name@];
        assert(f.drop_last() =~= seq![group@]);
        assert(seq![group@].drop_last() =~= Seq::<Seq<char>>::empty());
        let p0 = fields_payload(Seq::<Seq<char>>::empty());
        let p1 = fields_payload(seq![group@]);
        assert(p1 == p0 + encode_utf8(group@) + seq![0u8]);
        assert(fields_payload(f) == p1 + encode_utf8(name@) + seq![0u8]);
        assert(out@ =~= fields_payload(f));
    }
    multipart_from(out)
}

/// The payload of a write request: `group`, `name`, then `value`.
pub fn write_request_payload(group: &str, name: &str, value: &str) -> (r: SbpString<
    Vec<u8>,
    Multipart,
>)
    ensures
        multipart_bytes(r) == fields_payload(seq![group@, name@, value@]),
{
    let mut out: Vec<u8> = Vec::new();
    push_bytes(&mut out, group.as_bytes());
    out.push(0u8);
    push_bytes(&mut out, name.as_bytes());
    out.push(0u8);
    push_bytes(&mut out, value.as_bytes());
    out.push(0u8);
    proof {
        let f = seq![group@, name@, value@];
        assert(f.drop_last() =~= seq![group@, name@]);
        assert(seq![group@, name@].drop_last() =~= seq![group@]);
        assert(seq![group@].drop_last() =~= Seq::<Seq<char>>::empty());
        let p0 = fields_payload(Seq::<Seq<char>>::empty());
        let p1 = fields_payload(seq![group@]);
        let p2 = fields_payload(seq![group@, name@]);
        assert(p1 == p0 + encode_utf8(group@) + seq![0u8]);
        assert(p2 == p1 + encode_utf8(name@) + seq![0u8]);
        assert(fields_payload(f) == p2 + encode_utf8(value@) + seq![0u8]);
        assert(out@ =~= fields_payload(f));
    }
    multipart_from(out)
}

/// Text without the character `'\0'`, which ends a field.
pub open spec fn no_nul(s: Seq<char>) -> bool {
    forall|i: int| 0 <= i < s.len() ==> #[trigger] s[i] != '\0'
}

proof fn lemma_encode_no_zero(c: Seq<char>)
    requires
        no_nul(c),
    ensures
        forall|i: int| 0 <= i < encode_utf8(c).len() ==> #[trigger] encode_utf8(c)[i] != 0u8,
    decreases c.len(),
{
    if c.len() > 0 {
        lemma_encode_no_zero(c.drop_first());
        let s = c[0] as u32;
        char_is_scalar(c[0]);
        assert(c[0] != '\0');
        char_u32_cast(c[0], s);
        assert(s != 0) by {
            if s == 0 {
                assert((0u32 as char) == '\0');
            }
        }
        let e = encode_scalar(s);
        assert(s <= 0x7F && s != 0 ==> (s & 0x7F) as u8 != 0u8) by (bit_vector);
        assert(0xC0u8 | (((s >> 6) & 0x1F) as u8) != 0u8) by (bit_vector);
        assert(0xE0u8 | (((s >> 12) & 0x0F) as u8) != 0u8) by (bit_vector);
        assert(0xF0u8 | (((s >> 18) & 0x7) as u8) != 0u8) by (bit_vector);
        assert(0x80u8 | ((s & 0x3F) as u8) != 0u8) by (bit_vector);
        assert(0x80u8 | (((s >> 6) & 0x3F) as u8) != 0u8) by (bit_vector);
        assert(0x80u8 | (((s >> 12) & 0x3F) as u8) != 0u8) by (bit_vector);
        assert(forall|i: int| 0 <= i < e.len() ==> #[trigger] e[i] != 0u8);
        let rest = encode_utf8(c.drop_first());
        assert(encode_utf8(c) == e + rest);
        assert forall|i: int| 0 <= i < encode_utf8(c).len() implies #[trigger] encode_utf8(c)[i]
            != 0u8 by {
            if i >= e.len() {
                assert(encode_utf8(c)[i] == rest[i - e.len()]);
            }
        }
    }
}

proof fn lemma_zero_split_append(p: Seq<u8>, a: Seq<u8>)
    requires
        forall|i: int| 0 <= i < a.len() ==> #[trigger] a[i] != 0u8,
    ensures
        zero_split(p + a) == zero_split(p).update(
            zero_split(p).len() - 1,
            zero_split(p).last() + a,
        ),
    decreases a.len(),
{
    lemma_zero_split_len(p);
    if a.len() == 0 {
        assert(p + a =~= p);
        assert(zero_split(p).last() + a =~= zero_split(p).last());
        assert(zero_split(p).update(zero_split(p).len() - 1, zero_split(p).last()) =~= zero_split(p));
    } else {
        let a2 = a.drop_last();
        lemma_zero_split_append(p, a2);
        assert((p + a).drop_last() =~= p + a2);
        assert((p + a).last() == a.last());
        assert(a.last() == a[a.len() - 1]);
        assert((zero_split(p).last() + a2).push(a.last()) =~= zero_split(p).last() + a);
        let s1 = zero_split(p + a2);
        assert(s1.len() == zero_split(p).len());
        assert(s1.last() == zero_split(p).last() + a2);
        assert(zero_split(p + a) =~= zero_split(p).update(
            zero_split(p).len() - 1,
            zero_split(p).last() + a,
        ));
    }
}

proof fn lemma_fields_payload_split(fields: Seq<Seq<char>>)
    requires
        forall|i: int| 0 <= i < fields.len() ==> no_nul(#[trigger] fields[i]),
    ensures
        zero_split(fields_payload(fields)) == fields.map_values(|f: Seq<char>| encode_utf8(f)).push(
            Seq::<u8>::empty(),
        ),
    decreases fields.len(),
{
    if fields.len() == 0 {
        assert(fields_payload(fields) =~= Seq::<u8>::empty());
        assert(fields.map_values(|f: Seq<char>| encode_utf8(f)).push(Seq::<u8>::empty()) =~= seq![
            Seq::<u8>::empty(),
        ]);
    } else {
        let prev = fields.drop_last();
        assert forall|i: int| 0 <= i < prev.len() implies no_nul(#[trigger] prev[i]) by {
            assert(prev[i] == fields[i]);
        }
        lemma_fields_payload_split(prev);
        let pp = fields_payload(prev);
        let e = encode_utf8(fields.last());
        assert(no_nul(fields[fields.len() - 1]));
        lemma_encode_no_zero(fields.last());
        lemma_zero_split_append(pp, e);
        let whole = fields_payload(fields);
        assert(whole == pp + e + seq![0u8]);
        assert(whole.drop_last() =~= pp + e);
        assert(whole.last() == 0u8);
        assert(zero_split(pp).last() =~= Seq::<u8>::empty());
        assert(Seq::<u8>::empty() + e =~= e);
        assert(zero_split(whole) =~= fields.map_values(|f: Seq<char>| encode_utf8(f)).push(
            Seq::<u8>::empty(),
        ));
    }
}

/// Fields written into a payload are read back as they were, as long as
/// none holds the character that ends a field.
pub proof fn law_payload_roundtrip(fields: Seq<Seq<char>>)
    requires
        forall|i: int| 0 <= i < fields.len() ==> no_nul(#[trigger] fields[i]),
    ensures
        payload_fields(fields_payload(fields)) == fields,
{
    lemma_fields_payload_split(fields);
    let enc = fields.map_values(|f: Seq<char>| encode_utf8(f));
    assert(zero_split(fields_payload(fields)).drop_last() =~= enc);
    assert forall|i: int| 0 <= i < fields.len() implies #[trigger] payload_fields(
        fields_payload(fields),
    )[i] == fields[i] by {
        assert(bytes_text(enc[i]) == decode_utf8(encode_utf8(fields[i])));
    }
    assert(payload_fields(fields_payload(fields)) =~= fields);
}

/// A reply answers the request for `group` and `name` when its first two
/// fields are these.
pub open spec fn answers(fields: Seq<Seq<char>>, group: Seq<char>, name: Seq<char>) -> bool {
    fields.len() >= 2 && fields[0] == group && fields[1] == name
}

/// Tells whether a reply's payload answers the request for `group` and
/// `name`.
pub fn request_matches(group: &str, name: &str, setting: &SbpString<Vec<u8>, Multipart>) -> (r:
    bool)
    ensures
        r == answers(payload_fields(multipart_bytes(*setting)), group@, name@),
{
    let fields = split_multipart(setting);
    let ghost fv = fields@.map_values(|x: String| x@);
    if fields.len() < 2 {
        return false;
    }
    assert(fv[0] == fields@[0]@ && fv[1] == fields@[1]@);
    str_eq(fields[0].as_str(), group) && str_eq(fields[1].as_str(), name)
}

} // verus!
