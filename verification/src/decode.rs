//! The decoder: from an untrusted byte buffer to a structured document.
//!
//! Every reader validates before it consumes; no read panics or indexes out
//! of bounds. The grammar is stated once, as spec functions over the byte
//! sequence, and each executable parser is proved to return exactly what the
//! grammar says, errors included.

use vstd::bytes::*;
use vstd::prelude::*;
use vstd::slice::*;
use vstd::utf8::*;

use crate::doc::{
    doc_from_pairs, doc_model_insert, doc_model_remove, doc_model_values, doc_to_array,
    seq_value_model, spec_is_array, BinarySubtype, DecodeError, DocModel, Document, Value,
    ValueModel,
};

verus! {

/// Documents may nest at most this deep; further nesting fails with
/// `MaxDepthExceeded` instead of exhausting the stack on adversarial input.
pub const MAX_DEPTH: u32 = 100;

/// A 32-bit little-endian read, reinterpreted as signed two's complement.
pub open spec fn spec_i32_le(b: Seq<u8>) -> i32
    recommends
        b.len() == 4,
{
    let u = spec_u32_from_le_bytes(b);
    if u <= 0x7fff_ffff {
        u as i32
    } else {
        (u as int - 0x1_0000_0000) as i32
    }
}

/// A 64-bit little-endian read, reinterpreted as signed two's complement.
pub open spec fn spec_i64_le(b: Seq<u8>) -> i64
    recommends
        b.len() == 8,
{
    let u = spec_u64_from_le_bytes(b);
    if u <= 0x7fff_ffff_ffff_ffff {
        u as i64
    } else {
        (u as int - 0x1_0000_0000_0000_0000) as i64
    }
}

/// Read a little-endian i32 from the front of a 4-byte slice.
fn i32_from_le(s: &[u8]) -> (x: i32)
    requires
        s@.len() == 4,
    ensures
        x == spec_i32_le(s@),
{
    let u = u32_from_le_bytes(s);
    if u <= 0x7fff_ffff {
        u as i32
    } else {
        let t = 0xffff_ffffu32 - u;
        -(t as i32) - 1
    }
}

/// Read a little-endian i64 from the front of an 8-byte slice.
fn i64_from_le(s: &[u8]) -> (x: i64)
    requires
        s@.len() == 8,
    ensures
        x == spec_i64_le(s@),
{
    let u = u64_from_le_bytes(s);
    if u <= 0x7fff_ffff_ffff_ffff {
        u as i64
    } else {
        let t = 0xffff_ffff_ffff_ffffu64 - u;
        -(t as i64) - 1
    }
}

/// Position of the first NUL byte, if any.
pub open spec fn find_nul(b: Seq<u8>) -> Option<int>
    decreases b.len(),
{
    if b.len() == 0 {
        None
    } else if b[0] == 0 {
        Some(0)
    } else {
        match find_nul(b.drop_first()) {
            None => None,
            Some(k) => Some(k + 1),
        }
    }
}

/// `find_nul` returns the position of the first NUL, and `None` exactly when
/// there is none.
pub proof fn lemma_find_nul(b: Seq<u8>)
    ensures
        match find_nul(b) {
            Some(k) => 0 <= k < b.len() && b[k] == 0 && forall|j: int| 0 <= j < k ==> b[j] != 0,
            None => forall|j: int| 0 <= j < b.len() ==> b[j] != 0,
        },
    decreases b.len(),
{
    if b.len() > 0 && b[0] != 0 {
        lemma_find_nul(b.drop_first());
        assert forall|j: int| 0 <= j < b.len() && find_nul(b) is None implies b[j] != 0 by {
            if j > 0 {
                assert(b.drop_first()[j - 1] != 0);
            }
        }
        match find_nul(b.drop_first()) {
            Some(k) => {
                assert forall|j: int| 0 <= j < k + 1 implies b[j] != 0 by {
                    if j > 0 {
                        assert(b.drop_first()[j - 1] != 0);
                    }
                }
            },
            None => {},
        }
    }
}

/// Grammar of a cstring: the bytes up to the first NUL, which must be valid
/// UTF-8; the NUL is consumed but not part of the text.
pub open spec fn spec_parse_cstring(b: Seq<u8>) -> Result<(Seq<char>, int), DecodeError> {
    match find_nul(b) {
        None => Err(DecodeError::UnterminatedString),
        Some(k) => if valid_utf8(b.take(k)) {
            Ok((decode_utf8(b.take(k)), k + 1))
        } else {
            Err(DecodeError::InvalidUtf8)
        },
    }
}

/// Relies on std's `String::from_utf8`: it returns `Ok` exactly on valid
/// UTF-8 input, and the string it returns holds the decoding of those bytes.
#[verifier::external_body]
fn string_from_utf8(bytes: Vec<u8>) -> (r: Option<String>)
    ensures
        r is Some <==> valid_utf8(bytes@),
        r matches Some(s) ==> s@ == decode_utf8(bytes@),
{
    String::from_utf8(bytes).ok()
}

/// Read one cstring off the front of `input`; on success also return the
/// input that follows it.
pub fn parse_cstring<'a>(input: &'a [u8]) -> (r: Result<(String, &'a [u8]), DecodeError>)
    ensures
        r matches Ok((s, rest)) ==> {
            &&& spec_parse_cstring(input@) matches Ok(p)
            &&& p.0 == s@
            &&& rest@ == input@.skip(p.1)
        },
        r matches Err(e) ==> spec_parse_cstring(input@) == Err::<(Seq<char>, int), DecodeError>(e),
{
    let n = input.len();
    let mut i: usize = 0;
    while i < n && *slice_index_get(input, i) != 0
        invariant
            i <= n,
            n == input@.len(),
            forall|j: int| 0 <= j < i ==> input@[j] != 0,
        decreases n - i,
    {
        i += 1;
    }
    proof {
        lemma_find_nul(input@);
    }
    if i == n {
        return Err(DecodeError::UnterminatedString);
    }
    let text = slice_subrange(input, 0, i);
    let bytes = slice_to_vec(text);
    proof {
        assert(bytes@ =~= input@.take(i as int));
        assert(find_nul(input@) == Some(i as int));
    }
    match string_from_utf8(bytes) {
        Some(s) => {
            let rest = slice_subrange(input, i + 1, n);
            proof {
                assert(rest@ =~= input@.skip(i + 1));
            }
            Ok((s, rest))
        },
        None => Err(DecodeError::InvalidUtf8),
    }
}

/// Grammar of a length-prefixed string: a 32-bit length that counts the
/// payload plus its final 0x00 byte, then that many bytes, UTF-8 decoded with
/// the terminator excluded. Interior NUL bytes are allowed here.
pub open spec fn spec_parse_string(b: Seq<u8>) -> Result<(Seq<char>, int), DecodeError> {
    if b.len() < 4 {
        Err(DecodeError::UnexpectedEof)
    } else {
        let l = spec_i32_le(b.take(4)) as int;
        if l < 1 {
            Err(DecodeError::InvalidLength)
        } else if b.len() - 4 < l {
            Err(DecodeError::UnexpectedEof)
        } else if b[4 + l - 1] != 0 {
            Err(DecodeError::UnterminatedString)
        } else {
            let payload = b.subrange(4, 4 + l - 1);
            if valid_utf8(payload) {
                Ok((decode_utf8(payload), 4 + l))
            } else {
                Err(DecodeError::InvalidUtf8)
            }
        }
    }
}

/// Read one length-prefixed string off the front of `input`.
pub fn parse_string<'a>(input: &'a [u8]) -> (r: Result<(String, &'a [u8]), DecodeError>)
    ensures
        r matches Ok((s, rest)) ==> {
            &&& spec_parse_string(input@) matches Ok(p)
            &&& p.0 == s@
            &&& rest@ == input@.skip(p.1)
        },
        r matches Err(e) ==> spec_parse_string(input@) == Err::<(Seq<char>, int), DecodeError>(e),
{
    let n = input.len();
    if n < 4 {
        return Err(DecodeError::UnexpectedEof);
    }
    let header = slice_subrange(input, 0, 4);
    proof {
        assert(header@ =~= input@.take(4));
    }
    let l = i32_from_le(header);
    if l < 1 {
        return Err(DecodeError::InvalidLength);
    }
    let lu = l as usize;
    if n - 4 < lu {
        return Err(DecodeError::UnexpectedEof);
    }
    if *slice_index_get(input, 4 + lu - 1) != 0 {
        return Err(DecodeError::UnterminatedString);
    }
    let payload = slice_subrange(input, 4, 4 + lu - 1);
    proof {
        assert(payload@ =~= input@.subrange(4, 4 + l - 1));
    }
    let bytes = slice_to_vec(payload);
    match string_from_utf8(bytes) {
        Some(s) => {
            let rest = slice_subrange(input, 4 + lu, n);
            proof {
                assert(rest@ =~= input@.skip(4 + l));
            }
            Ok((s, rest))
        },
        None => Err(DecodeError::InvalidUtf8),
    }
}

/// The binary subtypes this format recognizes; any other byte is rejected.
pub open spec fn spec_subtype(x: u8) -> Option<BinarySubtype> {
    if x == 0x00 {
        Some(BinarySubtype::Generic)
    } else if x == 0x01 {
        Some(BinarySubtype::Function)
    } else if x == 0x02 {
        Some(BinarySubtype::BinaryOld)
    } else if x == 0x03 {
        Some(BinarySubtype::UuidOld)
    } else if x == 0x04 {
        Some(BinarySubtype::Uuid)
    } else if x == 0x05 {
        Some(BinarySubtype::Md5)
    } else if x == 0x80 {
        Some(BinarySubtype::UserDefined)
    } else {
        None
    }
}

/// Map a subtype byte to its tag.
fn subtype_of(x: u8) -> (r: Option<BinarySubtype>)
    ensures
        r == spec_subtype(x),
{
    if x == 0x00 {
        Some(BinarySubtype::Generic)
    } else if x == 0x01 {
        Some(BinarySubtype::Function)
    } else if x == 0x02 {
        Some(BinarySubtype::BinaryOld)
    } else if x == 0x03 {
        Some(BinarySubtype::UuidOld)
    } else if x == 0x04 {
        Some(BinarySubtype::Uuid)
    } else if x == 0x05 {
        Some(BinarySubtype::Md5)
    } else if x == 0x80 {
        Some(BinarySubtype::UserDefined)
    } else {
        None
    }
}

/// Grammar of a binary value: a 32-bit length of the payload alone, one
/// subtype byte, then the payload.
pub open spec fn spec_parse_binary(b: Seq<u8>) -> Result<(ValueModel, int), DecodeError> {
    if b.len() < 4 {
        Err(DecodeError::UnexpectedEof)
    } else {
        let l = spec_i32_le(b.take(4)) as int;
        if l < 0 {
            Err(DecodeError::InvalidLength)
        } else if b.len() - 4 < l + 1 {
            Err(DecodeError::UnexpectedEof)
        } else {
            let st = b[4];
            match spec_subtype(st) {
                None => Err(DecodeError::InvalidBinarySubtype(st)),
                Some(t) => Ok((ValueModel::Binary(t, b.subrange(5, 5 + l)), 5 + l)),
            }
        }
    }
}

/// Read one binary value off the front of `input`.
pub fn parse_binary<'a>(input: &'a [u8]) -> (r: Result<(Value, &'a [u8]), DecodeError>)
    ensures
        r matches Ok((v, rest)) ==> {
            &&& spec_parse_binary(input@) matches Ok(p)
            &&& p.0 == v@
            &&& rest@ == input@.skip(p.1)
        },
        r matches Err(e) ==> spec_parse_binary(input@) == Err::<(ValueModel, int), DecodeError>(e),
{
    let n = input.len();
    if n < 4 {
        return Err(DecodeError::UnexpectedEof);
    }
    let header = slice_subrange(input, 0, 4);
    proof {
        assert(header@ =~= input@.take(4));
    }
    let l = i32_from_le(header);
    if l < 0 {
        return Err(DecodeError::InvalidLength);
    }
    let lu = l as usize;
    if n - 4 < lu + 1 {
        return Err(DecodeError::UnexpectedEof);
    }
    let st = *slice_index_get(input, 4);
    match subtype_of(st) {
        None => Err(DecodeError::InvalidBinarySubtype(st)),
        Some(t) => {
            let payload = slice_subrange(input, 5, 5 + lu);
            let bytes = slice_to_vec(payload);
            let rest = slice_subrange(input, 5 + lu, n);
            proof {
                assert(bytes@ =~= input@.subrange(5, 5 + l));
                assert(rest@ =~= input@.skip(5 + l));
            }
            Ok((Value::Binary(t, bytes), rest))
        },
    }
}

/// Grammar of an object id: exactly 12 raw bytes.
pub open spec fn spec_parse_objectid(b: Seq<u8>) -> Result<(ValueModel, int), DecodeError> {
    if b.len() < 12 {
        Err(DecodeError::UnexpectedEof)
    } else {
        Ok((ValueModel::ObjectId(b.take(12)), 12))
    }
}

/// Read one object id off the front of `input`.
fn parse_objectid<'a>(input: &'a [u8]) -> (r: Result<(Value, &'a [u8]), DecodeError>)
    ensures
        r matches Ok((v, rest)) ==> {
            &&& spec_parse_objectid(input@) matches Ok(p)
            &&& p.0 == v@
            &&& rest@ == input@.skip(p.1)
        },
        r matches Err(e) ==> spec_parse_objectid(input@) == Err::<
            (ValueModel, int),
            DecodeError,
        >(e),
{
    let n = input.len();
    if n < 12 {
        return Err(DecodeError::UnexpectedEof);
    }
    let bytes = slice_to_vec(slice_subrange(input, 0, 12));
    let rest = slice_subrange(input, 12, n);
    proof {
        assert(bytes@ =~= input@.take(12));
        assert(rest@ =~= input@.skip(12));
    }
    Ok((Value::ObjectId(bytes), rest))
}

/// Milliseconds since the epoch, split into whole seconds (floored toward
/// minus infinity) and sub-second nanoseconds in [0, 999_999_999].
pub open spec fn spec_datetime_parts(ms: i64) -> (i64, u32) {
    (((ms as int) / 1000) as i64, (((ms as int) % 1000) * 1_000_000) as u32)
}

/// Split a millisecond count into floored seconds and nanoseconds.
fn ms_to_datetime(ms: i64) -> (r: (i64, u32))
    ensures
        r == spec_datetime_parts(ms),
{
    if ms >= 0 {
        let mu = ms as u64;
        let q = mu / 1000;
        let r0 = mu % 1000;
        proof {
            vstd::arithmetic::div_mod::lemma_fundamental_div_mod_converse(
                ms as int,
                1000,
                q as int,
                r0 as int,
            );
        }
        (q as i64, (r0 as u32) * 1_000_000)
    } else {
        let m = ((-(ms + 1)) as u64) + 1;
        let q = m / 1000;
        let r0 = m % 1000;
        if r0 == 0 {
            proof {
                vstd::arithmetic::div_mod::lemma_fundamental_div_mod_converse(
                    ms as int,
                    1000,
                    -(q as int),
                    0,
                );
            }
            (-(q as i64), 0)
        } else {
            proof {
                vstd::arithmetic::div_mod::lemma_fundamental_div_mod_converse(
                    ms as int,
                    1000,
                    -(q as int) - 1,
                    1000 - r0 as int,
                );
            }
            (-(q as i64) - 1, ((1000 - r0) as u32) * 1_000_000)
        }
    }
}

/// Grammar of one payload, by tag. `b` holds the bytes after the element's
/// key; an unlisted tag fails with `UnknownTypeTag`.
pub open spec fn spec_parse_payload(tag: u8, b: Seq<u8>, depth: nat) -> Result<
    (ValueModel, int),
    DecodeError,
>
    decreases b.len(), 3int,
{
    if tag == 0x01 {
        if b.len() < 8 {
            Err(DecodeError::UnexpectedEof)
        } else {
            Ok((ValueModel::Double(spec_u64_from_le_bytes(b.take(8))), 8))
        }
    } else if tag == 0x02 {
        match spec_parse_string(b) {
            Err(e) => Err(e),
            Ok((s, n)) => Ok((ValueModel::Str(s), n)),
        }
    } else if tag == 0x03 {
        match spec_parse_doc(b, depth) {
            Err(e) => Err(e),
            Ok((d, n)) => Ok((ValueModel::Doc(d), n)),
        }
    } else if tag == 0x04 {
        match spec_parse_doc(b, depth) {
            Err(e) => Err(e),
            Ok((d, n)) => if spec_is_array(d) {
                Ok((ValueModel::Array(doc_model_values(d)), n))
            } else {
                Err(DecodeError::NotAnArray)
            },
        }
    } else if tag == 0x05 {
        spec_parse_binary(b)
    } else if tag == 0x07 {
        spec_parse_objectid(b)
    } else if tag == 0x08 {
        if b.len() < 1 {
            Err(DecodeError::UnexpectedEof)
        } else if b[0] == 0 {
            Ok((ValueModel::Boolean(false), 1))
        } else if b[0] == 1 {
            Ok((ValueModel::Boolean(true), 1))
        } else {
            Err(DecodeError::InvalidBoolean(b[0]))
        }
    } else if tag == 0x09 {
        if b.len() < 8 {
            Err(DecodeError::UnexpectedEof)
        } else {
            let p = spec_datetime_parts(spec_i64_le(b.take(8)));
            Ok((ValueModel::UtcDateTime { seconds: p.0, nanos: p.1 }, 8))
        }
    } else if tag == 0x0A {
        Ok((ValueModel::Null, 0))
    } else if tag == 0x0B {
        match spec_parse_cstring(b) {
            Err(e) => Err(e),
            Ok((pat, pn)) => match spec_parse_cstring(b.skip(pn)) {
                Err(e) => Err(e),
                Ok((fl, fln)) => Ok((ValueModel::Regex { pattern: pat, flags: fl }, pn + fln)),
            },
        }
    } else if tag == 0x0D {
        match spec_parse_string(b) {
            Err(e) => Err(e),
            Ok((s, n)) => Ok((ValueModel::JsCode(s), n)),
        }
    } else if tag == 0x0F {
        if b.len() < 4 {
            Err(DecodeError::UnexpectedEof)
        } else {
            let l2 = spec_i32_le(b.take(4)) as int;
            if l2 < 4 {
                Err(DecodeError::InvalidLength)
            } else if b.len() < l2 {
                Err(DecodeError::UnexpectedEof)
            } else {
                let region = b.subrange(4, l2);
                match spec_parse_string(region) {
                    Err(_) => Err(DecodeError::InvalidScopedCode),
                    Ok((code, sn)) => if !(0 <= sn <= region.len()) {
                        // a string never consumes more than its input; not reachable
                        Err(DecodeError::InvalidScopedCode)
                    } else {
                        match spec_parse_doc(region.skip(sn), depth) {
                            Err(_) => Err(DecodeError::InvalidScopedCode),
                            Ok((scope, dn)) => if sn + dn == region.len() {
                                Ok((ValueModel::JsCodeWithScope(code, scope), l2))
                            } else {
                                Err(DecodeError::InvalidScopedCode)
                            },
                        }
                    },
                }
            }
        }
    } else if tag == 0x10 {
        if b.len() < 4 {
            Err(DecodeError::UnexpectedEof)
        } else {
            Ok((ValueModel::Int32(spec_i32_le(b.take(4))), 4))
        }
    } else if tag == 0x11 {
        if b.len() < 8 {
            Err(DecodeError::UnexpectedEof)
        } else {
            Ok((ValueModel::Timestamp(spec_i64_le(b.take(8))), 8))
        }
    } else if tag == 0x12 {
        if b.len() < 8 {
            Err(DecodeError::UnexpectedEof)
        } else {
            Ok((ValueModel::Int64(spec_i64_le(b.take(8))), 8))
        }
    } else {
        Err(DecodeError::UnknownTypeTag(tag))
    }
}

/// Grammar of one element: a type tag byte, the key as a cstring, then the
/// payload that the tag calls for. `depth` bounds how much deeper nested
/// documents may still recurse.
pub open spec fn spec_parse_element(b: Seq<u8>, depth: nat) -> Result<
    ((Seq<char>, ValueModel), int),
    DecodeError,
>
    decreases b.len(), 0int,
{
    if b.len() == 0 {
        Err(DecodeError::UnexpectedEof)
    } else {
        let tag = b[0];
        match spec_parse_cstring(b.skip(1)) {
            Err(e) => Err(e),
            Ok((key, kn)) => if !(1 <= kn && 1 + kn <= b.len()) {
                // a cstring never consumes more than its input; not reachable
                Err(DecodeError::UnexpectedEof)
            } else {
                match spec_parse_payload(tag, b.skip(1 + kn), depth) {
                    Err(e) => Err(e),
                    Ok((v, n)) => Ok(((key, v), 1 + kn + n)),
                }
            },
        }
    }
}

/// Grammar of a document body: elements back to back until the body is spent.
pub open spec fn spec_parse_elements(b: Seq<u8>, depth: nat) -> Result<
    Seq<(Seq<char>, ValueModel)>,
    DecodeError,
>
    decreases b.len(), 1int,
{
    if b.len() == 0 {
        Ok(Seq::empty())
    } else {
        match spec_parse_element(b, depth) {
            Err(e) => Err(e),
            Ok((kv, n)) => if !(1 <= n <= b.len()) {
                // an element always consumes at least its tag; not reachable
                Err(DecodeError::UnexpectedEof)
            } else {
                match spec_parse_elements(b.skip(n), depth) {
                    Err(e) => Err(e),
                    Ok(rest) => Ok(seq![kv] + rest),
                }
            },
        }
    }
}

/// Grammar of a document: a 32-bit total length `l` (counting itself), then
/// `l - 4` further bytes whose last must be 0x00, the bytes between holding
/// the element list. Nesting beyond `depth` fails with `MaxDepthExceeded`.
pub open spec fn spec_parse_doc(b: Seq<u8>, depth: nat) -> Result<(DocModel, int), DecodeError>
    decreases b.len(), 2int,
{
    if depth == 0 {
        Err(DecodeError::MaxDepthExceeded)
    } else if b.len() < 4 {
        Err(DecodeError::UnexpectedEof)
    } else {
        let l = spec_i32_le(b.take(4)) as int;
        if l < 5 {
            Err(DecodeError::InvalidLength)
        } else if b.len() < l {
            Err(DecodeError::UnexpectedEof)
        } else if b[l - 1] != 0 {
            Err(DecodeError::MissingTerminator)
        } else {
            match spec_parse_elements(b.subrange(4, l - 1), (depth - 1) as nat) {
                Err(e) => Err(e),
                Ok(pairs) => Ok((doc_from_pairs(pairs), l)),
            }
        }
    }
}

/// What `decode` returns: the single document that spans the whole input, or
/// the first failure. Input longer than the document is `TrailingData`.
pub open spec fn spec_decode(b: Seq<u8>) -> Result<DocModel, DecodeError> {
    match spec_parse_doc(b, MAX_DEPTH as nat) {
        Err(e) => Err(e),
        Ok((d, n)) => if n == b.len() {
            Ok(d)
        } else {
            Err(DecodeError::TrailingData)
        },
    }
}

/// Decoding is a pure function of the bytes: two decodes of equal inputs
/// yield the same outcome, documents structurally equal with keys in the
/// same order, errors alike.
pub proof fn lemma_decode_deterministic(b1: Seq<u8>, b2: Seq<u8>)
    requires
        b1 == b2,
    ensures
        spec_decode(b1) == spec_decode(b2),
{
}

/// Any strict prefix of a well-formed encoded document fails to decode with
/// `UnexpectedEof`: the outer length can no longer be honoured, so truncation
/// starves a read; it never yields a document and never panics.
pub proof fn lemma_truncated_input_fails(bytes: Seq<u8>, n: int)
    requires
        spec_decode(bytes) is Ok,
        0 <= n < bytes.len(),
    ensures
        spec_decode(bytes.take(n)) == Err::<DocModel, DecodeError>(DecodeError::UnexpectedEof),
{
    let t = bytes.take(n);
    if n >= 4 {
        assert(t.take(4) =~= bytes.take(4));
    }
}

/// No two pairs share a key.
pub open spec fn doc_keys_unique(d: DocModel) -> bool {
    forall|i: int, j: int| 0 <= i < j < d.len() ==> (#[trigger] d[i]).0 != (#[trigger] d[j]).0
}

/// Some pair carries this key.
pub open spec fn doc_has_key(d: DocModel, k: Seq<char>) -> bool {
    exists|i: int| 0 <= i < d.len() && (#[trigger] d[i]).0 == k
}

/// Removing a key removes it entirely, touches no other key, and keeps the
/// remaining keys distinct.
proof fn lemma_remove_keys(d: DocModel, key: Seq<char>)
    ensures
        !doc_has_key(doc_model_remove(d, key), key),
        forall|k: Seq<char>| k != key ==> doc_has_key(doc_model_remove(d, key), k) == doc_has_key(
            d,
            k,
        ),
        doc_keys_unique(d) ==> doc_keys_unique(doc_model_remove(d, key)),
    decreases d.len(),
{
    let rm = doc_model_remove(d, key);
    if d.len() == 0 {
        assert forall|k: Seq<char>| k != key implies doc_has_key(rm, k) == doc_has_key(d, k) by {
            assert(!doc_has_key(d, k));
            assert(!doc_has_key(rm, k));
        }
    } else {
        let df = d.drop_first();
        lemma_remove_keys(df, key);
        let rmf = doc_model_remove(df, key);
        assert forall|k: Seq<char>| doc_has_key(df, k) implies doc_has_key(d, k) by {
            let i = choose|i: int| 0 <= i < df.len() && df[i].0 == k;
            assert(d[i + 1].0 == k);
        }
        if d[0].0 == key {
            assert(rm == rmf);
            assert forall|k: Seq<char>| k != key && doc_has_key(d, k) implies doc_has_key(rm, k) by {
                let i = choose|i: int| 0 <= i < d.len() && (#[trigger] d[i]).0 == k;
                assert(i != 0);
                assert(df[i - 1].0 == k);
                assert(doc_has_key(df, k));
                assert(doc_has_key(rmf, k) == doc_has_key(df, k));
            }
        } else {
            assert(rm == seq![d[0]] + rmf);
            assert(rm[0] == d[0]);
            assert forall|i: int| 0 <= i < rm.len() && rm[i].0 == key implies false by {
                assert(i != 0);
                assert(rmf[i - 1] == rm[i]);
                assert(doc_has_key(rmf, key));
            }
            assert forall|k: Seq<char>| k != key && doc_has_key(d, k) implies doc_has_key(rm, k) by {
                let i = choose|i: int| 0 <= i < d.len() && d[i].0 == k;
                if i == 0 {
                    assert(rm[0].0 == k);
                } else {
                    assert(df[i - 1].0 == k);
                    assert(doc_has_key(df, k));
                    assert(doc_has_key(rmf, k) == doc_has_key(df, k));
                    let j = choose|j: int| 0 <= j < rmf.len() && (#[trigger] rmf[j]).0 == k;
                    assert(rm[j + 1].0 == k);
                }
            }
            assert forall|k: Seq<char>| k != key && doc_has_key(rm, k) implies doc_has_key(d, k) by {
                let i = choose|i: int| 0 <= i < rm.len() && rm[i].0 == k;
                if i == 0 {
                    assert(d[0].0 == k);
                } else {
                    assert(rmf[i - 1].0 == k);
                }
            }
            if doc_keys_unique(d) {
                assert forall|j: int| 0 <= j < df.len() implies (#[trigger] df[j]).0 != d[0].0 by {
                    assert(d[j + 1].0 == df[j].0);
                }
                assert(doc_keys_unique(df));
                assert(!doc_has_key(df, d[0].0));
                assert(!doc_has_key(rmf, d[0].0));
                assert forall|i: int, j: int| 0 <= i < j < rm.len() implies (#[trigger] rm[i]).0 != (
                #[trigger] rm[j]).0 by {
                    if i == 0 {
                        assert(rmf[j - 1] == rm[j]);
                        if rm[j].0 == d[0].0 {
                            assert(doc_has_key(rmf, d[0].0));
                        }
                    } else {
                        assert(rmf[i - 1] == rm[i]);
                        assert(rmf[j - 1] == rm[j]);
                    }
                }
            }
        }
    }
}

/// However pairs repeat, assembling them leaves each key at most once.
pub proof fn lemma_doc_from_pairs_unique(pairs: Seq<(Seq<char>, ValueModel)>)
    ensures
        doc_keys_unique(doc_from_pairs(pairs)),
    decreases pairs.len(),
{
    if pairs.len() > 0 {
        lemma_doc_from_pairs_unique(pairs.drop_last());
        let prev = doc_from_pairs(pairs.drop_last());
        let key = pairs.last().0;
        lemma_remove_keys(prev, key);
        let rm = doc_model_remove(prev, key);
        assert forall|i: int, j: int|
            0 <= i < j < rm.push((key, pairs.last().1)).len() implies (#[trigger] rm.push(
            (key, pairs.last().1),
        )[i]).0 != (#[trigger] rm.push((key, pairs.last().1))[j]).0 by {
            if j == rm.len() {
                if rm[i].0 == key {
                    assert(doc_has_key(rm, key));
                }
            }
        }
    }
}

/// Structural facts that hold of every decoded value, at every nesting
/// level: a document carries each key at most once, an object id is exactly
/// twelve bytes, and a datetime's nanoseconds stay below one second.
pub open spec fn value_wf(v: ValueModel) -> bool
    decreases v, 0int,
{
    match v {
        ValueModel::Doc(d) => doc_model_wf(d),
        ValueModel::Array(vs) => forall|i: int| 0 <= i < vs.len() ==> value_wf(#[trigger] vs[i]),
        ValueModel::ObjectId(b) => b.len() == 12,
        ValueModel::UtcDateTime { seconds, nanos } => nanos < 1_000_000_000,
        ValueModel::JsCodeWithScope(_, d) => doc_model_wf(d),
        _ => true,
    }
}

/// A well-formed document model: no key twice, every value well formed.
pub open spec fn doc_model_wf(d: DocModel) -> bool
    decreases d, 1int,
{
    doc_keys_unique(d) && forall|i: int| 0 <= i < d.len() ==> value_wf((#[trigger] d[i]).1)
}

/// Every pair that survives a removal was already present.
proof fn lemma_remove_subset(d: DocModel, key: Seq<char>)
    ensures
        forall|j: int|
            0 <= j < doc_model_remove(d, key).len() ==> exists|i: int|
                0 <= i < d.len() && #[trigger] doc_model_remove(d, key)[j] == d[i],
    decreases d.len(),
{
    if d.len() > 0 {
        let df = d.drop_first();
        lemma_remove_subset(df, key);
        let rm = doc_model_remove(d, key);
        let rmf = doc_model_remove(df, key);
        if d[0].0 == key {
            assert forall|j: int| 0 <= j < rm.len() implies exists|i: int|
                0 <= i < d.len() && #[trigger] rm[j] == d[i] by {
                let i0 = choose|i0: int| 0 <= i0 < df.len() && rmf[j] == df[i0];
                assert(rm[j] == d[i0 + 1]);
            }
        } else {
            assert forall|j: int| 0 <= j < rm.len() implies exists|i: int|
                0 <= i < d.len() && #[trigger] rm[j] == d[i] by {
                if j == 0 {
                    assert(rm[0] == d[0]);
                } else {
                    assert(rm[j] == rmf[j - 1]);
                    let i0 = choose|i0: int| 0 <= i0 < df.len() && rmf[j - 1] == df[i0];
                    assert(rm[j] == d[i0 + 1]);
                }
            }
        }
    }
}

/// Every pair of an assembled document is one of the pairs it was built
/// from.
proof fn lemma_from_pairs_subset(pairs: Seq<(Seq<char>, ValueModel)>)
    ensures
        forall|j: int|
            0 <= j < doc_from_pairs(pairs).len() ==> exists|i: int|
                0 <= i < pairs.len() && #[trigger] doc_from_pairs(pairs)[j] == pairs[i],
    decreases pairs.len(),
{
    if pairs.len() > 0 {
        let init = pairs.drop_last();
        lemma_from_pairs_subset(init);
        let prev = doc_from_pairs(init);
        lemma_remove_subset(prev, pairs.last().0);
        let rm = doc_model_remove(prev, pairs.last().0);
        let fp = doc_from_pairs(pairs);
        assert forall|j: int| 0 <= j < fp.len() implies exists|i: int|
            0 <= i < pairs.len() && #[trigger] fp[j] == pairs[i] by {
            if j == fp.len() - 1 {
                assert(fp[j] == (pairs.last().0, pairs.last().1));
                assert(fp[j] == pairs[pairs.len() - 1]);
            } else {
                assert(fp[j] == rm[j]);
                let i0 = choose|i0: int| 0 <= i0 < prev.len() && rm[j] == prev[i0];
                let i1 = choose|i1: int| 0 <= i1 < init.len() && prev[i0] == init[i1];
                assert(fp[j] == pairs[i1]);
            }
        }
    }
}

/// Every value a parsed payload yields is well formed.
proof fn lemma_parse_payload_wf(tag: u8, b: Seq<u8>, depth: nat)
    ensures
        spec_parse_payload(tag, b, depth) matches Ok(p) ==> value_wf(p.0),
    decreases b.len(), 3int,
{
    if tag == 0x03 {
        lemma_parse_doc_wf(b, depth);
    }
    if tag == 0x04 {
        lemma_parse_doc_wf(b, depth);
        match spec_parse_doc(b, depth) {
            Ok(p) => {
                if spec_is_array(p.0) {
                    assert forall|i: int|
                        0 <= i < doc_model_values(p.0).len() implies value_wf(
                        #[trigger] doc_model_values(p.0)[i]) by {
                        assert(doc_model_values(p.0)[i] == p.0[i].1);
                    }
                }
            },
            Err(_) => {},
        }
    }
    if tag == 0x09 && b.len() >= 8 {
        let ms = spec_i64_le(b.take(8)) as int;
        vstd::arithmetic::div_mod::lemma_mod_bound(ms, 1000);
    }
    if tag == 0x0F && b.len() >= 4 {
        let l2 = spec_i32_le(b.take(4)) as int;
        if 4 <= l2 <= b.len() {
            let region = b.subrange(4, l2);
            match spec_parse_string(region) {
                Ok(sp) => {
                    if 0 <= sp.1 <= region.len() {
                        lemma_parse_doc_wf(region.skip(sp.1), depth);
                    }
                },
                Err(_) => {},
            }
        }
    }
}

/// Every value a parsed element yields is well formed.
proof fn lemma_parse_element_wf(b: Seq<u8>, depth: nat)
    ensures
        spec_parse_element(b, depth) matches Ok(p) ==> value_wf(p.0.1),
    decreases b.len(), 0int,
{
    if b.len() > 0 {
        lemma_cstring_consumed(b.skip(1));
        match spec_parse_cstring(b.skip(1)) {
            Ok(kp) => {
                if 1 <= kp.1 && 1 + kp.1 <= b.len() {
                    lemma_parse_payload_wf(b[0], b.skip(1 + kp.1), depth);
                }
            },
            Err(_) => {},
        }
    }
}

/// Every value in a parsed element run is well formed.
proof fn lemma_parse_elements_wf(b: Seq<u8>, depth: nat)
    ensures
        spec_parse_elements(b, depth) matches Ok(pairs) ==> forall|i: int|
            0 <= i < pairs.len() ==> value_wf((#[trigger] pairs[i]).1),
    decreases b.len(), 1int,
{
    if b.len() > 0 {
        lemma_parse_element_wf(b, depth);
        match spec_parse_element(b, depth) {
            Ok((kv, n)) => {
                if 1 <= n <= b.len() {
                    lemma_parse_elements_wf(b.skip(n), depth);
                    match spec_parse_elements(b.skip(n), depth) {
                        Ok(rest) => {
                            assert forall|i: int|
                                0 <= i < (seq![kv] + rest).len() implies value_wf(
                            (#[trigger] (seq![kv] + rest)[i]).1) by {
                                if i > 0 {
                                    assert((seq![kv] + rest)[i] == rest[i - 1]);
                                }
                            }
                        },
                        Err(_) => {},
                    }
                }
            },
            Err(_) => {},
        }
    }
}

/// Every document the parser yields is well formed.
proof fn lemma_parse_doc_wf(b: Seq<u8>, depth: nat)
    ensures
        spec_parse_doc(b, depth) matches Ok(p) ==> doc_model_wf(p.0),
    decreases b.len(), 2int,
{
    if depth != 0 && b.len() >= 4 {
        let l = spec_i32_le(b.take(4)) as int;
        if 5 <= l <= b.len() && b[l - 1] == 0 {
            let body = b.subrange(4, l - 1);
            lemma_parse_elements_wf(body, (depth - 1) as nat);
            match spec_parse_elements(body, (depth - 1) as nat) {
                Ok(pairs) => {
                    lemma_doc_from_pairs_unique(pairs);
                    lemma_from_pairs_subset(pairs);
                    let fp = doc_from_pairs(pairs);
                    assert forall|i: int| 0 <= i < fp.len() implies value_wf(
                    (#[trigger] fp[i]).1) by {
                        let i0 = choose|i0: int| 0 <= i0 < pairs.len() && fp[i] == pairs[i0];
                        assert(value_wf(pairs[i0].1));
                    }
                },
                Err(_) => {},
            }
        }
    }
}

/// Whatever the bytes were, a document that decodes is well formed at every
/// nesting level: no document in it repeats a key (a duplicate on the wire
/// kept only its last occurrence), every object id has exactly twelve bytes,
/// and every datetime's nanoseconds stay below one second.
pub proof fn lemma_decode_wf(bytes: Seq<u8>)
    ensures
        spec_decode(bytes) matches Ok(d) ==> doc_model_wf(d),
{
    lemma_parse_doc_wf(bytes, MAX_DEPTH as nat);
}

/// A parsed cstring consumes its text plus the NUL: at least one byte, never
/// more than the input.
pub proof fn lemma_cstring_consumed(b: Seq<u8>)
    ensures
        spec_parse_cstring(b) matches Ok(p) ==> 1 <= p.1 <= b.len(),
{
    lemma_find_nul(b);
}

/// A parsed length-prefixed string consumes its header and payload: at least
/// five bytes, never more than the input.
pub proof fn lemma_string_consumed(b: Seq<u8>)
    ensures
        spec_parse_string(b) matches Ok(p) ==> 5 <= p.1 <= b.len(),
{
}

/// Read one payload (the bytes after a tag and key) off the front of
/// `input`, recursing at most `depth` documents deep.
#[verifier::rlimit(60)]
fn parse_payload<'a>(tag: u8, input: &'a [u8], depth: u32) -> (r: Result<
    (Value, &'a [u8]),
    DecodeError,
>)
    ensures
        r matches Ok((v, rest)) ==> {
            &&& spec_parse_payload(tag, input@, depth as nat) matches Ok(p)
            &&& p.0 == v@
            &&& rest@ == input@.skip(p.1)
        },
        r matches Err(e) ==> spec_parse_payload(tag, input@, depth as nat) == Err::<
            (ValueModel, int),
            DecodeError,
        >(e),
    decreases input@.len(), 3int,
{
    let m = input.len();
    if tag == 0x01 {
        if m < 8 {
            return Err(DecodeError::UnexpectedEof);
        }
        let word = slice_subrange(input, 0, 8);
        proof {
            assert(word@ =~= input@.take(8));
        }
        let bits = u64_from_le_bytes(word);
        Ok((Value::Double(bits), slice_subrange(input, 8, m)))
    } else if tag == 0x02 {
        match parse_string(input) {
            Err(e) => Err(e),
            Ok((s, out)) => Ok((Value::Str(s), out)),
        }
    } else if tag == 0x03 {
        match parse_doc_rec(input, depth) {
            Err(e) => Err(e),
            Ok((d, out)) => Ok((Value::Doc(d), out)),
        }
    } else if tag == 0x04 {
        match parse_doc_rec(input, depth) {
            Err(e) => Err(e),
            Ok((d, out)) => match doc_to_array(d) {
                Err(e) => Err(e),
                Ok(items) => Ok((Value::Array(items), out)),
            },
        }
    } else if tag == 0x05 {
        parse_binary(input)
    } else if tag == 0x07 {
        parse_objectid(input)
    } else if tag == 0x08 {
        if m < 1 {
            return Err(DecodeError::UnexpectedEof);
        }
        let x = *slice_index_get(input, 0);
        let out = slice_subrange(input, 1, m);
        if x == 0 {
            Ok((Value::Boolean(false), out))
        } else if x == 1 {
            Ok((Value::Boolean(true), out))
        } else {
            Err(DecodeError::InvalidBoolean(x))
        }
    } else if tag == 0x09 {
        if m < 8 {
            return Err(DecodeError::UnexpectedEof);
        }
        let word = slice_subrange(input, 0, 8);
        proof {
            assert(word@ =~= input@.take(8));
        }
        let ms = i64_from_le(word);
        let parts = ms_to_datetime(ms);
        Ok((Value::UtcDateTime { seconds: parts.0, nanos: parts.1 }, slice_subrange(input, 8, m)))
    } else if tag == 0x0A {
        let out = slice_subrange(input, 0, m);
        proof {
            assert(out@ =~= input@.skip(0));
        }
        Ok((Value::Null, out))
    } else if tag == 0x0B {
        match parse_cstring(input) {
            Err(e) => Err(e),
            Ok((pattern, mid)) => {
                let ghost pn = spec_parse_cstring(input@)->Ok_0.1;
                proof {
                    lemma_cstring_consumed(input@);
                }
                match parse_cstring(mid) {
                    Err(e) => Err(e),
                    Ok((flags, out)) => {
                        proof {
                            let fln = spec_parse_cstring(input@.skip(pn))->Ok_0.1;
                            lemma_cstring_consumed(input@.skip(pn));
                            assert(out@ =~= input@.skip(pn + fln));
                        }
                        Ok((Value::Regex { pattern, flags }, out))
                    },
                }
            },
        }
    } else if tag == 0x0D {
        match parse_string(input) {
            Err(e) => Err(e),
            Ok((s, out)) => Ok((Value::JsCode(s), out)),
        }
    } else if tag == 0x0F {
        if m < 4 {
            return Err(DecodeError::UnexpectedEof);
        }
        let header = slice_subrange(input, 0, 4);
        proof {
            assert(header@ =~= input@.take(4));
        }
        let l2 = i32_from_le(header);
        if l2 < 4 {
            return Err(DecodeError::InvalidLength);
        }
        let l2u = l2 as usize;
        if m < l2u {
            return Err(DecodeError::UnexpectedEof);
        }
        let region = slice_subrange(input, 4, l2u);
        proof {
            assert(region@ =~= input@.subrange(4, l2 as int));
        }
        match parse_string(region) {
            Err(_) => Err(DecodeError::InvalidScopedCode),
            Ok((code, after_str)) => {
                let ghost sn = spec_parse_string(region@)->Ok_0.1;
                proof {
                    lemma_string_consumed(region@);
                    assert(after_str@ =~= region@.skip(sn));
                }
                match parse_doc_rec(after_str, depth) {
                    Err(_) => Err(DecodeError::InvalidScopedCode),
                    Ok((scope, after_doc)) => {
                        proof {
                            let dn = spec_parse_doc(region@.skip(sn), depth as nat)->Ok_0.1;
                            assert(after_doc@ =~= region@.skip(sn).skip(dn));
                        }
                        if after_doc.len() == 0 {
                            let out = slice_subrange(input, l2u, m);
                            proof {
                                assert(out@ =~= input@.skip(l2 as int));
                            }
                            Ok((Value::JsCodeWithScope(code, scope), out))
                        } else {
                            Err(DecodeError::InvalidScopedCode)
                        }
                    },
                }
            },
        }
    } else if tag == 0x10 {
        if m < 4 {
            return Err(DecodeError::UnexpectedEof);
        }
        let word = slice_subrange(input, 0, 4);
        proof {
            assert(word@ =~= input@.take(4));
        }
        let x = i32_from_le(word);
        Ok((Value::Int32(x), slice_subrange(input, 4, m)))
    } else if tag == 0x11 {
        if m < 8 {
            return Err(DecodeError::UnexpectedEof);
        }
        let word = slice_subrange(input, 0, 8);
        proof {
            assert(word@ =~= input@.take(8));
        }
        let x = i64_from_le(word);
        Ok((Value::Timestamp(x), slice_subrange(input, 8, m)))
    } else if tag == 0x12 {
        if m < 8 {
            return Err(DecodeError::UnexpectedEof);
        }
        let word = slice_subrange(input, 0, 8);
        proof {
            assert(word@ =~= input@.take(8));
        }
        let x = i64_from_le(word);
        Ok((Value::Int64(x), slice_subrange(input, 8, m)))
    } else {
        Err(DecodeError::UnknownTypeTag(tag))
    }
}

/// Read one element off the front of `input`, recursing at most `depth`
/// documents deep.
fn parse_element_rec<'a>(input: &'a [u8], depth: u32) -> (r: Result<
    ((String, Value), &'a [u8]),
    DecodeError,
>)
    ensures
        r matches Ok((kv, rest)) ==> {
            &&& spec_parse_element(input@, depth as nat) matches Ok(p)
            &&& p.0.0 == kv.0@
            &&& p.0.1 == kv.1@
            &&& rest@ == input@.skip(p.1)
        },
        r matches Err(e) ==> spec_parse_element(input@, depth as nat) == Err::<
            ((Seq<char>, ValueModel), int),
            DecodeError,
        >(e),
    decreases input@.len(), 0int,
{
    let n = input.len();
    if n == 0 {
        return Err(DecodeError::UnexpectedEof);
    }
    let tag = *slice_index_get(input, 0);
    let after_tag = slice_subrange(input, 1, n);
    proof {
        assert(after_tag@ =~= input@.skip(1));
    }
    let (key, rest) = match parse_cstring(after_tag) {
        Ok(p) => p,
        Err(e) => {
            return Err(e);
        },
    };
    let ghost kn = spec_parse_cstring(input@.skip(1))->Ok_0.1;
    proof {
        lemma_cstring_consumed(input@.skip(1));
        assert(rest@ =~= input@.skip(1 + kn));
    }
    match parse_payload(tag, rest, depth) {
        Err(e) => Err(e),
        Ok((v, out)) => {
            proof {
                let pn = spec_parse_payload(tag, input@.skip(1 + kn), depth as nat)->Ok_0.1;
                lemma_payload_consumed(tag, input@.skip(1 + kn), depth as nat);
                assert(out@ =~= input@.skip(1 + kn + pn));
            }
            Ok(((key, v), out))
        },
    }
}

/// Read one document off the front of `input`, recursing at most `depth`
/// documents deep.
fn parse_doc_rec<'a>(input: &'a [u8], depth: u32) -> (r: Result<(Document, &'a [u8]), DecodeError>)
    ensures
        r matches Ok((d, rest)) ==> {
            &&& spec_parse_doc(input@, depth as nat) matches Ok(p)
            &&& p.0 == d@
            &&& rest@ == input@.skip(p.1)
        },
        r matches Err(e) ==> spec_parse_doc(input@, depth as nat) == Err::<
            (DocModel, int),
            DecodeError,
        >(e),
    decreases input@.len(), 2int,
{
    if depth == 0 {
        return Err(DecodeError::MaxDepthExceeded);
    }
    let n = input.len();
    if n < 4 {
        return Err(DecodeError::UnexpectedEof);
    }
    let header = slice_subrange(input, 0, 4);
    proof {
        assert(header@ =~= input@.take(4));
    }
    let l = i32_from_le(header);
    if l < 5 {
        return Err(DecodeError::InvalidLength);
    }
    let lu = l as usize;
    if n < lu {
        return Err(DecodeError::UnexpectedEof);
    }
    if *slice_index_get(input, lu - 1) != 0 {
        return Err(DecodeError::MissingTerminator);
    }
    let body = slice_subrange(input, 4, lu - 1);
    proof {
        assert(body@ =~= input@.subrange(4, l - 1));
    }
    let ghost body_seq = body@;
    let ghost d1 = (depth - 1) as nat;
    let ghost li = spec_i32_le(input@.take(4)) as int;
    let mut cur: &[u8] = body;
    let mut doc = Document::new();
    let ghost done: Seq<(Seq<char>, ValueModel)> = Seq::empty();
    let mut done = Ghost(done);
    proof {
        assert(doc@ =~= doc_from_pairs(done@));
    }
    while cur.len() > 0
        invariant
            d1 == (depth - 1) as nat,
            depth >= 1,
            li == spec_i32_le(input@.take(4)) as int,
            5 <= li <= input@.len(),
            input@[li - 1] == 0,
            body_seq =~= input@.subrange(4, li - 1),
            cur@.len() <= body_seq.len(),
            body_seq.len() + 5 <= input@.len(),
            doc@ == doc_from_pairs(done@),
            match spec_parse_elements(cur@, d1) {
                Err(e) => spec_parse_elements(body_seq, d1) == Err::<
                    Seq<(Seq<char>, ValueModel)>,
                    DecodeError,
                >(e),
                Ok(ps) => spec_parse_elements(body_seq, d1) == Ok::<
                    Seq<(Seq<char>, ValueModel)>,
                    DecodeError,
                >(done@ + ps),
            },
        decreases cur@.len(),
    {
        match parse_element_rec(cur, depth - 1) {
            Err(e) => {
                return Err(e);
            },
            Ok((kv, rest2)) => {
                let ghost en = spec_parse_element(cur@, d1)->Ok_0.1;
                let ghost kvm = (kv.0@, kv.1@);
                proof {
                    lemma_element_consumed(cur@, d1);
                    assert(rest2@ == cur@.skip(en));
                }
                doc.insert(kv.0.as_str(), kv.1);
                proof {
                    assert(done@.push(kvm).drop_last() =~= done@);
                    assert(doc@ == doc_from_pairs(done@.push(kvm)));
                    match spec_parse_elements(rest2@, d1) {
                        Err(_) => {},
                        Ok(ps) => {
                            assert(done@ + (seq![kvm] + ps) =~= done@.push(kvm) + ps);
                        },
                    }
                }
                done = Ghost(done@.push(kvm));
                cur = rest2;
            },
        }
    }
    proof {
        assert(cur@ =~= Seq::<u8>::empty());
        assert(done@ + Seq::<(Seq<char>, ValueModel)>::empty() =~= done@);
    }
    let out = slice_subrange(input, lu, n);
    proof {
        assert(out@ =~= input@.skip(l as int));
    }
    Ok((doc, out))
}

/// Read one element (tag, key, payload) off the front of `input`; on success
/// also return the input that follows it.
pub fn parse_element<'a>(input: &'a [u8]) -> (r: Result<((String, Value), &'a [u8]), DecodeError>)
    ensures
        r matches Ok((kv, rest)) ==> {
            &&& spec_parse_element(input@, MAX_DEPTH as nat) matches Ok(p)
            &&& p.0.0 == kv.0@
            &&& p.0.1 == kv.1@
            &&& rest@ == input@.skip(p.1)
        },
        r matches Err(e) ==> spec_parse_element(input@, MAX_DEPTH as nat) == Err::<
            ((Seq<char>, ValueModel), int),
            DecodeError,
        >(e),
{
    parse_element_rec(input, MAX_DEPTH)
}

/// Decode one whole document from `bytes`: the entire input must be the one
/// encoded document, with nothing left over. A failure carries the error kind
/// and no partial document; no input makes this panic.
pub fn decode(bytes: &[u8]) -> (r: Result<Document, DecodeError>)
    ensures
        r matches Ok(d) ==> spec_decode(bytes@) == Ok::<DocModel, DecodeError>(d@),
        r matches Err(e) ==> spec_decode(bytes@) == Err::<DocModel, DecodeError>(e),
{
    match parse_doc_rec(bytes, MAX_DEPTH) {
        Err(e) => Err(e),
        Ok((d, rest)) => if rest.len() == 0 {
            Ok(d)
        } else {
            Err(DecodeError::TrailingData)
        },
    }
}

/// A parsed payload never consumes more than its input (and possibly
/// nothing: a null has no payload).
pub proof fn lemma_payload_consumed(tag: u8, b: Seq<u8>, depth: nat)
    ensures
        spec_parse_payload(tag, b, depth) matches Ok(p) ==> 0 <= p.1 <= b.len(),
{
    if tag == 0x02 || tag == 0x0D {
        lemma_string_consumed(b);
    }
    if tag == 0x0B {
        lemma_cstring_consumed(b);
        match spec_parse_cstring(b) {
            Ok(pp) => {
                lemma_cstring_consumed(b.skip(pp.1));
            },
            Err(_) => {},
        }
    }
}

/// A parsed element consumes its tag, key and payload: at least two bytes,
/// never more than the input.
pub proof fn lemma_element_consumed(b: Seq<u8>, depth: nat)
    ensures
        spec_parse_element(b, depth) matches Ok(p) ==> 2 <= p.1 <= b.len(),
{
    if b.len() > 0 {
        lemma_cstring_consumed(b.skip(1));
        match spec_parse_cstring(b.skip(1)) {
            Ok(kp) => {
                if 1 <= kp.1 && 1 + kp.1 <= b.len() {
                    lemma_payload_consumed(b[0], b.skip(1 + kp.1), depth);
                }
            },
            Err(_) => {},
        }
    }
}

} // verus!


