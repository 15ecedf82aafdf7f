//! The wire format stated in the encoding direction: spec-level functions
//! that write a value out, and proofs that the decoder reads back exactly
//! what they wrote. Nothing here runs; the executable side of the format
//! lives in `decode`.

use vstd::bytes::*;
use vstd::prelude::*;
use vstd::utf8::*;

use crate::doc::{
    all_digits, digit_val, digits_value, doc_from_pairs, doc_model_remove, spec_is_array,
    spec_parse_usize, BinarySubtype, DecodeError, DocModel, ValueModel,
};
use crate::decode::{
    doc_has_key, doc_keys_unique, find_nul, lemma_find_nul, spec_i32_le, spec_parse_cstring,
    spec_parse_string, MAX_DEPTH,
};

verus! {

broadcast use vstd::utf8::group_utf8_lib;

/// The text never holds a NUL character, so it can stand in a cstring.
pub open spec fn nul_free(s: Seq<char>) -> bool {
    forall|i: int| 0 <= i < s.len() ==> (#[trigger] s[i]) as u32 != 0
}

/// A scalar's UTF-8 bytes are never zero unless the scalar itself is.
proof fn lemma_encode_scalar_nonzero(c: u32)
    requires
        is_scalar(c),
        c != 0,
    ensures
        forall|i: int| 0 <= i < encode_scalar(c).len() ==> #[trigger] encode_scalar(c)[i] != 0,
{
    assert(has_width_1_encoding(c) && c != 0 ==> (c & 0x7F) as u8 != 0) by (bit_vector);
    assert((0xC0u8 | ((c >> 6) & 0x1F) as u8) != 0) by (bit_vector);
    assert((0xE0u8 | ((c >> 12) & 0x0F) as u8) != 0) by (bit_vector);
    assert((0xF0u8 | ((c >> 18) & 0x7) as u8) != 0) by (bit_vector);
    assert((0x80u8 | (c & 0x3F) as u8) != 0) by (bit_vector);
    assert((0x80u8 | ((c >> 6) & 0x3F) as u8) != 0) by (bit_vector);
    assert((0x80u8 | ((c >> 12) & 0x3F) as u8) != 0) by (bit_vector);
}

/// NUL-free text encodes to NUL-free bytes.
proof fn lemma_encode_utf8_nul_free(s: Seq<char>)
    requires
        nul_free(s),
    ensures
        forall|i: int| 0 <= i < encode_utf8(s).len() ==> #[trigger] encode_utf8(s)[i] != 0,
    decreases s.len(),
{
    if s.len() > 0 {
        let c = s[0] as u32;
        char_is_scalar(s[0]);
        assert(c != 0);
        lemma_encode_scalar_nonzero(c);
        assert(nul_free(s.drop_first()));
        lemma_encode_utf8_nul_free(s.drop_first());
        assert forall|i: int| 0 <= i < encode_utf8(s).len() implies #[trigger] encode_utf8(s)[i]
            != 0 by {
            if i < encode_scalar(c).len() {
                assert(encode_utf8(s)[i] == encode_scalar(c)[i]);
            } else {
                assert(encode_utf8(s)[i] == encode_utf8(s.drop_first())[i - encode_scalar(
                    c,
                ).len()]);
            }
        }
    }
}

/// A cstring on the wire: the text's UTF-8 bytes, then the NUL.
pub open spec fn enc_cstring(s: Seq<char>) -> Seq<u8> {
    encode_utf8(s) + seq![0u8]
}

/// Reading a cstring undoes writing one: with any continuation after it, the
/// parse returns exactly the text and stops right after the NUL.
pub proof fn lemma_cstring_roundtrip(s: Seq<char>, rest: Seq<u8>)
    requires
        nul_free(s),
    ensures
        spec_parse_cstring(enc_cstring(s) + rest) == Ok::<(Seq<char>, int), DecodeError>(
            (s, enc_cstring(s).len() as int),
        ),
{
    let b = enc_cstring(s) + rest;
    let k = encode_utf8(s).len() as int;
    lemma_encode_utf8_nul_free(s);
    assert(b[k] == 0);
    assert forall|j: int| 0 <= j < k implies b[j] != 0 by {
        assert(b[j] == encode_utf8(s)[j]);
    }
    lemma_find_nul(b);
    match find_nul(b) {
        None => {
            assert(false);
        },
        Some(m) => {
            if m < k {
                assert(b[m] != 0);
            }
            if m > k {
                assert(b[k] != 0);
            }
            assert(m == k);
        },
    }
    assert(b.take(k) =~= encode_utf8(s));
    assert(valid_utf8(encode_utf8(s)));
    assert(decode_utf8(encode_utf8(s)) == s);
}

/// The two's-complement word a signed 32-bit value is written as.
pub open spec fn u32_of_i32(x: i32) -> u32 {
    if x >= 0 {
        x as u32
    } else {
        (x as int + 0x1_0000_0000) as u32
    }
}

/// A 32-bit little-endian signed write.
pub open spec fn enc_i32(x: i32) -> Seq<u8> {
    spec_u32_to_le_bytes(u32_of_i32(x))
}

/// Reading a little-endian i32 undoes writing one.
pub proof fn lemma_i32_roundtrip(x: i32)
    ensures
        enc_i32(x).len() == 4,
        spec_i32_le(enc_i32(x)) == x,
{
    lemma_auto_spec_u32_to_from_le_bytes();
    assert(spec_u32_to_le_bytes(u32_of_i32(x)).len() == 4);
    assert(spec_u32_from_le_bytes(spec_u32_to_le_bytes(u32_of_i32(x))) == u32_of_i32(x));
}

/// The two's-complement word a signed 64-bit value is written as.
pub open spec fn u64_of_i64(x: i64) -> u64 {
    if x >= 0 {
        x as u64
    } else {
        (x as int + 0x1_0000_0000_0000_0000) as u64
    }
}

/// A 64-bit little-endian signed write.
pub open spec fn enc_i64(x: i64) -> Seq<u8> {
    spec_u64_to_le_bytes(u64_of_i64(x))
}

/// Reading a little-endian i64 undoes writing one.
pub proof fn lemma_i64_roundtrip(x: i64)
    ensures
        enc_i64(x).len() == 8,
        crate::decode::spec_i64_le(enc_i64(x)) == x,
{
    lemma_auto_spec_u64_to_from_le_bytes();
}

/// A length-prefixed string on the wire: a 32-bit count of the payload plus
/// its final NUL, the UTF-8 payload, then the NUL.
pub open spec fn enc_string(s: Seq<char>) -> Seq<u8> {
    enc_i32((encode_utf8(s).len() + 1) as i32) + encode_utf8(s) + seq![0u8]
}

/// The string fits its 32-bit length field.
pub open spec fn string_encodable(s: Seq<char>) -> bool {
    encode_utf8(s).len() + 1 <= 0x7fff_ffff
}

/// Reading a length-prefixed string undoes writing one: with any
/// continuation after it, the parse returns exactly the text and stops right
/// after the NUL.
pub proof fn lemma_string_roundtrip(s: Seq<char>, rest: Seq<u8>)
    requires
        string_encodable(s),
    ensures
        spec_parse_string(enc_string(s) + rest) == Ok::<(Seq<char>, int), DecodeError>(
            (s, enc_string(s).len() as int),
        ),
{
    let b = enc_string(s) + rest;
    let l = (encode_utf8(s).len() + 1) as i32;
    lemma_i32_roundtrip(l);
    assert(b.take(4) =~= enc_i32(l));
    assert(b[4 + l - 1] == 0);
    assert(b.subrange(4, 4 + l - 1) =~= encode_utf8(s));
    assert(valid_utf8(encode_utf8(s)));
    assert(decode_utf8(encode_utf8(s)) == s);
}

/// Structural size of a value, counting nested values.
pub open spec fn value_size(v: ValueModel) -> nat
    decreases v,
{
    match v {
        ValueModel::Doc(d) => 1 + pairs_size(d),
        ValueModel::Array(vs) => 1 + values_size(vs),
        ValueModel::JsCodeWithScope(_, d) => 1 + pairs_size(d),
        _ => 1,
    }
}

/// Structural size of a pair list.
pub open spec fn pairs_size(d: DocModel) -> nat
    decreases d,
{
    if d.len() == 0 {
        0
    } else {
        1 + value_size(d[0].1) + pairs_size(d.drop_first())
    }
}

/// Structural size of a value list.
pub open spec fn values_size(vs: Seq<ValueModel>) -> nat
    decreases vs,
{
    if vs.len() == 0 {
        0
    } else {
        1 + value_size(vs[0]) + values_size(vs.drop_first())
    }
}

/// How many documents a value nests.
pub open spec fn value_depth(v: ValueModel) -> nat
    decreases value_size(v), 0int,
{
    match v {
        ValueModel::Doc(d) => 1 + pairs_depth(d),
        ValueModel::Array(vs) => 1 + values_depth(vs),
        ValueModel::JsCodeWithScope(_, d) => 1 + pairs_depth(d),
        _ => 0,
    }
}

/// How many documents the deepest value of a pair list nests.
pub open spec fn pairs_depth(d: DocModel) -> nat
    decreases pairs_size(d), 1int,
{
    if d.len() == 0 {
        0
    } else {
        let head = value_depth(d[0].1);
        let tail = pairs_depth(d.drop_first());
        if head >= tail {
            head
        } else {
            tail
        }
    }
}

/// How many documents the deepest value of a value list nests.
pub open spec fn values_depth(vs: Seq<ValueModel>) -> nat
    decreases values_size(vs), 1int,
{
    if vs.len() == 0 {
        0
    } else {
        let head = value_depth(vs[0]);
        let tail = values_depth(vs.drop_first());
        if head >= tail {
            head
        } else {
            tail
        }
    }
}

/// The digit character for one decimal digit.
pub open spec fn digit_char(d: int) -> char {
    if d == 0 {
        '0'
    } else if d == 1 {
        '1'
    } else if d == 2 {
        '2'
    } else if d == 3 {
        '3'
    } else if d == 4 {
        '4'
    } else if d == 5 {
        '5'
    } else if d == 6 {
        '6'
    } else if d == 7 {
        '7'
    } else if d == 8 {
        '8'
    } else {
        '9'
    }
}

/// The decimal spelling of a non-negative number, no sign, no extra zeros.
pub open spec fn dec_str(n: int) -> Seq<char>
    decreases n,
{
    if n < 10 {
        seq![digit_char(n)]
    } else {
        dec_str(n / 10).push(digit_char(n % 10))
    }
}

/// A decimal spelling is all digits, spells its number, and suits a cstring.
pub proof fn lemma_dec_str(n: int)
    requires
        0 <= n,
    ensures
        dec_str(n).len() >= 1,
        all_digits(dec_str(n)),
        digits_value(dec_str(n)) == n,
        dec_str(n)[0] != '+',
        nul_free(dec_str(n)),
    decreases n,
{
    if n < 10 {
        assert(digit_val(digit_char(n)) == n);
        assert(dec_str(n) == seq![digit_char(n)]);
        assert(seq![digit_char(n)].drop_last() =~= Seq::<char>::empty());
        assert(seq![digit_char(n)].last() == digit_char(n));
        assert(digits_value(dec_str(n)) == digits_value(Seq::<char>::empty()) * 10 + digit_val(
            digit_char(n),
        ));
    } else {
        lemma_dec_str(n / 10);
        vstd::arithmetic::div_mod::lemma_fundamental_div_mod(n, 10);
        let s = dec_str(n / 10).push(digit_char(n % 10));
        assert(s.drop_last() =~= dec_str(n / 10));
        assert(digit_val(s.last()) == n % 10);
        assert(dec_str(n) == s);
        assert(digits_value(s) == digits_value(s.drop_last()) * 10 + digit_val(s.last()));
        assert(digits_value(s.drop_last()) == n / 10);
        assert(n == 10 * (n / 10) + n % 10);
        assert(digits_value(s) == n);
        assert forall|i: int| 0 <= i < s.len() implies crate::doc::is_ascii_digit_char(
            #[trigger] s[i],
        ) by {
            if i < s.len() - 1 {
                assert(s[i] == dec_str(n / 10)[i]);
            }
        }
        assert forall|i: int| 0 <= i < s.len() implies (#[trigger] s[i]) as u32 != 0 by {
            if i < s.len() - 1 {
                assert(s[i] == dec_str(n / 10)[i]);
            }
        }
    }
}

/// A decimal spelling parses back to its number.
pub proof fn lemma_dec_str_parses(n: int)
    requires
        0 <= n <= usize::MAX,
    ensures
        spec_parse_usize(dec_str(n)) == Some(n as usize),
{
    lemma_dec_str(n);
    let s = dec_str(n);
    assert(crate::doc::is_ascii_digit_char(s[0]));
    assert(crate::doc::plus_stripped(s) == s);
}

/// The wire tag of a value.
pub open spec fn tag_of(v: ValueModel) -> u8 {
    match v {
        ValueModel::Double(_) => 0x01,
        ValueModel::Str(_) => 0x02,
        ValueModel::Doc(_) => 0x03,
        ValueModel::Array(_) => 0x04,
        ValueModel::Binary(_, _) => 0x05,
        ValueModel::ObjectId(_) => 0x07,
        ValueModel::Boolean(_) => 0x08,
        ValueModel::UtcDateTime { .. } => 0x09,
        ValueModel::Null => 0x0A,
        ValueModel::Regex { .. } => 0x0B,
        ValueModel::JsCode(_) => 0x0D,
        ValueModel::JsCodeWithScope(_, _) => 0x0F,
        ValueModel::Int32(_) => 0x10,
        ValueModel::Timestamp(_) => 0x11,
        ValueModel::Int64(_) => 0x12,
    }
}

/// The wire byte of a binary subtype.
pub open spec fn subtype_byte(t: BinarySubtype) -> u8 {
    match t {
        BinarySubtype::Generic => 0x00,
        BinarySubtype::Function => 0x01,
        BinarySubtype::BinaryOld => 0x02,
        BinarySubtype::UuidOld => 0x03,
        BinarySubtype::Uuid => 0x04,
        BinarySubtype::Md5 => 0x05,
        BinarySubtype::UserDefined => 0x80,
    }
}

/// The milliseconds a datetime is written as.
pub open spec fn ms_of_datetime(seconds: i64, nanos: u32) -> int {
    seconds * 1000 + nanos / 1_000_000
}

/// A value's payload on the wire.
pub open spec fn enc_value(v: ValueModel) -> Seq<u8>
    decreases value_size(v), 0int,
{
    match v {
        ValueModel::Double(bits) => spec_u64_to_le_bytes(bits),
        ValueModel::Str(s) => enc_string(s),
        ValueModel::Doc(d) => enc_doc(d),
        ValueModel::Array(vs) => {
            let body = enc_array_items(vs, 0);
            enc_i32((body.len() + 5) as i32) + body + seq![0u8]
        },
        ValueModel::Binary(t, b) => enc_i32(b.len() as i32) + seq![subtype_byte(t)] + b,
        ValueModel::ObjectId(b) => b,
        ValueModel::Boolean(x) => seq![
            if x {
                1u8
            } else {
                0u8
            },
        ],
        ValueModel::UtcDateTime { seconds, nanos } => enc_i64(
            ms_of_datetime(seconds, nanos) as i64,
        ),
        ValueModel::Null => Seq::empty(),
        ValueModel::Regex { pattern, flags } => enc_cstring(pattern) + enc_cstring(flags),
        ValueModel::JsCode(s) => enc_string(s),
        ValueModel::JsCodeWithScope(code, scope) => {
            let inner = enc_string(code) + enc_doc(scope);
            enc_i32((inner.len() + 4) as i32) + inner
        },
        ValueModel::Int32(x) => enc_i32(x),
        ValueModel::Timestamp(x) => enc_i64(x),
        ValueModel::Int64(x) => enc_i64(x),
    }
}

/// One element on the wire: tag, key, payload.
pub open spec fn enc_element(key: Seq<char>, v: ValueModel) -> Seq<u8>
    decreases value_size(v), 1int,
{
    seq![tag_of(v)] + enc_cstring(key) + enc_value(v)
}

/// A pair list on the wire, element after element.
pub open spec fn enc_pairs(d: DocModel) -> Seq<u8>
    decreases pairs_size(d), 2int,
{
    if d.len() == 0 {
        Seq::empty()
    } else {
        enc_element(d[0].0, d[0].1) + enc_pairs(d.drop_first())
    }
}

/// An array's elements on the wire, keyed by their positions from `idx` on.
pub open spec fn enc_array_items(vs: Seq<ValueModel>, idx: int) -> Seq<u8>
    decreases values_size(vs), 2int,
{
    if vs.len() == 0 {
        Seq::empty()
    } else {
        enc_element(dec_str(idx), vs[0]) + enc_array_items(vs.drop_first(), idx + 1)
    }
}

/// A document on the wire: total length, elements, terminator.
pub open spec fn enc_doc(d: DocModel) -> Seq<u8>
    decreases pairs_size(d), 3int,
{
    let body = enc_pairs(d);
    enc_i32((body.len() + 5) as i32) + body + seq![0u8]
}

/// Every bound the wire format puts on a value before it can be written:
/// lengths that fit their 32-bit fields, cstring text free of NUL, an object
/// id of exactly twelve bytes, and a datetime that corresponds to a whole
/// count of milliseconds.
pub open spec fn value_encodable(v: ValueModel) -> bool
    decreases value_size(v), 0int,
{
    match v {
        ValueModel::Double(_) => true,
        ValueModel::Str(s) => string_encodable(s),
        ValueModel::Doc(d) => doc_encodable(d),
        ValueModel::Array(vs) => values_encodable(vs) && vs.len() <= usize::MAX
            && enc_array_items(vs, 0).len() + 5 <= 0x7fff_ffff,
        ValueModel::Binary(_, b) => b.len() <= 0x7fff_ffff,
        ValueModel::ObjectId(b) => b.len() == 12,
        ValueModel::Boolean(_) => true,
        ValueModel::UtcDateTime { seconds, nanos } => nanos < 1_000_000_000 && nanos % 1_000_000
            == 0 && i64::MIN <= ms_of_datetime(seconds, nanos) <= i64::MAX,
        ValueModel::Null => true,
        ValueModel::Regex { pattern, flags } => nul_free(pattern) && nul_free(flags),
        ValueModel::JsCode(s) => string_encodable(s),
        ValueModel::JsCodeWithScope(code, scope) => string_encodable(code) && doc_encodable(scope)
            && enc_string(code).len() + enc_doc(scope).len() + 4 <= 0x7fff_ffff,
        ValueModel::Int32(_) => true,
        ValueModel::Timestamp(_) => true,
        ValueModel::Int64(_) => true,
    }
}

/// Encodable pairs: every key NUL-free, every value encodable.
pub open spec fn pairs_encodable(d: DocModel) -> bool
    decreases pairs_size(d), 1int,
{
    if d.len() == 0 {
        true
    } else {
        nul_free(d[0].0) && value_encodable(d[0].1) && pairs_encodable(d.drop_first())
    }
}

/// Encodable values, one after the other.
pub open spec fn values_encodable(vs: Seq<ValueModel>) -> bool
    decreases values_size(vs), 1int,
{
    if vs.len() == 0 {
        true
    } else {
        value_encodable(vs[0]) && values_encodable(vs.drop_first())
    }
}

/// An encodable document: encodable pairs, no key written twice, and a total
/// length that fits its 32-bit field.
pub open spec fn doc_encodable(d: DocModel) -> bool
    decreases pairs_size(d), 2int,
{
    pairs_encodable(d) && doc_keys_unique(d) && enc_pairs(d).len() + 5 <= 0x7fff_ffff
}

/// Removing an absent key changes nothing.
proof fn lemma_remove_absent(d: DocModel, key: Seq<char>)
    requires
        !doc_has_key(d, key),
    ensures
        doc_model_remove(d, key) == d,
    decreases d.len(),
{
    if d.len() > 0 {
        assert(d[0].0 != key);
        assert forall|i: int| 0 <= i < d.drop_first().len() implies (#[trigger] d.drop_first()[i]).0
            != key by {
            assert(d.drop_first()[i] == d[i + 1]);
        }
        lemma_remove_absent(d.drop_first(), key);
        assert(doc_model_remove(d, key) =~= d);
    }
}

/// With no key repeated, reassembling the pairs gives them back unchanged.
pub proof fn lemma_doc_from_pairs_id(d: DocModel)
    requires
        doc_keys_unique(d),
    ensures
        doc_from_pairs(d) == d,
    decreases d.len(),
{
    if d.len() > 0 {
        let init = d.drop_last();
        assert(doc_keys_unique(init));
        lemma_doc_from_pairs_id(init);
        assert forall|i: int| 0 <= i < init.len() implies (#[trigger] init[i]).0
            != d.last().0 by {
            assert(init[i] == d[i]);
        }
        assert(!doc_has_key(init, d.last().0));
        lemma_remove_absent(init, d.last().0);
        assert(doc_from_pairs(d) =~= d);
    }
}

/// The pair list behind an array: the values keyed by their positions,
/// counted from `idx`.
pub open spec fn array_pairs(vs: Seq<ValueModel>, idx: int) -> DocModel
    decreases values_size(vs), 3int,
{
    if vs.len() == 0 {
        Seq::empty()
    } else {
        seq![(dec_str(idx), vs[0])] + array_pairs(vs.drop_first(), idx + 1)
    }
}

/// An array's backing pairs, element by element: positional keys, the
/// array's values, the same sizes and nesting, and the same bytes.
proof fn lemma_array_pairs_props(vs: Seq<ValueModel>, idx: int)
    requires
        0 <= idx,
        values_encodable(vs),
    ensures
        array_pairs(vs, idx).len() == vs.len(),
        forall|i: int|
            0 <= i < vs.len() ==> #[trigger] array_pairs(vs, idx)[i] == (dec_str(idx + i), vs[i]),
        pairs_encodable(array_pairs(vs, idx)),
        pairs_size(array_pairs(vs, idx)) == values_size(vs),
        pairs_depth(array_pairs(vs, idx)) == values_depth(vs),
        enc_pairs(array_pairs(vs, idx)) == enc_array_items(vs, idx),
    decreases values_size(vs),
{
    let ap = array_pairs(vs, idx);
    if vs.len() == 0 {
        assert(enc_pairs(ap) =~= enc_array_items(vs, idx));
    } else {
        lemma_array_pairs_props(vs.drop_first(), idx + 1);
        lemma_dec_str(idx);
        let rest = array_pairs(vs.drop_first(), idx + 1);
        assert(ap[0] == (dec_str(idx), vs[0]));
        assert(ap.drop_first() =~= rest);
        assert forall|i: int| 0 <= i < vs.len() implies #[trigger] ap[i] == (
        dec_str(idx + i), vs[i]) by {
            if i > 0 {
                assert(ap[i] == rest[i - 1]);
                assert(rest[i - 1] == (dec_str(idx + 1 + (i - 1)), vs.drop_first()[i - 1]));
            }
        }
        assert(pairs_encodable(ap));
        assert(pairs_size(ap) == values_size(vs));
        assert(pairs_depth(ap) == values_depth(vs));
        assert(enc_pairs(ap) =~= enc_array_items(vs, idx));
    }
}

/// Reading one payload undoes writing one: with any continuation after it,
/// the parse returns exactly the value and consumes exactly its bytes.
#[verifier::rlimit(100)]
#[verifier::spinoff_prover]
pub proof fn lemma_payload_roundtrip(v: ValueModel, depth: nat, rest: Seq<u8>)
    requires
        value_encodable(v),
        depth >= value_depth(v),
    ensures
        crate::decode::spec_parse_payload(tag_of(v), enc_value(v) + rest, depth) == Ok::<
            (ValueModel, int),
            DecodeError,
        >((v, enc_value(v).len() as int)),
    decreases value_size(v), 0int,
{
    let b = enc_value(v) + rest;
    match v {
        ValueModel::Double(bits) => {
            lemma_auto_spec_u64_to_from_le_bytes();
            assert(b.take(8) =~= spec_u64_to_le_bytes(bits));
        },
        ValueModel::Str(s) => {
            lemma_string_roundtrip(s, rest);
            assert(enc_string(s) + rest =~= b);
        },
        ValueModel::JsCode(s) => {
            lemma_string_roundtrip(s, rest);
            assert(enc_string(s) + rest =~= b);
        },
        ValueModel::Doc(d) => {
            lemma_doc_roundtrip(d, depth, rest);
            assert(enc_doc(d) + rest =~= b);
        },
        ValueModel::Array(vs) => {
            lemma_array_pairs_props(vs, 0);
            let ap = array_pairs(vs, 0);
            assert forall|i: int, j: int|
                0 <= i < j < ap.len() implies (#[trigger] ap[i]).0 != (#[trigger] ap[j]).0 by {
                lemma_dec_str_parses(i);
                lemma_dec_str_parses(j);
                assert(spec_parse_usize(ap[i].0) == Some(i as usize));
                assert(spec_parse_usize(ap[j].0) == Some(j as usize));
            }
            assert(doc_encodable(ap));
            lemma_doc_roundtrip(ap, depth, rest);
            assert(enc_value(v) =~= enc_doc(ap));
            assert(enc_doc(ap) + rest =~= b);
            assert forall|i: int| 0 <= i < ap.len() implies spec_parse_usize(
                (#[trigger] ap[i]).0,
            ) == Some(i as usize) by {
                lemma_dec_str_parses(i);
            }
            assert(spec_is_array(ap));
            assert(crate::doc::doc_model_values(ap) =~= vs);
        },
        ValueModel::Binary(t, payload) => {
            let l = payload.len() as i32;
            lemma_i32_roundtrip(l);
            assert(b.take(4) =~= enc_i32(l));
            assert(b[4] == subtype_byte(t));
            assert(crate::decode::spec_subtype(subtype_byte(t)) == Some(t));
            assert(b.subrange(5, 5 + l as int) =~= payload);
        },
        ValueModel::ObjectId(bytes) => {
            assert(b.take(12) =~= bytes);
        },
        ValueModel::Boolean(x) => {
            assert(b[0] == if x { 1u8 } else { 0u8 });
        },
        ValueModel::UtcDateTime { seconds, nanos } => {
            let ms = ms_of_datetime(seconds, nanos) as i64;
            lemma_i64_roundtrip(ms);
            assert(b.take(8) =~= enc_i64(ms));
            vstd::arithmetic::div_mod::lemma_fundamental_div_mod(nanos as int, 1_000_000);
            vstd::arithmetic::div_mod::lemma_fundamental_div_mod_converse(
                ms as int,
                1000,
                seconds as int,
                nanos as int / 1_000_000,
            );
        },
        ValueModel::Null => {
            assert(enc_value(v).len() == 0);
        },
        ValueModel::Regex { pattern, flags } => {
            lemma_cstring_roundtrip(pattern, enc_cstring(flags) + rest);
            let pn = enc_cstring(pattern).len() as int;
            assert(enc_cstring(pattern) + (enc_cstring(flags) + rest) =~= b);
            assert(b.skip(pn) =~= enc_cstring(flags) + rest);
            lemma_cstring_roundtrip(flags, rest);
        },
        ValueModel::JsCodeWithScope(code, scope) => {
            let inner = enc_string(code) + enc_doc(scope);
            let l2 = (inner.len() + 4) as i32;
            lemma_i32_roundtrip(l2);
            assert(b.take(4) =~= enc_i32(l2));
            let region = b.subrange(4, l2 as int);
            assert(region =~= inner);
            lemma_string_roundtrip(code, enc_doc(scope));
            let sn = enc_string(code).len() as int;
            assert(region.skip(sn) =~= enc_doc(scope) + Seq::<u8>::empty());
            lemma_doc_roundtrip(scope, depth, Seq::empty());
            assert(enc_doc(scope) + Seq::<u8>::empty() =~= enc_doc(scope));
        },
        ValueModel::Int32(x) => {
            lemma_i32_roundtrip(x);
            assert(b.take(4) =~= enc_i32(x));
        },
        ValueModel::Timestamp(x) => {
            lemma_i64_roundtrip(x);
            assert(b.take(8) =~= enc_i64(x));
        },
        ValueModel::Int64(x) => {
            lemma_i64_roundtrip(x);
            assert(b.take(8) =~= enc_i64(x));
        },
    }
}

/// Reading one element undoes writing one.
pub proof fn lemma_element_roundtrip(key: Seq<char>, v: ValueModel, depth: nat, rest: Seq<u8>)
    requires
        nul_free(key),
        value_encodable(v),
        depth >= value_depth(v),
    ensures
        crate::decode::spec_parse_element(enc_element(key, v) + rest, depth) == Ok::<
            ((Seq<char>, ValueModel), int),
            DecodeError,
        >(((key, v), enc_element(key, v).len() as int)),
    decreases value_size(v), 1int,
{
    let b = enc_element(key, v) + rest;
    assert(b[0] == tag_of(v));
    lemma_cstring_roundtrip(key, enc_value(v) + rest);
    let kn = enc_cstring(key).len() as int;
    assert(b.skip(1) =~= enc_cstring(key) + (enc_value(v) + rest));
    assert(b.skip(1 + kn) =~= enc_value(v) + rest);
    lemma_payload_roundtrip(v, depth, rest);
}

/// Reading a run of elements undoes writing one: the whole body parses back
/// to exactly the pairs that were written.
pub proof fn lemma_pairs_roundtrip(d: DocModel, depth: nat)
    requires
        pairs_encodable(d),
        depth >= pairs_depth(d),
    ensures
        crate::decode::spec_parse_elements(enc_pairs(d), depth) == Ok::<
            Seq<(Seq<char>, ValueModel)>,
            DecodeError,
        >(d),
    decreases pairs_size(d), 2int,
{
    if d.len() == 0 {
        assert(enc_pairs(d) =~= Seq::<u8>::empty());
        assert(d =~= Seq::<(Seq<char>, ValueModel)>::empty());
    } else {
        let head = enc_element(d[0].0, d[0].1);
        let tail = enc_pairs(d.drop_first());
        let b = enc_pairs(d);
        assert(b =~= head + tail);
        lemma_element_roundtrip(d[0].0, d[0].1, depth, tail);
        let n = head.len() as int;
        assert(enc_cstring(d[0].0).len() >= 1);
        assert(n >= 2);
        assert(b.skip(n) =~= tail);
        lemma_pairs_roundtrip(d.drop_first(), depth);
        assert((d[0].0, d[0].1) == d[0]);
        assert(seq![d[0]] + d.drop_first() =~= d);
    }
}

/// Reading a document undoes writing one: with any continuation after it,
/// the parse returns exactly the document and consumes exactly its bytes.
pub proof fn lemma_doc_roundtrip(d: DocModel, depth: nat, rest: Seq<u8>)
    requires
        doc_encodable(d),
        depth >= 1 + pairs_depth(d),
    ensures
        crate::decode::spec_parse_doc(enc_doc(d) + rest, depth) == Ok::<
            (DocModel, int),
            DecodeError,
        >((d, enc_doc(d).len() as int)),
    decreases pairs_size(d), 3int,
{
    let body = enc_pairs(d);
    let l = (body.len() + 5) as i32;
    let b = enc_doc(d) + rest;
    lemma_i32_roundtrip(l);
    assert(b.take(4) =~= enc_i32(l));
    assert(b[l as int - 1] == 0);
    assert(b.subrange(4, l as int - 1) =~= body);
    lemma_pairs_roundtrip(d, (depth - 1) as nat);
    lemma_doc_from_pairs_id(d);
}

/// Round trip: any document within the format's bounds decodes from its own
/// encoding, equal pair for pair and in the same key order.
pub proof fn lemma_decode_inverts_encode(d: DocModel)
    requires
        doc_encodable(d),
        1 + pairs_depth(d) <= MAX_DEPTH,
    ensures
        crate::decode::spec_decode(enc_doc(d)) == Ok::<DocModel, DecodeError>(d),
{
    lemma_doc_roundtrip(d, MAX_DEPTH as nat, Seq::empty());
    assert(enc_doc(d) + Seq::<u8>::empty() =~= enc_doc(d));
}

} // verus!
