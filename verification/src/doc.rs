//! The document data model: ordered key/value pairs, the tagged value union,
//! the decode error taxonomy, and the adapter that reads a document as an
//! array when its keys are exactly "0", "1", ..., "n-1".

use vstd::prelude::*;

verus! {

/// Subtype tag carried by a binary value. Any other subtype byte on the wire
/// is a decode failure, never a silently accepted variant.
#[derive(Debug, Clone, Copy, PartialEq, Eq, Structural)]
pub enum BinarySubtype {
    Generic,
    Function,
    BinaryOld,
    UuidOld,
    Uuid,
    Md5,
    UserDefined,
}

/// Every way a byte buffer can fail to decode. Each decoder states exactly
/// which inputs produce which variant; no failure is coerced into another.
#[derive(Debug, Clone, Copy, PartialEq, Eq, Structural)]
pub enum DecodeError {
    /// Fewer bytes remain than a fixed-size or length-prefixed read requires.
    UnexpectedEof,
    /// A declared length is smaller than its structural minimum.
    InvalidLength,
    /// A document region does not end in the required 0x00 byte.
    MissingTerminator,
    /// Bytes remain after a construct that must consume its whole span.
    TrailingData,
    /// A string payload is not valid UTF-8.
    InvalidUtf8,
    /// A cstring lacks its NUL, or a length-prefixed string its final 0x00.
    UnterminatedString,
    /// An element tag outside the supported set.
    UnknownTypeTag(u8),
    /// A binary subtype byte outside the recognized set.
    InvalidBinarySubtype(u8),
    /// A boolean payload byte other than 0 or 1.
    InvalidBoolean(u8),
    /// An array's backing document fails the index-key-sequence check.
    NotAnArray,
    /// The inner region of a code-with-scope value does not decode exactly.
    InvalidScopedCode,
    /// Document nesting deeper than the configured bound.
    MaxDepthExceeded,
}

/// Mathematical model of a decoded value, used by every contract. Strings are
/// character sequences, byte payloads are byte sequences, and documents are
/// ordered sequences of key/value pairs.
pub enum ValueModel {
    Double(u64),
    Str(Seq<char>),
    Doc(Seq<(Seq<char>, ValueModel)>),
    Array(Seq<ValueModel>),
    Binary(BinarySubtype, Seq<u8>),
    ObjectId(Seq<u8>),
    Boolean(bool),
    UtcDateTime { seconds: i64, nanos: u32 },
    Null,
    Regex { pattern: Seq<char>, flags: Seq<char> },
    JsCode(Seq<char>),
    JsCodeWithScope(Seq<char>, Seq<(Seq<char>, ValueModel)>),
    Int32(i32),
    Timestamp(i64),
    Int64(i64),
}

/// Model of a document: its key/value pairs in order.
pub type DocModel = Seq<(Seq<char>, ValueModel)>;

/// A decoded value. A double is held as its raw IEEE-754 bit pattern, so the
/// decoder itself never computes with floating point; callers reinterpret the
/// bits when they need a number. A datetime is held as seconds since the
/// epoch plus sub-second nanoseconds in [0, 999_999_999]; a timestamp is the
/// opaque 64-bit payload read little-endian.
#[derive(Debug, PartialEq)]
pub enum Value {
    Double(u64),
    Str(String),
    Doc(Document),
    Array(Vec<Value>),
    Binary(BinarySubtype, Vec<u8>),
    ObjectId(Vec<u8>),
    Boolean(bool),
    UtcDateTime { seconds: i64, nanos: u32 },
    Null,
    Regex { pattern: String, flags: String },
    JsCode(String),
    JsCodeWithScope(String, Document),
    Int32(i32),
    Timestamp(i64),
    Int64(i64),
}

/// An ordered sequence of key/value pairs. Insertion order is preserved and
/// significant (arrays depend on it); `insert` keeps keys unique by removing
/// any earlier pair with the same key before appending the new one.
#[derive(Debug, PartialEq)]
pub struct Document {
    pairs: Vec<(String, Value)>,
}

impl View for Value {
    type V = ValueModel;

    open spec fn view(&self) -> ValueModel
        decreases self,
    {
        match self {
            Value::Double(bits) => ValueModel::Double(*bits),
            Value::Str(s) => ValueModel::Str(s@),
            Value::Doc(d) => ValueModel::Doc(d@),
            Value::Array(items) => ValueModel::Array(seq_value_model(items@)),
            Value::Binary(st, bytes) => ValueModel::Binary(*st, bytes@),
            Value::ObjectId(bytes) => ValueModel::ObjectId(bytes@),
            Value::Boolean(b) => ValueModel::Boolean(*b),
            Value::UtcDateTime { seconds, nanos } => ValueModel::UtcDateTime {
                seconds: *seconds,
                nanos: *nanos,
            },
            Value::Null => ValueModel::Null,
            Value::Regex { pattern, flags } => ValueModel::Regex {
                pattern: pattern@,
                flags: flags@,
            },
            Value::JsCode(s) => ValueModel::JsCode(s@),
            Value::JsCodeWithScope(code, scope) => ValueModel::JsCodeWithScope(code@, scope@),
            Value::Int32(x) => ValueModel::Int32(*x),
            Value::Timestamp(x) => ValueModel::Timestamp(*x),
            Value::Int64(x) => ValueModel::Int64(*x),
        }
    }
}

/// The models of a sequence of values, element by element.
pub open spec fn seq_value_model(s: Seq<Value>) -> Seq<ValueModel>
    decreases s,
{
    Seq::new(
        s.len(),
        |i: int|
            if 0 <= i < s.len() {
                s[i]@
            } else {
                ValueModel::Null
            },
    )
}

/// The models of a sequence of pairs, element by element.
pub open spec fn pairs_model(ps: Seq<(String, Value)>) -> DocModel
    decreases ps,
{
    Seq::new(
        ps.len(),
        |i: int|
            if 0 <= i < ps.len() {
                (ps[i].0@, ps[i].1@)
            } else {
                (Seq::<char>::empty(), ValueModel::Null)
            },
    )
}

impl View for Document {
    type V = DocModel;

    closed spec fn view(&self) -> DocModel
        decreases self,
    {
        pairs_model(self.pairs@)
    }
}

/// The pairs of `d` with every pair keyed `key` removed, order otherwise kept.
pub open spec fn doc_model_remove(d: DocModel, key: Seq<char>) -> DocModel
    decreases d.len(),
{
    if d.len() == 0 {
        Seq::empty()
    } else if d[0].0 == key {
        doc_model_remove(d.drop_first(), key)
    } else {
        seq![d[0]] + doc_model_remove(d.drop_first(), key)
    }
}

/// Last write wins: inserting removes every earlier pair with the key and
/// appends the new pair at the end.
pub open spec fn doc_model_insert(d: DocModel, key: Seq<char>, v: ValueModel) -> DocModel {
    doc_model_remove(d, key).push((key, v))
}

/// The document that a run of parsed pairs assembles into: each pair is
/// inserted in order, so a duplicate key keeps only its last occurrence.
pub open spec fn doc_from_pairs(pairs: Seq<(Seq<char>, ValueModel)>) -> DocModel
    decreases pairs.len(),
{
    if pairs.len() == 0 {
        Seq::empty()
    } else {
        doc_model_insert(doc_from_pairs(pairs.drop_last()), pairs.last().0, pairs.last().1)
    }
}

/// The value of the first pair keyed `key`, if any.
pub open spec fn doc_model_get(d: DocModel, key: Seq<char>) -> Option<ValueModel>
    decreases d.len(),
{
    if d.len() == 0 {
        None
    } else if d[0].0 == key {
        Some(d[0].1)
    } else {
        doc_model_get(d.drop_first(), key)
    }
}

/// An ASCII decimal digit.
pub open spec fn is_ascii_digit_char(c: char) -> bool {
    ('0' as u32) <= (c as u32) && (c as u32) <= ('9' as u32)
}

/// The numeric value of a digit character (0 for anything else).
pub open spec fn digit_val(c: char) -> nat {
    if is_ascii_digit_char(c) {
        (c as u32 - '0' as u32) as nat
    } else {
        0
    }
}

/// Every character is an ASCII decimal digit.
pub open spec fn all_digits(s: Seq<char>) -> bool {
    forall|i: int| 0 <= i < s.len() ==> is_ascii_digit_char(#[trigger] s[i])
}

/// The value of a digit string read most-significant first.
pub open spec fn digits_value(s: Seq<char>) -> nat
    decreases s.len(),
{
    if s.len() == 0 {
        0
    } else {
        digits_value(s.drop_last()) * 10 + digit_val(s.last())
    }
}

/// A number's digits: the string with one leading '+' stripped, if present.
pub open spec fn plus_stripped(s: Seq<char>) -> Seq<char> {
    if s.len() > 0 && s[0] == '+' {
        s.drop_first()
    } else {
        s
    }
}

/// What `str::parse::<usize>` accepts: an optional leading '+', then one or
/// more ASCII digits (leading zeros allowed), with a value that fits.
pub open spec fn spec_parse_usize(s: Seq<char>) -> Option<usize> {
    let digits = plus_stripped(s);
    if digits.len() == 0 || !all_digits(digits) {
        None
    } else if digits_value(digits) > usize::MAX {
        None
    } else {
        Some(digits_value(digits) as usize)
    }
}

/// A digit string is worth at least any of its prefixes.
proof fn lemma_digits_value_mono(s: Seq<char>, j: int)
    requires
        0 <= j <= s.len(),
    ensures
        digits_value(s.take(j)) <= digits_value(s),
    decreases s.len() - j,
{
    if j < s.len() {
        assert(s.take(j + 1).drop_last() =~= s.take(j));
        assert(digits_value(s.take(j + 1)) == digits_value(s.take(j)) * 10 + digit_val(
            s.take(j + 1).last(),
        ));
        lemma_digits_value_mono(s, j + 1);
    } else {
        assert(s.take(j) =~= s);
    }
}

/// Decimal parsing of a whole string, as `str::parse::<usize>` does it.
pub fn parse_usize(s: &str) -> (r: Option<usize>)
    ensures
        r == spec_parse_usize(s@),
{
    let n = s.unicode_len();
    let start: usize = if n > 0 && s.get_char(0) == '+' {
        1
    } else {
        0
    };
    let ghost digits = plus_stripped(s@);
    proof {
        assert(digits =~= s@.skip(start as int));
    }
    if start >= n {
        return None;
    }
    let mut acc: usize = 0;
    let mut i: usize = start;
    proof {
        assert(digits.take(0) =~= Seq::<char>::empty());
    }
    while i < n
        invariant
            start <= i <= n,
            n == s@.len(),
            digits == plus_stripped(s@),
            digits =~= s@.skip(start as int),
            start <= 1,
            all_digits(digits.take(i - start)),
            acc == digits_value(digits.take(i - start)),
        decreases n - i,
    {
        let c = s.get_char(i);
        let cu = c as u32;
        let ghost k = i - start;
        proof {
            assert(digits[k as int] == s@[i as int]);
        }
        if cu < 48 || cu > 57 {
            proof {
                assert(!is_ascii_digit_char(digits[k as int]));
                assert(!all_digits(digits));
                assert(spec_parse_usize(s@) is None);
            }
            return None;
        }
        let d = (cu - 48) as usize;
        proof {
            assert(digits.take(k + 1).drop_last() =~= digits.take(k as int));
            assert(digits.take(k + 1).last() == digits[k as int]);
            assert(digits_value(digits.take(k + 1)) == acc * 10 + d);
        }
        let next = match acc.checked_mul(10) {
            Some(t) => t.checked_add(d),
            None => None,
        };
        match next {
            Some(v) => {
                acc = v;
                proof {
                    assert(digits.take(k + 1) =~= digits.take(i - start + 1));
                }
            },
            None => {
                proof {
                    if all_digits(digits) {
                        lemma_digits_value_mono(digits, k + 1);
                        assert(digits_value(digits) > usize::MAX);
                    }
                    assert(spec_parse_usize(s@) is None);
                }
                return None;
            },
        }
        i += 1;
    }
    proof {
        assert(digits.take(i - start) =~= digits);
    }
    Some(acc)
}

/// Every key is exactly the decimal spelling of its own position, in the
/// sense of `str::parse::<usize>`.
pub open spec fn spec_is_array(d: DocModel) -> bool {
    forall|i: int| 0 <= i < d.len() ==> spec_parse_usize((#[trigger] d[i]).0) == Some(i as usize)
}

/// The values of a document's pairs, keys dropped, order kept.
pub open spec fn doc_model_values(d: DocModel) -> Seq<ValueModel> {
    Seq::new(d.len(), |i: int| d[i].1)
}

/// Compare two string slices by their character sequences.
pub fn str_eq(a: &str, b: &str) -> (r: bool)
    ensures
        r == (a@ == b@),
{
    let sa: String = a.to_owned();
    let sb: String = b.to_owned();
    sa == sb
}

impl Document {
    /// The empty document.
    pub fn new() -> (d: Document)
        ensures
            d@ == Seq::<(Seq<char>, ValueModel)>::empty(),
    {
        let d = Document { pairs: Vec::new() };
        proof {
            assert(d@ =~= Seq::<(Seq<char>, ValueModel)>::empty());
        }
        d
    }

    /// How many pairs the document holds.
    pub fn len(&self) -> (n: usize)
        ensures
            n == self@.len(),
    {
        self.pairs.len()
    }

    /// The pair at position `i`, in insertion order.
    pub fn pair_at(&self, i: usize) -> (r: &(String, Value))
        requires
            i < self@.len(),
        ensures
            r.0@ == self@[i as int].0,
            r.1@ == self@[i as int].1,
    {
        &self.pairs[i]
    }

    /// The value stored under `key`, if any (the first match in order).
    pub fn get(&self, key: &str) -> (r: Option<&Value>)
        ensures
            match r {
                Some(v) => doc_model_get(self@, key@) == Some(v@),
                None => doc_model_get(self@, key@) is None,
            },
    {
        let n = self.pairs.len();
        let mut i: usize = 0;
        proof {
            assert(self@.skip(0) =~= self@);
        }
        while i < n
            invariant
                i <= n,
                n == self@.len(),
                doc_model_get(self@, key@) == doc_model_get(self@.skip(i as int), key@),
            decreases n - i,
        {
            proof {
                assert(self@.skip(i as int)[0] == self@[i as int]);
                assert(self@.skip(i as int).drop_first() =~= self@.skip(i as int + 1));
            }
            if str_eq(self.pairs[i].0.as_str(), key) {
                return Some(&self.pairs[i].1);
            }
            i += 1;
        }
        proof {
            assert(self@.skip(n as int) =~= Seq::<(Seq<char>, ValueModel)>::empty());
        }
        None
    }

    /// Put `value` under `key`. Any earlier pair with the same key is removed
    /// and the new pair goes to the end: last write wins, and the key's
    /// position follows its last occurrence.
    pub fn insert(&mut self, key: &str, value: Value)
        ensures
            final(self)@ == doc_model_insert(old(self)@, key@, value@),
    {
        let ghost orig = self@;
        let mut i: usize = 0;
        proof {
            assert(self@.skip(0) =~= self@);
            assert(self@.take(0) =~= Seq::<(Seq<char>, ValueModel)>::empty());
            assert(self@.take(0) + doc_model_remove(self@.skip(0), key@) =~= doc_model_remove(
                orig,
                key@,
            ));
        }
        while i < self.pairs.len()
            invariant
                i <= self.pairs.len(),
                forall|j: int| 0 <= j < i ==> (#[trigger] self@[j]).0 != key@,
                doc_model_remove(orig, key@) == self@.take(i as int) + doc_model_remove(
                    self@.skip(i as int),
                    key@,
                ),
            decreases self.pairs.len() - i,
        {
            proof {
                assert(self@.skip(i as int)[0] == self@[i as int]);
                assert(self@.skip(i as int).drop_first() =~= self@.skip(i as int + 1));
            }
            if str_eq(self.pairs[i].0.as_str(), key) {
                let ghost before = self@;
                self.pairs.remove(i);
                proof {
                    assert(self@ =~= before.remove(i as int));
                    assert(self@.take(i as int) =~= before.take(i as int));
                    assert(self@.skip(i as int) =~= before.skip(i as int + 1));
                    assert(before.take(i as int) + doc_model_remove(before.skip(i as int + 1), key@)
                        == self@.take(i as int) + doc_model_remove(self@.skip(i as int), key@));
                }
            } else {
                proof {
                    assert(self@.take(i as int + 1) =~= self@.take(i as int) + seq![self@[i as int]]);
                    assert(self@.take(i as int) + (seq![self@[i as int]] + doc_model_remove(
                        self@.skip(i as int + 1),
                        key@,
                    )) =~= self@.take(i as int + 1) + doc_model_remove(
                        self@.skip(i as int + 1),
                        key@,
                    ));
                }
                i += 1;
            }
        }
        proof {
            assert(self@.skip(i as int) =~= Seq::<(Seq<char>, ValueModel)>::empty());
            assert(self@.take(i as int) =~= self@);
            assert(doc_model_remove(orig, key@) =~= self@);
        }
        let owned: String = key.to_owned();
        self.pairs.push((owned, value));
        proof {
            assert(self@ =~= doc_model_remove(orig, key@).push((key@, value@)));
        }
    }
}

/// True when iterating the document's keys in order yields exactly the
/// decimal spellings of 0, 1, ..., n-1.
pub fn doc_is_array(doc: &Document) -> (r: bool)
    ensures
        r == spec_is_array(doc@),
{
    let n = doc.len();
    let mut i: usize = 0;
    while i < n
        invariant
            i <= n,
            n == doc@.len(),
            forall|j: int|
                0 <= j < i ==> spec_parse_usize((#[trigger] doc@[j]).0) == Some(j as usize),
        decreases n - i,
    {
        let p = doc.pair_at(i);
        let ok = match parse_usize(p.0.as_str()) {
            Some(v) => v == i,
            None => false,
        };
        if !ok {
            return false;
        }
        i += 1;
    }
    true
}

/// Reinterpret a document as the ordered sequence of its values. The keys
/// must be exactly "0", "1", ..., "n-1" in order; on the first mismatch the
/// whole conversion fails with `NotAnArray` and no partial result.
pub fn doc_to_array(doc: Document) -> (r: Result<Vec<Value>, DecodeError>)
    ensures
        match r {
            Ok(vs) => spec_is_array(doc@) && seq_value_model(vs@) == doc_model_values(doc@),
            Err(e) => !spec_is_array(doc@) && e == DecodeError::NotAnArray,
        },
{
    if !doc_is_array(&doc) {
        return Err(DecodeError::NotAnArray);
    }
    let ghost dm = doc@;
    let Document { pairs } = doc;
    let mut pairs = pairs;
    let mut out: Vec<Value> = Vec::new();
    while pairs.len() > 0
        invariant
            out@.len() + pairs@.len() == dm.len(),
            forall|i: int| 0 <= i < out@.len() ==> (#[trigger] out@[i])@ == dm[i].1,
            forall|j: int|
                0 <= j < pairs@.len() ==> (#[trigger] pairs@[j]).1@ == dm[out@.len() + j].1,
        decreases pairs@.len(),
    {
        let pair = pairs.remove(0);
        out.push(pair.1);
    }
    proof {
        assert(seq_value_model(out@) =~= doc_model_values(dm));
    }
    Ok(out)
}

} // verus!
