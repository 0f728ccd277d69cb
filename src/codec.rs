//! The byte encoding of one session value, and of fixed-width integers.
use vstd::prelude::*;
use vstd::utf8::*;

verus! {

broadcast use {encode_utf8_valid_utf8, encode_utf8_decode_utf8};

/// Tag byte of an encoded boolean.
pub const TAG_BOOL: u8 = 0;

/// Tag byte of an encoded integer.
pub const TAG_INT: u8 = 1;

/// Tag byte of an encoded text.
pub const TAG_TEXT: u8 = 2;

/// `256` to the power `k`.
pub open spec fn pow256(k: nat) -> nat
    decreases k,
{
    if k == 0 { 1 } else { 256 * pow256((k - 1) as nat) }
}

/// The `k` low-order bytes of `n`, most significant first.
pub open spec fn be_bytes(n: nat, k: nat) -> Seq<u8>
    decreases k,
{
    if k == 0 {
        seq![]
    } else {
        be_bytes(n / 256, (k - 1) as nat).push((n % 256) as u8)
    }
}

/// The number that `s` spells in base 256, most significant byte first.
pub open spec fn be_value(s: Seq<u8>) -> nat
    decreases s.len(),
{
    if s.len() == 0 { 0 } else { be_value(s.drop_last()) * 256 + s.last() as nat }
}

pub proof fn lemma_be_bytes_len(n: nat, k: nat)
    ensures
        be_bytes(n, k).len() == k,
    decreases k,
{
    if k > 0 {
        lemma_be_bytes_len(n / 256, (k - 1) as nat);
    }
}

/// Reading back the bytes of a number that fits in them gives the number.
pub proof fn lemma_be_round_trip(n: nat, k: nat)
    requires
        n < pow256(k),
    ensures
        be_bytes(n, k).len() == k,
        be_value(be_bytes(n, k)) == n,
    decreases k,
{
    lemma_be_bytes_len(n, k);
    if k > 0 {
        let p = pow256((k - 1) as nat);
        assert(n / 256 < p) by (nonlinear_arith)
            requires
                n < 256 * p,
        ;
        lemma_be_round_trip(n / 256, (k - 1) as nat);
        let s = be_bytes(n, k);
        assert(s.drop_last() == be_bytes(n / 256, (k - 1) as nat));
    }
}

proof fn lemma_pow256_mono(i: nat, j: nat)
    requires
        i <= j,
    ensures
        pow256(i) <= pow256(j),
    decreases j,
{
    if i < j {
        lemma_pow256_mono(i, (j - 1) as nat);
    }
}

proof fn lemma_pow256_8()
    ensures
        pow256(8) == 0x1_0000_0000_0000_0000,
{
    reveal_with_fuel(pow256, 9);
}

/// Appends the `k` low-order bytes of `n` to `out`, most significant first.
pub fn put_be(n: u64, k: usize, out: &mut Vec<u8>)
    ensures
        final(out)@ == old(out)@ + be_bytes(n as nat, k as nat),
    decreases k,
{
    if k > 0 {
        put_be(n / 256, k - 1, out);
        out.push((n % 256) as u8);
    }
}

/// Reads `k` bytes of `b` from `start` as a number, most significant first.
pub fn get_be(b: &[u8], start: usize, k: usize) -> (r: u64)
    requires
        k <= 8,
        start + k <= b@.len(),
    ensures
        r as nat == be_value(b@.subrange(start as int, start + k)),
{
    let mut acc: u64 = 0;
    let mut i: usize = 0;
    let n = b.len();
    while i < k
        invariant
            n == b@.len(),
            i <= k <= 8,
            start + k <= b@.len(),
            acc as nat == be_value(b@.subrange(start as int, start + i)),
            acc < pow256(i as nat),
        decreases k - i,
    {
        assert(start + i < b@.len());
        let byte = b[start + i];
        proof {
            let p = pow256(i as nat);
            lemma_pow256_mono((i + 1) as nat, 8);
            lemma_pow256_8();
            assert(acc * 256 + byte < 256 * p) by (nonlinear_arith)
                requires
                    acc < p,
                    byte < 256,
            ;
            let s = b@.subrange(start as int, start + i + 1);
            assert(s.drop_last() == b@.subrange(start as int, start + i));
        }
        acc = acc * 256 + byte as u64;
        i = i + 1;
    }
    acc
}

/// Appends the bytes of `src` to `out`.
pub fn append_bytes(out: &mut Vec<u8>, src: &[u8])
    ensures
        final(out)@ == old(out)@ + src@,
{
    let mut i: usize = 0;
    while i < src.len()
        invariant
            i <= src@.len(),
            out@ == old(out)@ + src@.subrange(0, i as int),
        decreases src@.len() - i,
    {
        out.push(src[i]);
        i = i + 1;
        assert(out@ == old(out)@ + src@.subrange(0, i as int));
    }
    assert(src@.subrange(0, src@.len() as int) == src@);
}

/// Relies on std::str::from_utf8: it succeeds exactly on valid UTF-8, and the
/// string then holds the characters that the bytes encode.
#[verifier::external_body]
pub(crate) fn text_from_utf8(b: &[u8]) -> (r: Option<String>)
    ensures
        r is Some <==> valid_utf8(b@),
        r matches Some(s) ==> s@ == decode_utf8(b@),
{
    match std::str::from_utf8(b) {
        Ok(s) => Some(s.to_owned()),
        Err(_) => None,
    }
}

/// A value held in a session.
#[derive(Debug, Clone, PartialEq, Eq)]
pub enum SessionValue {
    Bool(bool),
    Int(i64),
    Text(String),
}

/// The kind of value a reader asks for.
#[derive(Debug, Clone, Copy, PartialEq, Eq, Structural)]
pub enum ValueKind {
    Bool,
    Int,
    Text,
}

/// The mathematical content of a [`SessionValue`].
pub enum ValueModel {
    Bool(bool),
    Int(i64),
    Text(Seq<char>),
}

impl View for SessionValue {
    type V = ValueModel;

    open spec fn view(&self) -> ValueModel {
        match self {
            SessionValue::Bool(b) => ValueModel::Bool(*b),
            SessionValue::Int(i) => ValueModel::Int(*i),
            SessionValue::Text(s) => ValueModel::Text(s@),
        }
    }
}

/// Why stored bytes could not be read as the requested kind of value.
#[derive(Debug, Clone, Copy, PartialEq, Eq, Structural)]
pub enum DecodeError {
    /// The bytes hold a well-formed value of another kind.
    WrongKind,
    /// The bytes are not a well-formed encoded value.
    Malformed,
}

pub open spec fn kind_of(v: ValueModel) -> ValueKind {
    match v {
        ValueModel::Bool(_) => ValueKind::Bool,
        ValueModel::Int(_) => ValueKind::Int,
        ValueModel::Text(_) => ValueKind::Text,
    }
}

pub open spec fn tag_of(k: ValueKind) -> u8 {
    match k {
        ValueKind::Bool => TAG_BOOL,
        ValueKind::Int => TAG_INT,
        ValueKind::Text => TAG_TEXT,
    }
}

/// The two's-complement bits of `i`, read as an unsigned number.
pub open spec fn int_bits(i: i64) -> nat {
    if i >= 0 { i as nat } else { (i + 0x1_0000_0000_0000_0000) as nat }
}

/// The integer whose two's-complement bits are the low 64 bits of `n`.
pub open spec fn int_of_bits(n: nat) -> i64 {
    let m = n % 0x1_0000_0000_0000_0000;
    if m < 0x8000_0000_0000_0000 { m as i64 } else { (m - 0x1_0000_0000_0000_0000) as i64 }
}

/// The two's-complement bits of `i`.
fn bits_of_int(i: i64) -> (r: u64)
    ensures
        r as nat == int_bits(i),
{
    if i >= 0 {
        i as u64
    } else {
        ((i + i64::MAX) + 1) as u64 + 0x8000_0000_0000_0000u64
    }
}

/// The integer whose two's-complement bits are `n`.
fn int_from_bits(n: u64) -> (r: i64)
    ensures
        r == int_of_bits(n as nat),
{
    if n < 0x8000_0000_0000_0000u64 {
        n as i64
    } else {
        ((n - 0x8000_0000_0000_0000u64) as i64 - i64::MAX) - 1
    }
}

/// The encoding of a value: a tag byte, then the payload. A boolean is one
/// byte 0 or 1, an integer its eight two's-complement bytes, most significant
/// first, a text its UTF-8 bytes.
pub open spec fn encode_spec(v: ValueModel) -> Seq<u8> {
    match v {
        ValueModel::Bool(b) => seq![TAG_BOOL, if b { 1u8 } else { 0u8 }],
        ValueModel::Int(i) => seq![TAG_INT] + be_bytes(int_bits(i), 8),
        ValueModel::Text(s) => seq![TAG_TEXT] + encode_utf8(s),
    }
}

/// What reading `b` as a value of kind `k` gives.
pub open spec fn decode_spec(b: Seq<u8>, k: ValueKind) -> Result<ValueModel, DecodeError> {
    if b.len() == 0 || b[0] > TAG_TEXT {
        Err(DecodeError::Malformed)
    } else if b[0] != tag_of(k) {
        Err(DecodeError::WrongKind)
    } else {
        let rest = b.drop_first();
        match k {
            ValueKind::Bool => if rest.len() == 1 && rest[0] <= 1 {
                Ok(ValueModel::Bool(rest[0] == 1))
            } else {
                Err(DecodeError::Malformed)
            },
            ValueKind::Int => if rest.len() == 8 {
                Ok(ValueModel::Int(int_of_bits(be_value(rest))))
            } else {
                Err(DecodeError::Malformed)
            },
            ValueKind::Text => if valid_utf8(rest) {
                Ok(ValueModel::Text(decode_utf8(rest)))
            } else {
                Err(DecodeError::Malformed)
            },
        }
    }
}

/// Encoding is lossless: a value reads back as itself under its own kind, and
/// under any other kind the read fails with `WrongKind`.
pub proof fn lemma_value_round_trip(v: ValueModel, k: ValueKind)
    ensures
        k == kind_of(v) ==> decode_spec(encode_spec(v), k) == Ok::<ValueModel, DecodeError>(v),
        k != kind_of(v) ==> decode_spec(encode_spec(v), k) == Err::<ValueModel, DecodeError>(
            DecodeError::WrongKind,
        ),
{
    let b = encode_spec(v);
    match v {
        ValueModel::Bool(x) => {
            assert(b.drop_first() =~= seq![if x { 1u8 } else { 0u8 }]);
            assert(b.len() == 2 && b[0] == TAG_BOOL);
            assert((b.drop_first()[0] == 1) == x);
            assert(b.drop_first().len() == 1 && b.drop_first()[0] <= 1);
            assert(decode_spec(b, ValueKind::Bool) == Ok::<ValueModel, DecodeError>(v));
        },
        ValueModel::Int(i) => {
            lemma_pow256_8();
            lemma_be_round_trip(int_bits(i), 8);
            assert(b.drop_first() =~= be_bytes(int_bits(i), 8));
            assert(int_of_bits(int_bits(i)) == i);
            assert(decode_spec(b, ValueKind::Int) == Ok::<ValueModel, DecodeError>(v));
        },
        ValueModel::Text(s) => {
            assert(b.drop_first() =~= encode_utf8(s));
            assert(decode_spec(b, ValueKind::Text) == Ok::<ValueModel, DecodeError>(v));
        },
    }
}

impl SessionValue {
    /// The kind of this value.
    pub fn kind(&self) -> (k: ValueKind)
        ensures
            k == kind_of(self@),
    {
        match self {
            SessionValue::Bool(_) => ValueKind::Bool,
            SessionValue::Int(_) => ValueKind::Int,
            SessionValue::Text(_) => ValueKind::Text,
        }
    }
}

/// Encodes a value; the same value always gives the same bytes.
pub fn encode(v: &SessionValue) -> (r: Vec<u8>)
    ensures
        r@ == encode_spec(v@),
{
    let mut out: Vec<u8> = Vec::new();
    match v {
        SessionValue::Bool(b) => {
            out.push(TAG_BOOL);
            out.push(if *b { 1u8 } else { 0u8 });
            assert(out@ =~= encode_spec(v@));
        },
        SessionValue::Int(i) => {
            out.push(TAG_INT);
            put_be(bits_of_int(*i), 8, &mut out);
            assert(out@ =~= encode_spec(v@));
        },
        SessionValue::Text(s) => {
            out.push(TAG_TEXT);
            append_bytes(&mut out, s.as_str().as_bytes());
        },
    }
    out
}

/// Reads `b` as a value of kind `k`.
pub fn decode(b: &[u8], k: ValueKind) -> (r: Result<SessionValue, DecodeError>)
    ensures
        match r {
            Ok(v) => decode_spec(b@, k) == Ok::<ValueModel, DecodeError>(v@),
            Err(e) => decode_spec(b@, k) == Err::<ValueModel, DecodeError>(e),
        },
{
    if b.len() == 0 || b[0] > TAG_TEXT {
        return Err(DecodeError::Malformed);
    }
    let tag = b[0];
    let want = match k {
        ValueKind::Bool => TAG_BOOL,
        ValueKind::Int => TAG_INT,
        ValueKind::Text => TAG_TEXT,
    };
    if tag != want {
        return Err(DecodeError::WrongKind);
    }
    let ghost rest = b@.drop_first();
    match k {
        ValueKind::Bool => {
            if b.len() == 2 && b[1] <= 1 {
                Ok(SessionValue::Bool(b[1] == 1))
            } else {
                Err(DecodeError::Malformed)
            }
        },
        ValueKind::Int => {
            if b.len() == 9 {
                let n = get_be(b, 1, 8);
                assert(b@.subrange(1, 9) == rest);
                Ok(SessionValue::Int(int_from_bits(n)))
            } else {
                Err(DecodeError::Malformed)
            }
        },
        ValueKind::Text => {
            let (_, tail) = b.split_at(1);
            assert(tail@ == rest);
            match text_from_utf8(tail) {
                Some(s) => Ok(SessionValue::Text(s)),
                None => Err(DecodeError::Malformed),
            }
        },
    }
}

} // verus!
