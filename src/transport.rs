//! Framing a serialized map for the cookie: an optional signature tag in
//! front, then hex digits so the value is safe in a cookie header.
use vstd::prelude::*;
use vstd::string::StringSliceAdditionalSpecFns;
use vstd::utf8::*;
use hmac::Mac;
use crate::codec::{append_bytes, text_from_utf8};
use crate::cookie_map::{
    keys_unique, law_serialize_round_trip, parse_spec, serialize, CookieMap, EntryModel,
    MAX_SIZE_LIMIT,
};

verus! {

broadcast use {encode_utf8_valid_utf8, encode_utf8_decode_utf8, is_ascii_chars_encode_utf8};

/// The length of a signature tag.
pub const TAG_LEN: usize = 32;

/// The HMAC-SHA256 of `msg` under `key`.
pub uninterp spec fn hmac_sha256_of(key: Seq<u8>, msg: Seq<u8>) -> Seq<u8>;

/// Relies on hmac's `Hmac::<Sha256>::new_from_slice`, which accepts a key of
/// any length (`HmacCore::new_from_slice` always returns `Ok`), and on
/// `finalize`, which gives the 32-byte HMAC-SHA256 of the bytes passed to
/// `update`.
#[verifier::external_body]
fn hmac_sha256(key: &[u8], msg: &[u8]) -> (r: Option<Vec<u8>>)
    ensures
        r is Some,
        r matches Some(t) ==> t@ == hmac_sha256_of(key@, msg@) && t@.len() == TAG_LEN,
{
    match hmac::Hmac::<sha2::Sha256>::new_from_slice(key) {
        Ok(mut m) => {
            m.update(msg);
            Some(m.finalize().into_bytes().to_vec())
        },
        Err(_) => None,
    }
}

/// The tag of `msg` under `key`: its HMAC-SHA256, which is always
/// `TAG_LEN` bytes long.
pub open spec fn tag_spec(key: Seq<u8>, msg: Seq<u8>) -> Seq<u8> {
    let t = hmac_sha256_of(key, msg);
    if t.len() == TAG_LEN { t } else { Seq::new(TAG_LEN as nat, |i: int| 0u8) }
}

/// The signed form of `payload`: its tag under `key`, then the payload.
pub open spec fn sealed_spec(key: Seq<u8>, payload: Seq<u8>) -> Seq<u8> {
    tag_spec(key, payload) + payload
}

/// Whether `b` starts with the tag `expected`: a tag of the right length
/// that equals the first bytes of `b`.
pub open spec fn tag_ok(b: Seq<u8>, expected: Seq<u8>) -> bool {
    expected.len() == TAG_LEN && b.len() >= TAG_LEN && b.subrange(0, TAG_LEN as int) == expected
}

/// What checking the signed form `b` under `key` gives: the payload when the
/// tag in front is the payload's tag.
pub open spec fn unsealed_spec(key: Seq<u8>, b: Seq<u8>) -> Option<Seq<u8>> {
    if b.len() >= TAG_LEN && tag_ok(b, tag_spec(key, b.subrange(TAG_LEN as int, b.len() as int))) {
        Some(b.subrange(TAG_LEN as int, b.len() as int))
    } else {
        None
    }
}

/// Signs `payload` under `key`.
pub fn seal(key: &[u8], payload: &[u8]) -> (r: Vec<u8>)
    ensures
        r@ == sealed_spec(key@, payload@),
{
    match hmac_sha256(key, payload) {
        Some(tag) => {
            let mut out = tag;
            append_bytes(&mut out, payload);
            out
        },
        None => Vec::new(),
    }
}

/// Compares `b`'s first bytes with `expected`, looking at every byte
/// whatever it finds, so the time taken does not tell where they differ.
pub fn tag_matches(b: &[u8], expected: &[u8]) -> (r: bool)
    ensures
        r == tag_ok(b@, expected@),
{
    if expected.len() != TAG_LEN || b.len() < TAG_LEN {
        return false;
    }
    let mut diff: u8 = 0;
    let mut i: usize = 0;
    assert(b@.subrange(0, 0) =~= expected@.subrange(0, 0));
    while i < TAG_LEN
        invariant
            i <= TAG_LEN,
            expected@.len() == TAG_LEN,
            b@.len() >= TAG_LEN,
            (diff == 0) <==> b@.subrange(0, i as int) == expected@.subrange(0, i as int),
        decreases TAG_LEN - i,
    {
        let x = b[i];
        let y = expected[i];
        let d = diff;
        assert((d | (x ^ y)) == 0 <==> (d == 0 && x == y)) by (bit_vector);
        proof {
            let bs = b@.subrange(0, i + 1);
            let es = expected@.subrange(0, i + 1);
            assert(bs.drop_last() =~= b@.subrange(0, i as int));
            assert(es.drop_last() =~= expected@.subrange(0, i as int));
            if bs == es {
                assert(bs[i as int] == es[i as int]);
            }
            if d == 0 && x == y {
                assert(bs =~= es);
            }
        }
        diff = diff | (x ^ y);
        i = i + 1;
    }
    assert(expected@.subrange(0, TAG_LEN as int) =~= expected@);
    diff == 0
}

/// Checks the signed form `b` under `key`: the payload when the tag in front
/// is right, nothing otherwise.
pub fn unseal(key: &[u8], b: &[u8]) -> (r: Option<Vec<u8>>)
    ensures
        match r {
            Some(p) => unsealed_spec(key@, b@) == Some(p@),
            None => unsealed_spec(key@, b@) is None,
        },
{
    if b.len() < TAG_LEN {
        return None;
    }
    let payload = vstd::slice::slice_subrange(b, TAG_LEN, b.len());
    match hmac_sha256(key, payload) {
        Some(tag) => {
            if tag_matches(b, tag.as_slice()) {
                let mut out: Vec<u8> = Vec::new();
                append_bytes(&mut out, payload);
                Some(out)
            } else {
                None
            }
        },
        None => None,
    }
}

/// Signing and then checking under the same key gives back the payload.
pub proof fn law_seal_round_trip(key: Seq<u8>, payload: Seq<u8>)
    ensures
        unsealed_spec(key, sealed_spec(key, payload)) == Some(payload),
{
    let b = sealed_spec(key, payload);
    assert(b.subrange(TAG_LEN as int, b.len() as int) =~= payload);
    assert(b.subrange(0, TAG_LEN as int) =~= tag_spec(key, payload));
}

/// The lower-case hex digit of `d`.
pub open spec fn hex_digit(d: u8) -> u8 {
    if d < 10 { (48 + d) as u8 } else { (87 + d) as u8 }
}

/// The value of a hex digit, either case, if `c` is one.
pub open spec fn digit_value(c: u8) -> Option<u8> {
    if 48 <= c <= 57 {
        Some((c - 48) as u8)
    } else if 97 <= c <= 102 {
        Some((c - 87) as u8)
    } else if 65 <= c <= 70 {
        Some((c - 55) as u8)
    } else {
        None
    }
}

/// Two lower-case hex digits for each byte, high half first.
pub open spec fn hex_spec(b: Seq<u8>) -> Seq<u8>
    decreases b.len(),
{
    if b.len() == 0 {
        seq![]
    } else {
        hex_spec(b.drop_last()) + seq![hex_digit(b.last() / 16), hex_digit(b.last() % 16)]
    }
}

/// The bytes that the hex digits `h` spell, if they are an even number of
/// hex digits.
pub open spec fn unhex_spec(h: Seq<u8>) -> Option<Seq<u8>>
    decreases h.len(),
{
    if h.len() == 0 {
        Some(seq![])
    } else if h.len() % 2 == 1 {
        None
    } else {
        let n = h.len() as int;
        match (unhex_spec(h.subrange(0, n - 2)), digit_value(h[n - 2]), digit_value(h[n - 1])) {
            (Some(front), Some(hi), Some(lo)) => Some(front.push((hi * 16 + lo) as u8)),
            _ => None,
        }
    }
}

proof fn lemma_hex_len(b: Seq<u8>)
    ensures
        hex_spec(b).len() == 2 * b.len(),
        forall|i: int| 0 <= i < hex_spec(b).len() ==> #[trigger] hex_spec(b)[i] < 128,
    decreases b.len(),
{
    if b.len() > 0 {
        lemma_hex_len(b.drop_last());
    }
}

/// Hex digits read back as the bytes they were made from.
pub proof fn law_hex_round_trip(b: Seq<u8>)
    ensures
        unhex_spec(hex_spec(b)) == Some(b),
    decreases b.len(),
{
    if b.len() > 0 {
        law_hex_round_trip(b.drop_last());
        lemma_hex_len(b.drop_last());
        let h = hex_spec(b);
        let n = h.len() as int;
        lemma_hex_len(b);
        assert(h.subrange(0, n - 2) =~= hex_spec(b.drop_last()));
        let x = b.last();
        assert(digit_value(hex_digit(x / 16)) == Some((x / 16) as u8));
        assert(digit_value(hex_digit(x % 16)) == Some((x % 16) as u8));
        assert(((x / 16) * 16 + x % 16) as u8 == x);
        assert(b.drop_last().push(x) =~= b);
    }
}

fn hex_digit_of(d: u8) -> (r: u8)
    requires
        d < 16,
    ensures
        r == hex_digit(d),
{
    if d < 10 { 48 + d } else { 87 + d }
}

fn digit_value_of(c: u8) -> (r: Option<u8>)
    ensures
        r == digit_value(c),
{
    if 48 <= c && c <= 57 {
        Some(c - 48)
    } else if 97 <= c && c <= 102 {
        Some(c - 87)
    } else if 65 <= c && c <= 70 {
        Some(c - 55)
    } else {
        None
    }
}

/// The ASCII characters that the bytes `b` stand for.
pub open spec fn ascii_chars(b: Seq<u8>) -> Seq<char> {
    b.map_values(|x: u8| x as char)
}

/// Writes `b` as lower-case hex digits.
pub fn to_hex(b: &[u8]) -> (r: String)
    ensures
        r@ == ascii_chars(hex_spec(b@)),
        encode_utf8(r@) == hex_spec(b@),
{
    let mut out: Vec<u8> = Vec::new();
    let mut i: usize = 0;
    while i < b.len()
        invariant
            i <= b@.len(),
            out@ == hex_spec(b@.subrange(0, i as int)),
        decreases b@.len() - i,
    {
        let x = b[i];
        out.push(hex_digit_of(x / 16));
        out.push(hex_digit_of(x % 16));
        proof {
            let s = b@.subrange(0, i + 1);
            assert(s.drop_last() =~= b@.subrange(0, i as int));
            assert(out@ =~= hex_spec(s));
        }
        i = i + 1;
    }
    assert(b@.subrange(0, i as int) =~= b@);
    proof {
        lemma_hex_len(b@);
        let chars = ascii_chars(out@);
        assert(is_ascii_chars(chars));
        assert(encode_utf8(chars) =~= out@);
    }
    match text_from_utf8(out.as_slice()) {
        Some(s) => s,
        None => String::new(),
    }
}

/// Reads hex digits back into bytes; nothing when `s` is not an even
/// number of hex digits.
pub fn from_hex(s: &str) -> (r: Option<Vec<u8>>)
    ensures
        match r {
            Some(b) => unhex_spec(s.spec_bytes()) == Some(b@),
            None => unhex_spec(s.spec_bytes()) is None,
        },
{
    let h = s.as_bytes();
    let n = h.len();
    if n % 2 == 1 {
        return None;
    }
    let mut out: Vec<u8> = Vec::new();
    let mut i: usize = 0;
    while i < n
        invariant
            n == h@.len(),
            h@ == s.spec_bytes(),
            n % 2 == 0,
            i <= n,
            i % 2 == 0,
            unhex_spec(h@.subrange(0, i as int)) == Some(out@),
        decreases n - i,
    {
        let hi = digit_value_of(h[i]);
        let lo = digit_value_of(h[i + 1]);
        let ghost next = h@.subrange(0, i + 2);
        assert(next.subrange(0, i as int) =~= h@.subrange(0, i as int));
        assert(next[i as int] == h@[i as int] && next[i + 1] == h@[i + 1]);
        assert(next.len() == i + 2);
        match (hi, lo) {
            (Some(a), Some(b)) => {
                out.push(a * 16 + b);
                i = i + 2;
            },
            _ => {
                proof {
                    assert(unhex_spec(next) is None);
                    lemma_unhex_prefix(h@, i + 2);
                }
                return None;
            },
        }
    }
    assert(h@.subrange(0, n as int) =~= h@);
    Some(out)
}

/// How the cookie's contents are protected from the client.
pub enum Protection {
    /// The serialized map as it is.
    Plain,
    /// The serialized map signed under this key.
    Signed(Vec<u8>),
}

/// The bytes that go into the cookie, before hex: the serialized entries,
/// signed when the protection asks for it.
pub open spec fn framed_spec(es: Seq<EntryModel>, p: Protection) -> Seq<u8> {
    match p {
        Protection::Plain => serialize(es),
        Protection::Signed(k) => sealed_spec(k@, serialize(es)),
    }
}

/// The entries taken from serialized bytes under the bound `max`: none
/// unless the bytes fit the bound and parse to entries with unique keys.
pub open spec fn accept_spec(b: Seq<u8>, max: nat) -> Seq<EntryModel> {
    if b.len() <= max && parse_spec(b) is Some && keys_unique(parse_spec(b)->0) {
        parse_spec(b)->0
    } else {
        Seq::empty()
    }
}

/// The entries that an inbound cookie value gives: none when there is no
/// value, when it is not hex, when its signature fails, or when its bytes are
/// not a serialized map within the bound.
pub open spec fn inbound_spec(v: Option<Seq<u8>>, p: Protection, max: nat) -> Seq<EntryModel> {
    match v {
        None => Seq::empty(),
        Some(text) => match unhex_spec(text) {
            None => Seq::empty(),
            Some(b) => match p {
                Protection::Plain => accept_spec(b, max),
                Protection::Signed(k) => match unsealed_spec(k@, b) {
                    None => Seq::empty(),
                    Some(payload) => accept_spec(payload, max),
                },
            },
        },
    }
}

/// The bytes of an inbound cookie value.
pub open spec fn value_bytes(v: Option<&str>) -> Option<Seq<u8>> {
    match v {
        None => None,
        Some(s) => Some(s.spec_bytes()),
    }
}

impl CookieMap {
    /// The outgoing cookie value: the serialized map, signed when `p` asks
    /// for it, as lower-case hex digits.
    pub fn to_cookie(&self, p: &Protection) -> (r: String)
        requires
            self.wf(),
        ensures
            r@ == ascii_chars(hex_spec(framed_spec(self@, *p))),
            encode_utf8(r@) == hex_spec(framed_spec(self@, *p)),
    {
        let payload = self.to_bytes();
        match p {
            Protection::Plain => to_hex(payload.as_slice()),
            Protection::Signed(k) => {
                let sealed = seal(k.as_slice(), payload.as_slice());
                to_hex(sealed.as_slice())
            },
        }
    }

    /// The map that an inbound cookie value holds, under the bound
    /// `max_size`. A missing, malformed, oversized, or tampered value gives
    /// an empty map, never an error.
    pub fn from_cookie(v: Option<&str>, p: &Protection, max_size: usize) -> (r: CookieMap)
        requires
            max_size <= MAX_SIZE_LIMIT,
        ensures
            r.wf(),
            r.bound() == max_size,
            r@ == inbound_spec(value_bytes(v), *p, max_size as nat),
    {
        let bytes = match v {
            None => {
                return CookieMap::new(max_size);
            },
            Some(s) => match from_hex(s) {
                None => {
                    return CookieMap::new(max_size);
                },
                Some(b) => b,
            },
        };
        let payload = match p {
            Protection::Plain => bytes,
            Protection::Signed(k) => match unseal(k.as_slice(), bytes.as_slice()) {
                None => {
                    return CookieMap::new(max_size);
                },
                Some(pl) => pl,
            },
        };
        match CookieMap::from_bytes(payload.as_slice(), max_size) {
            Some(m) => m,
            None => CookieMap::new(max_size),
        }
    }
}

/// A well-formed map written to a cookie and read back under the same
/// protection and bound is the same map.
pub proof fn law_cookie_round_trip(m: &CookieMap, p: Protection)
    requires
        m.wf(),
    ensures
        inbound_spec(Some(hex_spec(framed_spec(m@, p))), p, m.bound()) == m@,
{
    law_serialize_round_trip(m);
    law_hex_round_trip(framed_spec(m@, p));
    match p {
        Protection::Plain => {},
        Protection::Signed(k) => {
            law_seal_round_trip(k@, serialize(m@));
        },
    }
}

/// A signed cookie whose tag is not the tag of the payload after it, under
/// the key in use, reads as an empty session, never as an error.
pub proof fn law_forged_cookie_is_empty(text: Seq<u8>, p: Protection, max: nat)
    requires
        p is Signed,
        unhex_spec(text) is Some,
        unsealed_spec(p->Signed_0@, unhex_spec(text)->0) is None,
    ensures
        inbound_spec(Some(text), p, max) == Seq::<EntryModel>::empty(),
{
}

/// Bad digits in a prefix make the whole input unreadable.
proof fn lemma_unhex_prefix(h: Seq<u8>, k: int)
    requires
        0 <= k <= h.len(),
        k % 2 == 0,
        h.len() % 2 == 0,
        unhex_spec(h.subrange(0, k)) is None,
    ensures
        unhex_spec(h) is None,
    decreases h.len() - k,
{
    if k < h.len() {
        let p = h.subrange(0, k + 2);
        assert(p.subrange(0, k) =~= h.subrange(0, k));
        lemma_unhex_prefix(h, k + 2);
    } else {
        assert(h.subrange(0, k) =~= h);
    }
}

} // verus!
