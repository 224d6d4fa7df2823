use vstd::prelude::*;
use crate::error::Error;

verus! {

/// The 64 symbols of the standard printable alphabet, in encoding order.
pub open spec fn alphabet() -> Seq<char> {
    seq![
        'A', 'B', 'C', 'D', 'E', 'F', 'G', 'H', 'I', 'J', 'K', 'L', 'M', 'N', 'O', 'P',
        'Q', 'R', 'S', 'T', 'U', 'V', 'W', 'X', 'Y', 'Z', 'a', 'b', 'c', 'd', 'e', 'f',
        'g', 'h', 'i', 'j', 'k', 'l', 'm', 'n', 'o', 'p', 'q', 'r', 's', 't', 'u', 'v',
        'w', 'x', 'y', 'z', '0', '1', '2', '3', '4', '5', '6', '7', '8', '9', '+', '/',
    ]
}

fn alphabet_str() -> (r: &'static str)
    ensures
        r@ == alphabet(),
{
    let s = "ABCDEFGHIJKLMNOPQRSTUVWXYZabcdefghijklmnopqrstuvwxyz0123456789+/";
    proof {
        reveal_strlit("ABCDEFGHIJKLMNOPQRSTUVWXYZabcdefghijklmnopqrstuvwxyz0123456789+/");
        assert(s@ =~= alphabet());
    }
    s
}


/// The symbol at position `i` of the alphabet, as a one-symbol string.
fn symbol(i: usize) -> (r: &'static str)
    requires
        i < 64,
    ensures
        r@ == seq![alphabet()[i as int]],
{
    let a = alphabet_str();
    let r = a.substring_char(i, i + 1);
    assert(r@ =~= seq![alphabet()[i as int]]);
    r
}

/// The four bytes of a fingerprint, most significant first.
pub open spec fn be_bytes(h: u32) -> Seq<u8> {
    seq![(h >> 24u32) as u8, ((h >> 16u32) & 0xffu32) as u8, ((h >> 8u32) & 0xffu32) as u8, (h & 0xffu32) as u8]
}

/// Four bytes written six bits at a time, most significant bits first, in the
/// standard alphabet without padding: the last symbol holds the last two bits
/// followed by four zero bits.
pub open spec fn base64_of_four(b: Seq<u8>) -> Seq<char> {
    seq![
        alphabet()[(b[0] >> 2u8) as int],
        alphabet()[(((b[0] & 3u8) << 4u8) | (b[1] >> 4u8)) as int],
        alphabet()[(((b[1] & 15u8) << 2u8) | (b[2] >> 6u8)) as int],
        alphabet()[(b[2] & 63u8) as int],
        alphabet()[(b[3] >> 2u8) as int],
        alphabet()[((b[3] & 3u8) << 4u8) as int],
    ]
}

/// The short code of a fingerprint.
pub open spec fn code_of(h: u32) -> Seq<char> {
    base64_of_four(be_bytes(h))
}

/// The 32-bit CityHash of a string's UTF-8 bytes.
pub uninterp spec fn city_hash32_of(s: Seq<char>) -> u32;

/// Relies on `fasthash::city::hash32`: the CityHash32 of the bytes handed in,
/// which depends on those bytes alone.
#[verifier::external_body]
pub(crate) fn city_hash32(s: &str) -> (r: u32)
    ensures
        r == city_hash32_of(s@),
{
    fasthash::city::hash32(s)
}

/// Relies on `base64::encode_config` with the standard character set and no
/// padding: four bytes become six symbols of the standard alphabet.
#[verifier::external_body]
fn base64_unpadded(bytes: &[u8]) -> (r: String)
    requires
        bytes@.len() == 4,
    ensures
        r@ == base64_of_four(bytes@),
{
    base64::encode_config(bytes, base64::Config::new(base64::CharacterSet::Standard, false))
}

/// The six-character code of a fingerprint.
pub fn encode_fingerprint(h: u32) -> (r: String)
    ensures
        r@ == code_of(h),
{
    let mut bytes: Vec<u8> = Vec::new();
    bytes.push((h >> 24u32) as u8);
    bytes.push(((h >> 16u32) & 0xffu32) as u8);
    bytes.push(((h >> 8u32) & 0xffu32) as u8);
    bytes.push((h & 0xffu32) as u8);
    assert(bytes@ =~= be_bytes(h));
    base64_unpadded(bytes.as_slice())
}

/// The short code of a URL: its fingerprint, encoded. An empty URL is refused.
pub fn encode(original_url: &str) -> (r: Result<String, Error>)
    ensures
        original_url@.len() == 0 ==> r == Err::<String, Error>(Error::ParamsError),
        original_url@.len() > 0 ==> r is Ok && r->Ok_0@ == code_of(city_hash32_of(original_url@)),
{
    if original_url.unicode_len() == 0 {
        return Err(Error::ParamsError);
    }
    let h = city_hash32(original_url);
    Ok(encode_fingerprint(h))
}


/// The first position at or after `i` that holds `c` in the alphabet, or 64.
pub open spec fn position_from(c: char, i: int) -> int
    decreases 64 - i,
{
    if i >= 64 {
        64
    } else if alphabet()[i] == c {
        i
    } else {
        position_from(c, i + 1)
    }
}

/// The position of `c` in the alphabet, or 64 where it is not a symbol of it.
pub open spec fn position_of(c: char) -> int {
    position_from(c, 0)
}

/// The position of `c` in the alphabet, if it is one of its symbols.
pub fn symbol_position(c: char) -> (r: Option<usize>)
    ensures
        r is None <==> position_of(c) == 64,
        r is Some ==> r->0 == position_of(c) && r->0 < 64 && alphabet()[r->0 as int] == c,
{
    let a = alphabet_str();
    let mut i: usize = 0;
    while i < 64
        invariant
            i <= 64,
            a@ == alphabet(),
            position_from(c, 0) == position_from(c, i as int),
        decreases 64 - i,
    {
        if a.get_char(i) == c {
            return Some(i);
        }
        i = i + 1;
    }
    None
}

/// The decimal digits of a number below 100.
pub open spec fn decimal(n: nat) -> Seq<char>
    recommends
        n < 100,
{
    let digits = seq!['0', '1', '2', '3', '4', '5', '6', '7', '8', '9'];
    if n < 10 {
        seq![digits[n as int]]
    } else {
        seq![digits[(n / 10) as int], digits[(n % 10) as int]]
    }
}

/// A decoded presented code: the canonical code and the collision ordinal.
pub struct Decoded {
    pub canonical: String,
    pub sequence: u32,
}

/// The canonical code of a presented one whose last symbol sits at `pos`: the
/// last symbol is replaced by the one with the four low (ordinal) bits of its
/// position cleared.
pub open spec fn canonical_of(code: Seq<char>, pos: int) -> Seq<char> {
    code.drop_last().push(alphabet()[pos - pos % 16])
}

/// Whether `code` can be decoded: it is not empty and its last character is a
/// symbol of the alphabet.
pub open spec fn decodable(code: Seq<char>) -> bool {
    code.len() > 0 && position_of(code.last()) < 64
}

/// Splits a presented code into its canonical code and the ordinal carried by
/// the low four bits of its last symbol.
pub fn decode(presented: &str) -> (r: Result<Decoded, Error>)
    ensures
        !decodable(presented@) <==> r is Err,
        r is Err ==> r == Err::<Decoded, Error>(Error::ParamsError),
        r is Ok ==> ({
            let pos = position_of(presented@.last());
            &&& r->Ok_0.sequence == pos % 16
            &&& r->Ok_0.canonical@ == canonical_of(presented@, pos)
        }),
{
    let n = presented.unicode_len();
    if n == 0 {
        return Err(Error::ParamsError);
    }
    let last = presented.get_char(n - 1);
    let pos = match symbol_position(last) {
        Some(p) => p,
        None => {
            return Err(Error::ParamsError);
        },
    };
    let sequence = (pos % 16) as u32;
    let variant = pos - pos % 16;
    let mut canonical = String::from_str(presented.substring_char(0, n - 1));
    canonical.append(symbol(variant));
    assert(canonical@ =~= canonical_of(presented@, pos as int));
    Ok(Decoded { canonical, sequence })
}


/// The cache key of a canonical code and an ordinal: `code:ordinal`.
pub open spec fn key_of(code: Seq<char>, sequence: nat) -> Seq<char> {
    code + seq![':'] + decimal(sequence)
}

/// The cache key under which the URL of `(code, sequence)` is kept.
pub fn cache_key(code: &str, sequence: u32) -> (r: String)
    requires
        sequence < 16,
    ensures
        r@ == key_of(code@, sequence as nat),
{
    let digits = "0123456789";
    let colon = ":";
    proof {
        reveal_strlit("0123456789");
        reveal_strlit(":");
    }
    let mut r = String::from_str(code);
    r.append(colon);
    let d = sequence as usize;
    if d < 10 {
        r.append(digits.substring_char(d, d + 1));
    } else {
        r.append(digits.substring_char(1, 2));
        r.append(digits.substring_char(d - 10, d - 9));
    }
    assert(r@ =~= key_of(code@, sequence as nat));
    r
}


/// A code as issued decodes to itself with ordinal 0: the four low bits of its
/// last symbol are the encoding's zero padding.
pub proof fn lemma_issued_code_decodes_to_itself(h: u32)
    ensures
        decodable(code_of(h)),
        position_of(code_of(h).last()) % 16 == 0,
        canonical_of(code_of(h), position_of(code_of(h).last())) == code_of(h),
{
    let b3 = (h & 0xffu32) as u8;
    let k = (b3 & 3u8) << 4u8;
    assert(k == 0 || k == 16 || k == 32 || k == 48) by (bit_vector)
        requires
            k == (b3 & 3u8) << 4u8,
    ;
    assert(be_bytes(h)[3] == b3);
    assert(code_of(h).last() == alphabet()[k as int]);
    reveal_with_fuel(position_from, 50);
    assert(position_of(code_of(h).last()) == k);
    assert(canonical_of(code_of(h), k as int) =~= code_of(h));
}

} // verus!
