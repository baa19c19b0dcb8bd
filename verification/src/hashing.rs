//! A short, stable fingerprint of serialized feature data.
use base64::Engine;
use vstd::prelude::*;

verus! {

/// The 128-bit XXH3 hash of `data` (as `xxhash_rust::xxh3::xxh3_128` computes it).
pub uninterp spec fn xxh3_128_of(data: Seq<u8>) -> u128;

/// The character for a 6-bit value in the URL-safe base64 alphabet:
/// `A`-`Z`, `a`-`z`, `0`-`9`, `-`, `_`.
pub open spec fn url_safe_digit(v: int) -> char {
    if v < 26 {
        (65 + v) as char
    } else if v < 52 {
        (97 + (v - 26)) as char
    } else if v < 62 {
        (48 + (v - 52)) as char
    } else if v == 62 {
        '-'
    } else {
        '_'
    }
}

/// The padded base64 text of `data` over the URL-safe alphabet: every three
/// bytes give four characters, six bits each, high bits first; a last group of
/// one or two bytes is filled with zero bits and padded with `=` to four.
pub open spec fn url_safe_base64(data: Seq<u8>) -> Seq<char>
    decreases data.len(),
{
    if data.len() == 0 {
        Seq::empty()
    } else if data.len() == 1 {
        seq![url_safe_digit((data[0] as int) / 4), url_safe_digit(((data[0] as int) % 4) * 16), '=', '=']
    } else if data.len() == 2 {
        seq![
            url_safe_digit((data[0] as int) / 4),
            url_safe_digit(((data[0] as int) % 4) * 16 + (data[1] as int) / 16),
            url_safe_digit(((data[1] as int) % 16) * 4),
            '=',
        ]
    } else {
        seq![
            url_safe_digit((data[0] as int) / 4),
            url_safe_digit(((data[0] as int) % 4) * 16 + (data[1] as int) / 16),
            url_safe_digit(((data[1] as int) % 16) * 4 + (data[2] as int) / 64),
            url_safe_digit((data[2] as int) % 64),
        ] + url_safe_base64(data.skip(3))
    }
}

/// The length of the encoding, and its padding where one byte is left over.
pub proof fn lemma_url_safe_base64_len(data: Seq<u8>)
    ensures
        url_safe_base64(data).len() == 4 * ((data.len() + 2) / 3),
        data.len() % 3 == 1 ==> url_safe_base64(data)[url_safe_base64(data).len() - 2] == '='
            && url_safe_base64(data)[url_safe_base64(data).len() - 1] == '=',
    decreases data.len(),
{
    let n = data.len();
    if n == 1 {
        assert(url_safe_base64(data).len() == 4);
    } else if n == 2 {
        assert(url_safe_base64(data).len() == 4);
    } else if n >= 3 {
        let rest = data.skip(3);
        let tail = url_safe_base64(rest);
        lemma_url_safe_base64_len(rest);
        let whole = url_safe_base64(data);
        assert(whole.len() == 4 + tail.len());
        assert((n + 2) / 3 == (rest.len() + 2) / 3 + 1);
        if n % 3 == 1 {
            assert(rest.len() % 3 == 1);
            assert(tail.len() >= 4);
            assert(whole[whole.len() - 2] == tail[tail.len() - 2]);
            assert(whole[whole.len() - 1] == tail[tail.len() - 1]);
        }
    }
}

/// Calls `xxhash_rust::xxh3::xxh3_128`; its result is named `xxh3_128_of` of the bytes.
#[verifier::external_body]
fn xxh3_128(data: &[u8]) -> (r: u128)
    ensures
        r == xxh3_128_of(data@),
{
    xxhash_rust::xxh3::xxh3_128(data)
}

/// Calls `Engine::encode` of `base64::prelude::BASE64_URL_SAFE` (URL-safe
/// alphabet, with padding); its result is the padded URL-safe base64 text of the
/// bytes.
#[verifier::external_body]
fn base64_url_safe(data: &[u8]) -> (r: String)
    ensures
        r@ == url_safe_base64(data@),
{
    base64::prelude::BASE64_URL_SAFE.encode(data)
}

/// The 16 bytes of `x`, least significant first.
pub open spec fn le_bytes(x: u128) -> Seq<u8> {
    Seq::new(16, |i: int| ((x >> (8 * i) as u128) & 0xff) as u8)
}

/// The 16 bytes of `x`, least significant first (what `u128::to_le_bytes` gives).
pub fn to_le_bytes(x: u128) -> (r: Vec<u8>)
    ensures
        r@ == le_bytes(x),
{
    let mut r: Vec<u8> = Vec::new();
    let mut i: u32 = 0;
    while i < 16
        invariant
            i <= 16,
            r@.len() == i,
            forall|j: int| 0 <= j < i ==> #[trigger] r@[j] == ((x >> (8 * j) as u128) & 0xff) as u8,
        decreases 16 - i,
    {
        let shift: u32 = 8 * i;
        let byte: u8 = ((x >> shift) & 0xff) as u8;
        assert(byte == ((x >> (8 * i) as u128) & 0xff) as u8) by (bit_vector)
            requires
                shift == 8 * i,
                i < 16,
                byte == ((x >> shift) & 0xff) as u8,
        ;
        r.push(byte);
        i = i + 1;
    }
    assert(r@ =~= le_bytes(x));
    r
}

/// The fingerprint of serialized data: the XXH3 128-bit hash of the bytes, its
/// 16 bytes least significant first, in padded URL-safe base64: 24 characters,
/// the last two `=`.
pub fn hash_bytes(data: &[u8]) -> (r: String)
    ensures
        r@ == url_safe_base64(le_bytes(xxh3_128_of(data@))),
        r@.len() == 24,
        r@[22] == '=' && r@[23] == '=',
{
    let hash = xxh3_128(data);
    let bytes = to_le_bytes(hash);
    proof {
        lemma_url_safe_base64_len(le_bytes(hash));
    }
    base64_url_safe(bytes.as_slice())
}

} // verus!
