//! Connection keys and the text in which they travel in a websocket address.
use crate::text::{append_hex_digit, hex_digit};
use base64::Engine;
use rand::{RngCore, SeedableRng};
use vstd::prelude::*;
use vstd::string::*;

verus! {

/// Length in bytes of a connection key.
pub const KEY_SIZE: usize = 256;

/// Length in characters of the text of a connection key.
pub const KEY_TEXT_SIZE: usize = 344;

/// The raw bytes of a connection key.
pub type EncodedKey = [u8; KEY_SIZE];

/// The character that stands for a six-bit value in the URL-safe base64 alphabet:
/// `A` to `Z`, `a` to `z`, `0` to `9`, `-`, `_`.
pub open spec fn symbol(value: int) -> char {
    if value < 26 {
        ('A' as int + value) as char
    } else if value < 52 {
        ('a' as int + (value - 26)) as char
    } else if value < 62 {
        ('0' as int + (value - 52)) as char
    } else if value == 62 {
        '-'
    } else {
        '_'
    }
}

/// The byte at `i`, or zero past the end.
pub open spec fn byte_or_zero(bytes: Seq<u8>, i: int) -> int {
    if i < bytes.len() {
        bytes[i] as int
    } else {
        0
    }
}

/// Character `i` of the padded URL-safe base64 text of `bytes`: every three bytes give
/// four characters of six bits each, and `=` fills the places that no byte reaches.
pub open spec fn base64_char(bytes: Seq<u8>, i: int) -> char {
    let first = 3 * (i / 4);
    let a = byte_or_zero(bytes, first);
    let b = byte_or_zero(bytes, first + 1);
    let c = byte_or_zero(bytes, first + 2);
    if i % 4 == 0 {
        symbol(a / 4)
    } else if i % 4 == 1 {
        symbol((a % 4) * 16 + b / 16)
    } else if i % 4 == 2 {
        if first + 1 < bytes.len() {
            symbol((b % 16) * 4 + c / 64)
        } else {
            '='
        }
    } else {
        if first + 2 < bytes.len() {
            symbol(c % 64)
        } else {
            '='
        }
    }
}

/// The padded URL-safe base64 text of `bytes`.
pub open spec fn base64_url_safe(bytes: Seq<u8>) -> Seq<char> {
    Seq::new((4 * ((bytes.len() + 2) / 3)) as nat, |i: int| base64_char(bytes, i))
}

/// Whether a character can stand in the text of a key.
pub open spec fn is_key_char(c: char) -> bool {
    ||| 'A' <= c <= 'Z'
    ||| 'a' <= c <= 'z'
    ||| '0' <= c <= '9'
    ||| c == '-'
    ||| c == '_'
    ||| c == '='
}

/// The hexadecimal text of `bytes`: two digits for each byte, the higher one first.
pub open spec fn hex_text(bytes: Seq<u8>) -> Seq<char> {
    Seq::new(
        2 * bytes.len(),
        |i: int| hex_digit(if i % 2 == 0 {
            bytes[i / 2] as int / 16
        } else {
            bytes[i / 2] as int % 16
        }),
    )
}

/// Calls `base64::Engine::encode` on the engine `general_purpose::URL_SAFE`.
///
/// Believed: the result is the base64 text of the key in the URL-safe alphabet, with
/// padding.
#[verifier::external_body]
fn encode_url_safe(key: &EncodedKey) -> (text: String)
    ensures
        text@ == base64_url_safe(key@),
{
    base64::engine::general_purpose::URL_SAFE.encode(key)
}

/// `rand::rngs::StdRng`, a generator fit for keys.
#[verifier::external_type_specification]
#[verifier::external_body]
pub struct ExStdRng(rand::rngs::StdRng);

/// Calls `StdRng::try_from_os_rng`, of `rand::SeedableRng`.
///
/// Nothing is believed of the generator, whose seed is random, nor of when there is one:
/// there is none where the operating system has no entropy to give.
#[verifier::external_body]
fn seeded_by_os() -> (rng: Option<rand::rngs::StdRng>) {
    rand::rngs::StdRng::try_from_os_rng().ok()
}

/// What `StdRng::fill_bytes`, of `rand::RngCore`, writes over a key: the next bytes of the
/// generator's stream. The state that the generator is in alone decides on them.
pub uninterp spec fn next_key_bytes(rng: rand::rngs::StdRng) -> Seq<u8>;

/// Whether the bytes of a key are the next ones of some generator.
pub open spec fn is_drawn(key: Seq<u8>) -> bool {
    exists|rng: rand::rngs::StdRng| key == #[trigger] next_key_bytes(rng)
}

/// Calls `StdRng::fill_bytes`, of `rand::RngCore`, on the whole key.
///
/// Believed: every byte of the key is overwritten with the next one of the generator's
/// stream. The state that the generator is left in is not stated.
#[verifier::external_body]
fn fill_key(rng: &mut rand::rngs::StdRng, key: &mut EncodedKey)
    ensures
        final(key)@ == next_key_bytes(*old(rng)),
{
    rng.fill_bytes(key)
}

/// Base64 encode the key to a string to be used in the websocket URL.
pub fn encode_key_string(key: &EncodedKey) -> (text: String)
    ensures
        text@ == base64_url_safe(key@),
        text@.len() == KEY_TEXT_SIZE,
{
    encode_url_safe(key)
}

/// The hexadecimal text of a key: two lowercase digits for each byte, in order.
pub fn encode_key_hex(key: &EncodedKey) -> (text: String)
    ensures
        text@ == hex_text(key@),
{
    let mut text = String::new();
    assert(text@ =~= hex_text(key@.take(0)));
    let mut i: usize = 0;
    while i < KEY_SIZE
        invariant
            i <= KEY_SIZE,
            text@ == hex_text(key@.take(i as int)),
        decreases KEY_SIZE - i,
    {
        let byte = key[i];
        append_hex_digit(&mut text, byte / 16);
        append_hex_digit(&mut text, byte % 16);
        i = i + 1;
        assert(text@ =~= hex_text(key@.take(i as int)));
    }
    assert(key@.take(i as int) =~= key@);
    text
}

/// A key of the next bytes of the generator, with its hexadecimal text; none where there is
/// no generator.
pub fn key_from(rng: Option<rand::rngs::StdRng>) -> (key: Option<(EncodedKey, String)>)
    ensures
        match (rng, key) {
            (Some(rng), Some((bytes, text))) => bytes@ == next_key_bytes(rng) && text@ == hex_text(
                next_key_bytes(rng),
            ),
            (None, None) => true,
            _ => false,
        },
{
    match rng {
        Some(mut rng) => {
            let mut key: EncodedKey = [0u8; KEY_SIZE];
            fill_key(&mut rng, &mut key);
            let text = encode_key_hex(&key);
            Some((key, text))
        },
        None => None,
    }
}

/// Create a secure key for the websocket connection.
/// Returns the key as a byte array and a hex-encoded string representation of the key.
///
/// All of its bytes are drawn from a generator that the operating system seeds; there is no
/// key where it has no entropy to give. The seed is random, so that no clause can say which
/// bytes they are.
pub fn create_secure_key() -> (key: Option<(EncodedKey, String)>)
    ensures
        key matches Some((bytes, text)) ==> is_drawn(bytes@) && text@ == hex_text(bytes@),
        key matches Some((bytes, _)) ==> exists|rng: rand::rngs::StdRng|
            bytes@ == #[trigger] next_key_bytes(rng),
{
    let rng = seeded_by_os();
    key_from(rng)
}

proof fn lemma_symbol_is_key_char(value: int)
    requires
        0 <= value < 64,
    ensures
        is_key_char(symbol(value)),
{
}

proof fn lemma_symbol_injective(x: int, y: int)
    requires
        0 <= x < 64,
        0 <= y < 64,
        symbol(x) == symbol(y),
    ensures
        x == y,
{
}

/// The text of a key holds only letters, digits, `-`, `_` and `=`, so that none of its
/// characters ends a path segment, a path or a query.
pub proof fn key_text_is_url_safe(bytes: Seq<u8>, i: int)
    requires
        0 <= i < base64_url_safe(bytes).len(),
    ensures
        is_key_char(base64_url_safe(bytes)[i]),
{
    let first = 3 * (i / 4);
    let a = byte_or_zero(bytes, first);
    let b = byte_or_zero(bytes, first + 1);
    let c = byte_or_zero(bytes, first + 2);
    lemma_symbol_is_key_char(a / 4);
    lemma_symbol_is_key_char((a % 4) * 16 + b / 16);
    lemma_symbol_is_key_char((b % 16) * 4 + c / 64);
    lemma_symbol_is_key_char(c % 64);
}

/// Two keys have the same hexadecimal text only if they are the same key.
pub proof fn key_hex_is_injective(x: Seq<u8>, y: Seq<u8>)
    requires
        hex_text(x) == hex_text(y),
    ensures
        x == y,
{
    assert(hex_text(x).len() == 2 * x.len() && hex_text(y).len() == 2 * y.len());
    assert forall|k: int| 0 <= k < x.len() implies x[k] == y[k] by {
        assert((2 * k) / 2 == k && (2 * k + 1) / 2 == k);
        assert(hex_text(x)[2 * k] == hex_digit(x[k] as int / 16));
        assert(hex_text(y)[2 * k] == hex_digit(y[k] as int / 16));
        assert(hex_text(x)[2 * k + 1] == hex_digit(x[k] as int % 16));
        assert(hex_text(y)[2 * k + 1] == hex_digit(y[k] as int % 16));
    }
    assert(x =~= y);
}

/// Two keys of one length have the same text only if they are the same key.
pub proof fn key_text_is_injective(x: Seq<u8>, y: Seq<u8>)
    requires
        x.len() == y.len(),
        base64_url_safe(x) == base64_url_safe(y),
    ensures
        x == y,
{
    assert forall|k: int| 0 <= k < x.len() implies x[k] == y[k] by {
        let g = k / 3;
        let first = 3 * g;
        let s = base64_url_safe(x);
        let t = base64_url_safe(y);
        assert(4 * g + 3 < s.len());
        assert(s[4 * g] == t[4 * g]);
        assert(s[4 * g + 1] == t[4 * g + 1]);
        assert(s[4 * g + 2] == t[4 * g + 2]);
        assert(s[4 * g + 3] == t[4 * g + 3]);
        let (a, b, c) = (
            byte_or_zero(x, first),
            byte_or_zero(x, first + 1),
            byte_or_zero(x, first + 2),
        );
        let (d, e, f) = (
            byte_or_zero(y, first),
            byte_or_zero(y, first + 1),
            byte_or_zero(y, first + 2),
        );
        assert((4 * g) / 4 == g && (4 * g + 1) / 4 == g && (4 * g + 2) / 4 == g && (4 * g + 3) / 4
            == g);
        lemma_symbol_injective(a / 4, d / 4);
        lemma_symbol_injective((a % 4) * 16 + b / 16, (d % 4) * 16 + e / 16);
        if first + 1 < x.len() {
            lemma_symbol_injective((b % 16) * 4 + c / 64, (e % 16) * 4 + f / 64);
        }
        if first + 2 < x.len() {
            lemma_symbol_injective(c % 64, f % 64);
        }
    }
}

/// The hexadecimal text of a key has two digits for each byte, in order: the one for the
/// sixteens and the one for the rest.
pub proof fn key_hex_spells_the_bytes(bytes: Seq<u8>, k: int)
    requires
        0 <= k < bytes.len(),
    ensures
        hex_text(bytes).len() == 2 * bytes.len(),
        hex_text(bytes)[2 * k] == "0123456789abcdef"@[bytes[k] as int / 16],
        hex_text(bytes)[2 * k + 1] == "0123456789abcdef"@[bytes[k] as int % 16],
{
    reveal_strlit("0123456789abcdef");
    assert((2 * k) / 2 == k && (2 * k + 1) / 2 == k);
}

/// Every three bytes of a key, taken as one number of 24 bits, are written as its four
/// digits to the base 64 in the URL-safe alphabet; bytes that are missing at the end count as
/// zero, and a digit that no byte reaches is written as `=`.
pub proof fn key_text_spells_the_bytes(bytes: Seq<u8>, g: int)
    requires
        0 <= g < (bytes.len() + 2) / 3,
    ensures
        base64_url_safe(bytes).len() == 4 * ((bytes.len() + 2) / 3),
        ({
            let alphabet =
                "ABCDEFGHIJKLMNOPQRSTUVWXYZabcdefghijklmnopqrstuvwxyz0123456789-_"@;
            let text = base64_url_safe(bytes);
            let b = if 3 * g + 1 < bytes.len() {
                bytes[3 * g + 1] as int
            } else {
                0
            };
            let c = if 3 * g + 2 < bytes.len() {
                bytes[3 * g + 2] as int
            } else {
                0
            };
            let n = bytes[3 * g] as int * 65536 + b * 256 + c;
            &&& text[4 * g] == alphabet[n / 262144]
            &&& text[4 * g + 1] == alphabet[n / 4096 % 64]
            &&& text[4 * g + 2] == if 3 * g + 1 < bytes.len() {
                alphabet[n / 64 % 64]
            } else {
                '='
            }
            &&& text[4 * g + 3] == if 3 * g + 2 < bytes.len() {
                alphabet[n % 64]
            } else {
                '='
            }
        }),
{
    let text = base64_url_safe(bytes);
    let a = byte_or_zero(bytes, 3 * g);
    let b = byte_or_zero(bytes, 3 * g + 1);
    let c = byte_or_zero(bytes, 3 * g + 2);
    let n = a * 65536 + b * 256 + c;
    assert((4 * g) / 4 == g && (4 * g + 1) / 4 == g && (4 * g + 2) / 4 == g && (4 * g + 3) / 4
        == g);
    lemma_base_64_digits(a, b, c);
    lemma_symbol_is_listed(a / 4);
    lemma_symbol_is_listed((a % 4) * 16 + b / 16);
    lemma_symbol_is_listed((b % 16) * 4 + c / 64);
    lemma_symbol_is_listed(c % 64);
}

proof fn lemma_base_64_digits(a: int, b: int, c: int)
    requires
        0 <= a < 256,
        0 <= b < 256,
        0 <= c < 256,
    ensures
        (a * 65536 + b * 256 + c) / 262144 == a / 4,
        (a * 65536 + b * 256 + c) / 4096 % 64 == (a % 4) * 16 + b / 16,
        (a * 65536 + b * 256 + c) / 64 % 64 == (b % 16) * 4 + c / 64,
        (a * 65536 + b * 256 + c) % 64 == c % 64,
{
    let n = a * 65536 + b * 256 + c;
    assert(n / 4096 == a * 16 + b / 16);
    assert(n / 64 == a * 1024 + b * 4 + c / 64);
}

proof fn lemma_symbol_is_listed(value: int)
    requires
        0 <= value < 64,
    ensures
        symbol(value) == "ABCDEFGHIJKLMNOPQRSTUVWXYZabcdefghijklmnopqrstuvwxyz0123456789-_"@[value],
{
    reveal_strlit("ABCDEFGHIJKLMNOPQRSTUVWXYZabcdefghijklmnopqrstuvwxyz0123456789-_");
}

} // verus!
