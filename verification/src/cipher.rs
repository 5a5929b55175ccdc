//! The name cipher: text is encoded in the legacy double-byte charset and
//! each byte is then shifted by its distance from the end of the name.

use vstd::prelude::*;
use crate::error::ArcError;

verus! {

/// What `Encoding::encode` of `encoding_rs::SHIFT_JIS` yields for a string:
/// the encoded bytes, or `None` where it reports an unmappable character.
pub uninterp spec fn sjis_encoded(text: Seq<char>) -> Option<Seq<u8>>;

/// What `Encoding::decode_without_bom_handling` of `encoding_rs::SHIFT_JIS`
/// yields for a byte string: the decoded text, or `None` where it reports a
/// malformed sequence. No byte-order mark is looked for: every byte is read
/// in the legacy charset.
pub uninterp spec fn sjis_decoded(bytes: Seq<u8>) -> Option<Seq<char>>;

/// The codec sizes its buffers by a small multiple of its input: only
/// inputs of at most a sixteenth of the address space are handed to it.
pub open spec fn codec_accepts(len: nat) -> bool {
    len <= usize::MAX / 16
}

/// Whether a name can be encoded: the codec accepts its length in bytes and
/// finds every character in the charset.
pub open spec fn encodable(text: Seq<char>) -> bool {
    codec_accepts(vstd::utf8::encode_utf8(text).len()) && sjis_encoded(text).is_some()
}

/// Whether bytes can be decoded: the codec accepts their length and finds
/// them well-formed.
pub open spec fn decodable(bytes: Seq<u8>) -> bool {
    codec_accepts(bytes.len()) && sjis_decoded(bytes).is_some()
}

/// The byte at index `i` of a name of `len` bytes lies `len - i` places from
/// the end, the last byte one place.
pub open spec fn trailing_position(len: nat, i: int) -> int {
    len - i
}

/// Every byte lowered by its trailing position, modulo 256.
pub open spec fn shift_down(bytes: Seq<u8>) -> Seq<u8> {
    Seq::new(
        bytes.len(),
        |i: int| ((bytes[i] - trailing_position(bytes.len(), i)) % 256) as u8,
    )
}

/// Every byte raised by its trailing position, modulo 256.
pub open spec fn shift_up(bytes: Seq<u8>) -> Seq<u8> {
    Seq::new(
        bytes.len(),
        |i: int| ((bytes[i] + trailing_position(bytes.len(), i)) % 256) as u8,
    )
}

/// Calls `encoding_rs::SHIFT_JIS.encode`, which panics where the size of
/// its buffer overflows; inputs that long are left out. The contract names
/// the bytes it returns and maps its error flag to `None`; nothing more is
/// claimed of the charset.
#[verifier::external_body]
fn sjis_encode(text: &str) -> (r: Option<Vec<u8>>)
    requires
        codec_accepts(vstd::utf8::encode_utf8(text@).len()),
    ensures
        match r {
            Some(v) => sjis_encoded(text@) == Some(v@),
            None => sjis_encoded(text@).is_none(),
        },
{
    let (bytes, _, had_errors) = encoding_rs::SHIFT_JIS.encode(text);
    if had_errors {
        None
    } else {
        Some(bytes.into_owned())
    }
}

/// Calls `encoding_rs::SHIFT_JIS.decode_without_bom_handling`, which panics
/// where the size of its buffer overflows; inputs that long are left out.
/// The contract names the text it returns and maps its error flag to `None`;
/// nothing more is claimed of the charset.
#[verifier::external_body]
fn sjis_decode(bytes: &[u8]) -> (r: Option<String>)
    requires
        codec_accepts(bytes@.len()),
    ensures
        match r {
            Some(s) => sjis_decoded(bytes@) == Some(s@),
            None => sjis_decoded(bytes@).is_none(),
        },
{
    let (text, had_errors) = encoding_rs::SHIFT_JIS.decode_without_bom_handling(bytes);
    if had_errors {
        None
    } else {
        Some(text.into_owned())
    }
}

/// Applies the cipher to a whole encoded name.
pub fn cipher_encrypt(bytes: &[u8]) -> (out: Vec<u8>)
    ensures
        out@ == shift_down(bytes@),
{
    let n: usize = bytes.len();
    let mut out: Vec<u8> = Vec::with_capacity(n);
    let mut i: usize = 0;
    while i < n
        invariant
            n == bytes@.len(),
            i <= n,
            out@.len() == i,
            forall|j: int| 0 <= j < i ==> out@[j] == shift_down(bytes@)[j],
        decreases n - i,
    {
        let k: u8 = ((n - i) % 256) as u8;
        let b: u8 = bytes[i].wrapping_sub(k);
        assert(b == ((bytes@[i as int] - (n - i)) % 256) as u8) by {
            let x: int = bytes@[i as int] as int;
            let d: int = (n - i) as int;
            assert((x - d % 256) % 256 == (x - d) % 256) by {
                vstd::arithmetic::div_mod::lemma_sub_mod_noop_right(x, d, 256);
            }
        }
        out.push(b);
        i = i + 1;
    }
    assert(out@ =~= shift_down(bytes@));
    out
}

/// Removes the cipher from a whole encrypted name.
pub fn cipher_decrypt(bytes: &[u8]) -> (out: Vec<u8>)
    ensures
        out@ == shift_up(bytes@),
{
    let n: usize = bytes.len();
    let mut out: Vec<u8> = Vec::with_capacity(n);
    let mut i: usize = 0;
    while i < n
        invariant
            n == bytes@.len(),
            i <= n,
            out@.len() == i,
            forall|j: int| 0 <= j < i ==> out@[j] == shift_up(bytes@)[j],
        decreases n - i,
    {
        let k: u8 = ((n - i) % 256) as u8;
        let b: u8 = bytes[i].wrapping_add(k);
        assert(b == ((bytes@[i as int] + (n - i)) % 256) as u8) by {
            let x: int = bytes@[i as int] as int;
            let d: int = (n - i) as int;
            assert((x + d % 256) % 256 == (x + d) % 256) by {
                vstd::arithmetic::div_mod::lemma_add_mod_noop_right(x, d, 256);
            }
        }
        out.push(b);
        i = i + 1;
    }
    assert(out@ =~= shift_up(bytes@));
    out
}

/// Encodes `name` in the legacy charset and applies the cipher. Fails with
/// `NameEncodeError`, carrying the name, exactly when the name cannot be
/// encoded.
pub fn encrypt_name(name: &str) -> (r: Result<Vec<u8>, ArcError>)
    ensures
        match r {
            Ok(v) => encodable(name@) && v@ == shift_down(sjis_encoded(name@).unwrap()),
            Err(e) => !encodable(name@) && (e matches ArcError::NameEncodeError(s) && s@
                == name@),
        },
{
    if name.as_bytes().len() > usize::MAX / 16 {
        return Err(ArcError::NameEncodeError(name.to_owned()));
    }
    match sjis_encode(name) {
        Some(encoded) => Ok(cipher_encrypt(encoded.as_slice())),
        None => Err(ArcError::NameEncodeError(name.to_owned())),
    }
}

/// Removes the cipher and decodes the result from the legacy charset. Fails
/// with `NameDecodeError`, carrying the encrypted bytes, exactly when the
/// deciphered bytes cannot be decoded.
pub fn decrypt_name(encrypted: &[u8]) -> (r: Result<String, ArcError>)
    ensures
        match r {
            Ok(s) => decodable(shift_up(encrypted@)) && sjis_decoded(shift_up(encrypted@))
                == Some(s@),
            Err(e) => !decodable(shift_up(encrypted@)) && (e matches ArcError::NameDecodeError(v)
                && v@ == encrypted@),
        },
{
    if encrypted.len() > usize::MAX / 16 {
        return Err(ArcError::NameDecodeError(vstd::slice::slice_to_vec(encrypted)));
    }
    let plain = cipher_decrypt(encrypted);
    match sjis_decode(plain.as_slice()) {
        Some(name) => Ok(name),
        None => Err(ArcError::NameDecodeError(vstd::slice::slice_to_vec(encrypted))),
    }
}

/// Deciphering undoes enciphering on every byte string.
pub proof fn lemma_shift_up_down(bytes: Seq<u8>)
    ensures
        shift_up(shift_down(bytes)) == bytes,
        shift_down(bytes).len() == bytes.len(),
{
    assert(shift_up(shift_down(bytes)) =~= bytes);
}

/// Enciphering undoes deciphering on every byte string.
pub proof fn lemma_shift_down_up(bytes: Seq<u8>)
    ensures
        shift_down(shift_up(bytes)) == bytes,
        shift_up(bytes).len() == bytes.len(),
{
    assert(shift_down(shift_up(bytes)) =~= bytes);
}

/// The cipher never maps two different byte strings to one: on each length
/// it is a bijection.
pub proof fn lemma_cipher_injective(a: Seq<u8>, b: Seq<u8>)
    requires
        shift_down(a) == shift_down(b),
    ensures
        a == b,
{
    lemma_shift_up_down(a);
    lemma_shift_up_down(b);
}

/// Decrypting an encrypted name gives the name back, for every name that
/// the charset encodes and decodes to itself.
pub proof fn lemma_name_round_trip(name: Seq<char>)
    requires
        encodable(name),
        sjis_decoded(sjis_encoded(name).unwrap()) == Some(name),
    ensures
        sjis_decoded(shift_up(shift_down(sjis_encoded(name).unwrap()))) == Some(name),
{
    lemma_shift_up_down(sjis_encoded(name).unwrap());
}

} // verus!
