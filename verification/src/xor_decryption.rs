//! XOR cipher with a short repeating key.
use vstd::prelude::*;

use vstd::string::StringSliceAdditionalSpecFns;

verus! {

/// The bytes of `data` combined with a cyclically repeated `key`.
pub open spec fn xor_spec(data: Seq<u8>, key: Seq<u8>) -> Seq<u8> {
    Seq::new(data.len(), |i: int| data[i] ^ key[i % key.len() as int])
}

/// Applying the same key twice gives back the original bytes.
pub proof fn lemma_xor_involution(data: Seq<u8>, key: Seq<u8>)
    requires
        key.len() > 0,
    ensures
        xor_spec(xor_spec(data, key), key) == data,
{
    assert forall|i: int| 0 <= i < data.len() implies #[trigger] xor_spec(
        xor_spec(data, key),
        key,
    )[i] == data[i] by {
        let k = key[i % key.len() as int];
        let d = data[i];
        assert((d ^ k) ^ k == d) by (bit_vector);
    }
    assert(xor_spec(xor_spec(data, key), key) =~= data);
}

/// Encrypt ASCII text by XOR-ing its bytes with the repeating key.
pub fn encrypt_xor(text: &str, key: &[u8]) -> (r: Vec<u8>)
    requires
        text@.len() == text.spec_bytes().len(),
        key@.len() > 0,
    ensures
        r@ == xor_spec(text.spec_bytes(), key@),
{
    let bytes = text.as_bytes();
    xor_bytes(bytes, key)
}

/// XOR a byte slice with the repeating key.
pub fn xor_bytes(bytes: &[u8], key: &[u8]) -> (r: Vec<u8>)
    requires
        key@.len() > 0,
    ensures
        r@ == xor_spec(bytes@, key@),
{
    let n = bytes.len();
    let klen = key.len();
    let mut r: Vec<u8> = Vec::new();
    let mut i: usize = 0;
    while i < n
        invariant
            i <= n,
            n == bytes@.len(),
            klen == key@.len() > 0,
            r@ =~= xor_spec(bytes@, key@).take(i as int),
        decreases n - i,
    {
        let b = *vstd::slice::slice_index_get(bytes, i);
        let k = *vstd::slice::slice_index_get(key, i % klen);
        r.push(b ^ k);
        assert(r@ =~= xor_spec(bytes@, key@).take(i + 1));
        i += 1;
    }
    assert(xor_spec(bytes@, key@).take(n as int) =~= xor_spec(bytes@, key@));
    r
}

/// Relies on String::from_utf8: succeeds exactly when the bytes are a
/// valid UTF-8 encoding, decoding them into the string's characters.
#[verifier::external_body]
fn string_from_utf8(v: Vec<u8>) -> (r: Option<String>)
    ensures
        r is Some <==> vstd::utf8::valid_utf8(v@),
        r is Some ==> r->0@ == vstd::utf8::decode_utf8(v@),
{
    String::from_utf8(v).ok()
}

/// Decrypt the cipher bytes with the repeating key, returning the text
/// when the result is valid UTF-8.
pub fn decrypt_xor(bytes: &[u8], key: &[u8]) -> (r: Option<String>)
    requires
        key@.len() > 0,
    ensures
        r is Some <==> vstd::utf8::valid_utf8(xor_spec(bytes@, key@)),
        r is Some ==> r->0@ == vstd::utf8::decode_utf8(xor_spec(bytes@, key@)),
{
    let decoded = xor_bytes(bytes, key);
    string_from_utf8(decoded)
}

} // verus!
