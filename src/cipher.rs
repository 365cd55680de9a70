use vstd::prelude::*;
use crate::codec::{hex_decode, hex_encode, hex_decoded, hex_encoded, hex_error, is_hex, is_hex_text, FormatError};

verus! {

/// Each data byte XORed with the key byte at the same position, the key cycled.
pub open spec fn xor_with_key_spec(data: Seq<u8>, key: Seq<u8>) -> Seq<u8> {
    Seq::new(data.len(), |i: int| data[i] ^ key[i % (key.len() as int)])
}

/// Each byte XORed with one key byte.
pub open spec fn xor_single(data: Seq<u8>, k: u8) -> Seq<u8> {
    Seq::new(data.len(), |i: int| data[i] ^ k)
}

proof fn lemma_mod_step(i: int, n: int)
    requires
        0 <= i,
        n > 0,
    ensures
        i % n + 1 == n ==> (i + 1) % n == 0,
        i % n + 1 < n ==> (i + 1) % n == i % n + 1,
{
    let q = i / n;
    let r = i % n;
    vstd::arithmetic::div_mod::lemma_fundamental_div_mod(i, n);
    vstd::arithmetic::div_mod::lemma_mod_bound(i, n);
    if r + 1 == n {
        assert(i + 1 == (q + 1) * n + 0) by (nonlinear_arith)
            requires i == n * q + r, r + 1 == n;
        vstd::arithmetic::div_mod::lemma_fundamental_div_mod_converse(i + 1, n, q + 1, 0);
    } else {
        assert(i + 1 == q * n + (r + 1)) by (nonlinear_arith)
            requires i == n * q + r;
        vstd::arithmetic::div_mod::lemma_fundamental_div_mod_converse(i + 1, n, q, r + 1);
    }
}

/// Repeating-key XOR of `data` with a non-empty `key`.
pub fn xor_with_key(data: &[u8], key: &[u8]) -> (r: Vec<u8>)
    requires
        key@.len() > 0,
    ensures
        r@ == xor_with_key_spec(data@, key@),
{
    let mut out: Vec<u8> = Vec::new();
    let mut i: usize = 0;
    let mut j: usize = 0;
    while i < data.len()
        invariant
            i <= data@.len(),
            key@.len() > 0,
            j == i as int % (key@.len() as int),
            out@ =~= xor_with_key_spec(data@, key@).take(i as int),
        decreases data@.len() - i,
    {
        out.push(data[i] ^ key[j]);
        assert(out@ =~= xor_with_key_spec(data@, key@).take(i + 1));
        proof {
            lemma_mod_step(i as int, key@.len() as int);
        }
        j = if j + 1 == key.len() { 0 } else { j + 1 };
        i = i + 1;
    }
    assert(out@ =~= xor_with_key_spec(data@, key@));
    out
}

/// XORs two equal-length hex strings and gives the result in hex; the key
/// may be longer than the message, its extra digits are not used.
pub fn fix_xor(message: &[u8], key: &[u8]) -> (r: Result<Vec<u8>, FormatError>)
    requires
        message@.len() <= key@.len(),
    ensures
        (message@.len() % 2 == 0 && is_hex(message@) && key@.len() % 2 == 0 && is_hex(key@))
            <==> r is Ok,
        r is Ok ==> r->Ok_0@ == hex_encoded(
            xor_with_key_spec(hex_decoded(message@), hex_decoded(key@)),
        ),
        r is Err ==> r->Err_0 == (if !is_hex_text(message@) {
            hex_error(message@)
        } else {
            hex_error(key@)
        }),
{
    let message_len: usize = message.len();
    let m = hex_decode(message)?;
    let k = hex_decode(key)?;
    if k.len() == 0 {
        return Ok(Vec::new());
    }
    let x = xor_with_key(m.as_slice(), k.as_slice());
    assert(x@.len() == message_len / 2);
    Ok(hex_encode(x.as_slice()))
}

/// Repeating-key XOR of `text` with `key`; with `hexed`, the result is
/// given as lowercase hex.
pub fn repeating_key_xor(text: &[u8], key: &[u8], hexed: bool) -> (r: Vec<u8>)
    requires
        key@.len() > 0,
        hexed ==> 2 * text@.len() <= usize::MAX,
    ensures
        hexed ==> r@ == hex_encoded(xor_with_key_spec(text@, key@)),
        !hexed ==> r@ == xor_with_key_spec(text@, key@),
{
    let x = xor_with_key(text, key);
    if hexed {
        hex_encode(x.as_slice())
    } else {
        x
    }
}

/// XORing twice with the same non-empty key gives the data back.
pub proof fn lemma_xor_with_key_round_trip(data: Seq<u8>, key: Seq<u8>)
    requires
        key.len() > 0,
    ensures
        xor_with_key_spec(xor_with_key_spec(data, key), key) == data,
{
    let once = xor_with_key_spec(data, key);
    let twice = xor_with_key_spec(once, key);
    assert forall|i: int| 0 <= i < data.len() implies twice[i] == data[i] by {
        let x = data[i];
        let y = key[i % (key.len() as int)];
        assert((x ^ y) ^ y == x) by (bit_vector);
    }
    assert(twice =~= data);
}

} // verus!
