//! Byte-wise XOR of a message with a repeating key.
//!
//! The single operation offered here combines a message buffer with a key
//! buffer, element by element, cycling the key when it is shorter than the
//! message, and writes the result into a caller-supplied output buffer.

use vstd::prelude::*;

verus! {

/// Byte `i` of the XOR combination of `msg` with the repeating key `key`.
pub open spec fn cipher_byte(msg: Seq<u8>, key: Seq<u8>, i: int) -> u8
    recommends
        key.len() > 0,
        0 <= i < msg.len(),
{
    msg[i] ^ key[i % key.len() as int]
}

/// The XOR combination of `msg` with the repeating key `key`: the sequence
/// whose byte `i` is `msg[i] ^ key[i % key.len()]`.
pub open spec fn cipher_seq(msg: Seq<u8>, key: Seq<u8>) -> Seq<u8>
    recommends
        key.len() > 0,
{
    Seq::new(msg.len(), |i: int| cipher_byte(msg, key, i))
}

/// Writes the XOR combination of the first `msg_len` bytes of `msg` with the
/// first `key_len` bytes of `key` (cycled) into the first `msg_len` bytes of
/// `buf`; the rest of `buf` is left as it was.
pub fn transform(msg: &[u8], key: &[u8], buf: &mut Vec<u8>, msg_len: usize, key_len: usize)
    requires
        1 <= key_len <= key@.len(),
        msg_len <= msg@.len(),
        msg_len <= old(buf)@.len(),
    ensures
        final(buf)@.len() == old(buf)@.len(),
        final(buf)@.subrange(0, msg_len as int) == cipher_seq(
            msg@.subrange(0, msg_len as int),
            key@.subrange(0, key_len as int),
        ),
        forall|j: int| msg_len <= j < old(buf)@.len() ==> final(buf)@[j] == old(buf)@[j],
{
    let mut i: usize = 0;
    while i < msg_len
        invariant
            i <= msg_len,
            msg_len <= msg@.len(),
            1 <= key_len <= key@.len(),
            buf@.len() == old(buf)@.len(),
            msg_len <= buf@.len(),
            forall|j: int| 0 <= j < i ==> buf@[j] == cipher_byte(
                msg@.subrange(0, msg_len as int),
                key@.subrange(0, key_len as int),
                j,
            ),
            forall|j: int| i <= j < buf@.len() ==> buf@[j] == old(buf)@[j],
        decreases msg_len - i,
    {
        buf[i] = msg[i] ^ key[i % key_len];
        i = i + 1;
    }
    proof {
        assert(buf@.subrange(0, msg_len as int) =~= cipher_seq(
            msg@.subrange(0, msg_len as int),
            key@.subrange(0, key_len as int),
        ));
    }
}

/// The one-to-one XOR of two sequences of equal length: byte `i` is
/// `m[i] ^ k[i]`, with no cycling.
pub open spec fn xor_zip(m: Seq<u8>, k: Seq<u8>) -> Seq<u8>
    recommends
        k.len() == m.len(),
{
    Seq::new(m.len(), |i: int| m[i] ^ k[i])
}

proof fn lemma_xor_cancels(a: u8, b: u8)
    by (bit_vector)
    ensures
        (a ^ b) ^ b == a,
{
}

proof fn lemma_xor_zero(a: u8)
    by (bit_vector)
    ensures
        a ^ 0 == a,
{
}

/// Transforming twice with the same non-empty key recovers the message:
/// XOR with a byte is self-inverse.
pub proof fn lemma_self_inverse(m: Seq<u8>, k: Seq<u8>)
    requires
        k.len() > 0,
    ensures
        cipher_seq(cipher_seq(m, k), k) == m,
{
    let c = cipher_seq(m, k);
    assert forall|i: int| 0 <= i < m.len() implies cipher_seq(c, k)[i] == m[i] by {
        lemma_xor_cancels(m[i], k[i % k.len() as int]);
    }
    assert(cipher_seq(c, k) =~= m);
}

/// A key of zero bytes as long as the message leaves the message unchanged.
pub proof fn lemma_zero_key_identity(m: Seq<u8>, k: Seq<u8>)
    requires
        k.len() == m.len(),
        forall|i: int| 0 <= i < k.len() ==> k[i] == 0,
    ensures
        cipher_seq(m, k) == m,
{
    assert forall|i: int| 0 <= i < m.len() implies cipher_seq(m, k)[i] == m[i] by {
        lemma_xor_zero(m[i]);
    }
    assert(cipher_seq(m, k) =~= m);
}

/// With a one-byte key, every output byte is the message byte XOR that key
/// byte.
pub proof fn lemma_single_byte_key(m: Seq<u8>, k: Seq<u8>)
    requires
        k.len() == 1,
    ensures
        forall|i: int| 0 <= i < m.len() ==> cipher_seq(m, k)[i] == (m[i] ^ k[0]),
{
}

/// A key exactly as long as the message never cycles: the transform is the
/// one-to-one XOR of the two sequences.
pub proof fn lemma_full_length_key(m: Seq<u8>, k: Seq<u8>)
    requires
        k.len() == m.len(),
    ensures
        cipher_seq(m, k) == xor_zip(m, k),
{
    assert forall|i: int| 0 <= i < m.len() implies cipher_seq(m, k)[i] == xor_zip(m, k)[i] by {
        vstd::arithmetic::div_mod::lemma_small_mod(i as nat, k.len());
    }
    assert(cipher_seq(m, k) =~= xor_zip(m, k));
}

/// Why a call to [`cipher`] rejected its arguments instead of writing.
#[derive(Clone, Copy, Debug, PartialEq, Eq, Structural)]
pub enum CipherError {
    /// `key_len` was zero: there is no key byte to cycle.
    EmptyKey,
    /// `msg` holds fewer than `msg_len` bytes.
    MessageTooShort,
    /// `key` holds fewer than `key_len` bytes.
    KeyTooShort,
    /// `buf` holds fewer than `msg_len` bytes.
    OutputTooShort,
}

/// The checked entry point: validates the declared lengths against the
/// buffers, then writes the XOR combination of the first `msg_len` bytes of
/// `msg` with the first `key_len` bytes of `key` (cycled) into the first
/// `msg_len` bytes of `buf`. On rejection nothing is written.
pub fn cipher(msg: &[u8], key: &[u8], buf: &mut Vec<u8>, msg_len: usize, key_len: usize) -> (r:
    Result<(), CipherError>)
    ensures
        r is Ok <==> (1 <= key_len <= key@.len() && msg_len <= msg@.len() && msg_len <= old(
            buf,
        )@.len()),
        r == Err::<(), CipherError>(CipherError::EmptyKey) <==> key_len == 0,
        r == Err::<(), CipherError>(CipherError::MessageTooShort) <==> (key_len >= 1 && msg@.len()
            < msg_len),
        r == Err::<(), CipherError>(CipherError::KeyTooShort) <==> (key_len >= 1 && msg_len
            <= msg@.len() && key@.len() < key_len),
        r == Err::<(), CipherError>(CipherError::OutputTooShort) <==> (key_len >= 1 && msg_len
            <= msg@.len() && key_len <= key@.len() && old(buf)@.len() < msg_len),
        final(buf)@.len() == old(buf)@.len(),
        r is Ok ==> final(buf)@.subrange(0, msg_len as int) == cipher_seq(
            msg@.subrange(0, msg_len as int),
            key@.subrange(0, key_len as int),
        ),
        r is Ok ==> forall|j: int|
            msg_len <= j < old(buf)@.len() ==> final(buf)@[j] == old(buf)@[j],
        r is Err ==> final(buf)@ == old(buf)@,
{
    if key_len == 0 {
        return Err(CipherError::EmptyKey);
    }
    if msg.len() < msg_len {
        return Err(CipherError::MessageTooShort);
    }
    if key.len() < key_len {
        return Err(CipherError::KeyTooShort);
    }
    if buf.len() < msg_len {
        return Err(CipherError::OutputTooShort);
    }
    transform(msg, key, buf, msg_len, key_len);
    Ok(())
}

} // verus!
