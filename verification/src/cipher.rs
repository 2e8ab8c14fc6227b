use vstd::prelude::*;

use aes::cipher::generic_array::GenericArray;
use aes::cipher::{BlockDecrypt, BlockEncrypt, KeyInit};

verus! {

use vstd::slice::slice_subrange;

/// What AES-256 encryption of one 16-byte block returns, as a function of
/// the 32-byte key and the block alone.
pub uninterp spec fn aes_encrypt_block_of(key: Seq<u8>, block: Seq<u8>) -> Seq<u8>;

/// What AES-256 decryption of one 16-byte block returns, as a function of
/// the 32-byte key and the block alone.
pub uninterp spec fn aes_decrypt_block_of(key: Seq<u8>, block: Seq<u8>) -> Seq<u8>;

/// Relies on `aes::Aes256` through `cipher::KeyInit::new_from_slice` and
/// `cipher::BlockEncrypt::encrypt_block`: encrypting one 16-byte block is a
/// function of key and block alone, the result is 16 bytes, and — AES being
/// a keyed permutation of blocks — block decryption under the same key
/// inverts it.
#[verifier::external_body]
fn aes_encrypt_block(key: &[u8], block: &[u8]) -> (r: Vec<u8>)
    requires
        key@.len() == 32,
        block@.len() == 16,
    ensures
        r@ == aes_encrypt_block_of(key@, block@),
        r@.len() == 16,
        aes_decrypt_block_of(key@, r@) == block@,
{
    let cipher = aes::Aes256::new_from_slice(key).unwrap();
    let mut b = GenericArray::clone_from_slice(block);
    cipher.encrypt_block(&mut b);
    b.to_vec()
}

/// Relies on `aes::Aes256` through `cipher::KeyInit::new_from_slice` and
/// `cipher::BlockDecrypt::decrypt_block`: decrypting one 16-byte block is a
/// function of key and block alone, and the result is 16 bytes.
#[verifier::external_body]
fn aes_decrypt_block(key: &[u8], block: &[u8]) -> (r: Vec<u8>)
    requires
        key@.len() == 32,
        block@.len() == 16,
    ensures
        r@ == aes_decrypt_block_of(key@, block@),
        r@.len() == 16,
{
    let cipher = aes::Aes256::new_from_slice(key).unwrap();
    let mut b = GenericArray::clone_from_slice(block);
    cipher.decrypt_block(&mut b);
    b.to_vec()
}

/// `n` rounded up to the next multiple of 16.
pub open spec fn pad16(n: int) -> int {
    n + ((16 - n % 16) % 16)
}

/// `s` zero-padded to a multiple of 16 bytes.
pub open spec fn zero_pad16(s: Seq<u8>) -> Seq<u8> {
    s + Seq::new((pad16(s.len() as int) - s.len()) as nat, |i: int| 0u8)
}

/// Block-by-block AES-256-ECB decryption of a buffer of whole 16-byte
/// blocks (any trailing partial block is ignored).
pub open spec fn spec_ecb_decrypt(key: Seq<u8>, data: Seq<u8>) -> Seq<u8>
    decreases data.len(),
{
    if data.len() < 16 {
        Seq::empty()
    } else {
        aes_decrypt_block_of(key, data.take(16)) + spec_ecb_decrypt(key, data.skip(16))
    }
}

proof fn lemma_ecb_decrypt_append(key: Seq<u8>, a: Seq<u8>, b: Seq<u8>)
    requires
        a.len() % 16 == 0,
    ensures
        spec_ecb_decrypt(key, a + b) == spec_ecb_decrypt(key, a) + spec_ecb_decrypt(key, b),
    decreases a.len(),
{
    if a.len() == 0 {
        assert(a + b =~= b);
        assert(spec_ecb_decrypt(key, a) + spec_ecb_decrypt(key, b) =~= spec_ecb_decrypt(key, b));
    } else {
        assert((a + b).take(16) =~= a.take(16));
        assert((a + b).skip(16) =~= a.skip(16) + b);
        lemma_ecb_decrypt_append(key, a.skip(16), b);
        assert(aes_decrypt_block_of(key, a.take(16)) + (spec_ecb_decrypt(key, a.skip(16))
            + spec_ecb_decrypt(key, b)) =~= (aes_decrypt_block_of(key, a.take(16))
            + spec_ecb_decrypt(key, a.skip(16))) + spec_ecb_decrypt(key, b));
    }
}

proof fn lemma_ecb_decrypt_single(key: Seq<u8>, b: Seq<u8>)
    requires
        b.len() == 16,
    ensures
        spec_ecb_decrypt(key, b) == aes_decrypt_block_of(key, b),
{
    assert(b.take(16) =~= b);
    assert(b.skip(16).len() == 0);
    assert(spec_ecb_decrypt(key, b.skip(16)) == Seq::<u8>::empty());
    assert(spec_ecb_decrypt(key, b) == aes_decrypt_block_of(key, b) + Seq::<u8>::empty());
    assert(aes_decrypt_block_of(key, b) + Seq::<u8>::empty() =~= aes_decrypt_block_of(key, b));
}

/// Encrypts a buffer under AES-256-ECB: the buffer is zero-padded to a
/// multiple of 16 bytes and encrypted block by block. Decrypting the result
/// under the same key yields exactly the padded buffer.
pub fn encrypt_buffer(key: &Vec<u8>, data: &Vec<u8>) -> (r: Vec<u8>)
    requires
        key@.len() == 32,
        data@.len() + 16 <= usize::MAX,
    ensures
        r@.len() == pad16(data@.len() as int),
        r@.len() % 16 == 0,
        spec_ecb_decrypt(key@, r@) == zero_pad16(data@),
{
    let rem = data.len() % 16;
    let target: usize = if rem == 0 {
        data.len()
    } else {
        data.len() + (16 - rem)
    };
    let mut padded: Vec<u8> = Vec::new();
    let mut i: usize = 0;
    while i < data.len()
        invariant
            i <= data@.len(),
            padded@ == data@.take(i as int),
        decreases data@.len() - i,
    {
        padded.push(data[i]);
        proof {
            assert(data@.take(i + 1) =~= data@.take(i as int).push(data@[i as int]));
        }
        i += 1;
    }
    proof {
        assert(data@.take(data@.len() as int) =~= data@);
    }
    while padded.len() < target
        invariant
            data@.len() <= padded@.len() <= target,
            target == pad16(data@.len() as int),
            padded@.take(data@.len() as int) == data@,
            forall|j: int| data@.len() <= j < padded@.len() ==> padded@[j] == 0u8,
        decreases target - padded@.len(),
    {
        padded.push(0u8);
        proof {
            assert(padded@.take(data@.len() as int) =~= data@);
        }
    }
    proof {
        assert(padded@ =~= zero_pad16(data@));
    }
    let mut out: Vec<u8> = Vec::new();
    let mut off: usize = 0;
    while off < padded.len()
        invariant
            key@.len() == 32,
            padded@.len() % 16 == 0,
            off <= padded@.len(),
            off % 16 == 0,
            out@.len() == off,
            spec_ecb_decrypt(key@, out@) == padded@.take(off as int),
        decreases padded@.len() - off,
    {
        let block = slice_subrange(padded.as_slice(), off, off + 16);
        let mut enc = aes_encrypt_block(key.as_slice(), block);
        proof {
            let old_out = out@;
            lemma_ecb_decrypt_append(key@, old_out, enc@);
            lemma_ecb_decrypt_single(key@, enc@);
            assert(padded@.take(off + 16) =~= padded@.take(off as int) + padded@.subrange(
                off as int,
                off + 16,
            ));
        }
        out.append(&mut enc);
        off += 16;
    }
    proof {
        assert(padded@.take(padded@.len() as int) =~= padded@);
    }
    out
}

/// Decrypts a buffer of whole 16-byte blocks under AES-256-ECB.
pub fn decrypt_buffer(key: &Vec<u8>, data: &Vec<u8>) -> (r: Vec<u8>)
    requires
        key@.len() == 32,
        data@.len() % 16 == 0,
    ensures
        r@ == spec_ecb_decrypt(key@, data@),
        r@.len() == data@.len(),
{
    let mut out: Vec<u8> = Vec::new();
    let mut off: usize = 0;
    while off < data.len()
        invariant
            key@.len() == 32,
            data@.len() % 16 == 0,
            off <= data@.len(),
            off % 16 == 0,
            out@.len() == off,
            out@ == spec_ecb_decrypt(key@, data@.take(off as int)),
        decreases data@.len() - off,
    {
        let block = slice_subrange(data.as_slice(), off, off + 16);
        let mut dec = aes_decrypt_block(key.as_slice(), block);
        proof {
            lemma_ecb_decrypt_append(key@, data@.take(off as int), data@.subrange(off as int, off + 16));
            assert(data@.take(off + 16) =~= data@.take(off as int) + data@.subrange(
                off as int,
                off + 16,
            ));
            lemma_ecb_decrypt_single(key@, data@.subrange(off as int, off + 16));
        }
        out.append(&mut dec);
        off += 16;
    }
    proof {
        assert(data@.take(data@.len() as int) =~= data@);
    }
    out
}

} // verus!
