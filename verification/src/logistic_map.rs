//! The cipher: a buffer's groups are permuted in the order that sorting a
//! chaotic sequence gives, then each group is XORed with the sequence's
//! byte for that group. Decoding undoes the two steps in reverse order.

use crate::permutation::apply_backward;
use crate::permutation::apply_forward;
use crate::permutation::argsort;
use crate::permutation::inverse;
use crate::permutation::lemma_argsort_exists;
use crate::permutation::lemma_backward_undoes_forward;
use crate::permutation::lemma_forward_undoes_backward;
use crate::permutation::lemma_inverse;
use crate::permutation::lemma_slot_group;
use crate::permutation::permute_groups;
use crate::permutation::sorted_order;
use vstd::arithmetic::div_mod::lemma_div_pos_is_pos;
use vstd::arithmetic::div_mod::lemma_fundamental_div_mod;
use vstd::prelude::*;

verus! {

/// One value of a chaotic sequence, held as the two integers that the
/// cipher reads from it.
#[derive(Clone, Copy, Debug, PartialEq, Eq, Structural)]
pub struct Sample {
    /// The raw bit pattern of the value. The permutation sorts by it.
    pub bits: u64,
    /// The value scaled to a byte, rounded down. It is the keystream byte.
    pub level: u8,
}

/// Which way `diffuse` moves the groups.
#[derive(Clone, Copy, Debug, PartialEq, Eq, Structural)]
pub enum DiffuseDirection {
    Forward,
    Backward,
}

/// The bit patterns of the first `n` samples: the keys that the permutation sorts.
pub open spec fn sort_keys(enc_map: Seq<Sample>, n: int) -> Seq<u64> {
    Seq::new(n as nat, |i: int| enc_map[i].bits)
}

/// The keystream of a sequence: one byte per sample.
pub open spec fn keystream(enc_map: Seq<Sample>) -> Seq<u8> {
    Seq::new(enc_map.len(), |i: int| enc_map[i].level)
}

/// `data` with every byte of group `i` XORed with `key[i]`.
pub open spec fn xor_groups(data: Seq<u8>, key: Seq<u8>, g: int) -> Seq<u8> {
    Seq::new(data.len(), |x: int| data[x] ^ key[x / g])
}

/// The groups of `data` moved through the permutation of the sequence,
/// forward or backward.
pub open spec fn diffused(
    data: Seq<u8>,
    enc_map: Seq<Sample>,
    direction: DiffuseDirection,
    g: int,
) -> Seq<u8> {
    let p = sorted_order(sort_keys(enc_map, data.len() as int / g));
    match direction {
        DiffuseDirection::Forward => permute_groups(data, p, g),
        DiffuseDirection::Backward => permute_groups(data, inverse(p), g),
    }
}

/// What `encode` returns: permute, then substitute.
pub open spec fn encoded(data: Seq<u8>, enc_map: Seq<Sample>, g: int) -> Seq<u8> {
    xor_groups(diffused(data, enc_map, DiffuseDirection::Forward, g), keystream(enc_map), g)
}

/// What `decode` returns: undo the substitution, then undo the permutation.
pub open spec fn decoded(data: Seq<u8>, enc_map: Seq<Sample>, g: int) -> Seq<u8> {
    diffused(xor_groups(data, keystream(enc_map), g), enc_map, DiffuseDirection::Backward, g)
}

/// A buffer of `n * g` bytes with `g > 0` holds `n` whole groups.
pub proof fn lemma_whole_groups(len: int, g: int)
    requires
        0 <= len,
        0 < g,
        len % g == 0,
    ensures
        len == (len / g) * g,
        0 <= len / g <= len,
{
    lemma_fundamental_div_mod(len, g);
    lemma_div_pos_is_pos(len, g);
    assert(g * (len / g) == (len / g) * g) by (nonlinear_arith);
    assert((len / g) <= (len / g) * g) by (nonlinear_arith)
        requires
            0 <= len / g,
            0 < g,
    ;
}

/// Reads the keystream off a sequence: the byte of each sample, in order.
pub fn keystream_of(enc_map: &Vec<Sample>) -> (key: Vec<u8>)
    ensures
        key@ == keystream(enc_map@),
{
    let mut key: Vec<u8> = Vec::with_capacity(enc_map.len());
    let mut i: usize = 0;
    while i < enc_map.len()
        invariant
            i <= enc_map.len(),
            key.len() == i,
            forall|k: int| 0 <= k < i ==> key[k] == enc_map[k].level,
        decreases enc_map.len() - i,
    {
        key.push(enc_map[i].level);
        i += 1;
    }
    assert(key@ =~= keystream(enc_map@));
    key
}

/// Reads the sort keys off the first `n` samples of a sequence.
pub fn sort_keys_of(enc_map: &Vec<Sample>, n: usize) -> (keys: Vec<u64>)
    requires
        n <= enc_map.len(),
    ensures
        keys@ == sort_keys(enc_map@, n as int),
{
    let mut keys: Vec<u64> = Vec::with_capacity(n);
    let mut i: usize = 0;
    while i < n
        invariant
            i <= n <= enc_map.len(),
            keys.len() == i,
            forall|k: int| 0 <= k < i ==> keys[k] == enc_map[k].bits,
        decreases n - i,
    {
        keys.push(enc_map[i].bits);
        i += 1;
    }
    assert(keys@ =~= sort_keys(enc_map@, n as int));
    keys
}

/// XORs every byte of group `i` of `data` with `key[i]`: all the bytes of
/// one group share one keystream byte.
pub fn xor_stream(data: &Vec<u8>, key: &Vec<u8>, group_size: usize) -> (out: Vec<u8>)
    requires
        group_size > 0,
        data.len() <= key.len() * group_size,
    ensures
        out@ == xor_groups(data@, key@, group_size as int),
        out.len() == data.len(),
{
    let mut out: Vec<u8> = Vec::with_capacity(data.len());
    let mut x: usize = 0;
    while x < data.len()
        invariant
            x <= data.len(),
            group_size > 0,
            data.len() <= key.len() * group_size,
            out.len() == x,
            forall|y: int|
                0 <= y < x ==> #[trigger] out[y] == data[y] ^ key[y / (group_size as int)],
        decreases data.len() - x,
    {
        proof {
            lemma_slot_group(x as int, group_size as int, key.len() as int);
        }
        out.push(data[x] ^ key[x / group_size]);
        x += 1;
    }
    assert(out@ =~= xor_groups(data@, key@, group_size as int));
    out
}

/// The substitution step: XORs each group of `im` with the keystream byte
/// of the sample at the group's index.
pub fn confuse_xor(im: &Vec<u8>, enc_map: &Vec<Sample>, group_size: usize) -> (out: Vec<u8>)
    requires
        group_size > 0,
        im.len() <= enc_map.len() * group_size,
    ensures
        out@ == xor_groups(im@, keystream(enc_map@), group_size as int),
        out.len() == im.len(),
{
    let key = keystream_of(enc_map);
    xor_stream(im, &key, group_size)
}

/// The permutation step: sorts the first `im.len() / chunk_size` samples
/// and moves the groups of `im` through the resulting permutation, forward
/// or backward.
pub fn diffuse(
    im: &Vec<u8>,
    enc_map: &Vec<Sample>,
    direction: DiffuseDirection,
    chunk_size: usize,
) -> (out: Vec<u8>)
    requires
        chunk_size > 0,
        im.len() % chunk_size == 0,
        im.len() / chunk_size <= enc_map.len(),
    ensures
        out@ == diffused(im@, enc_map@, direction, chunk_size as int),
        out.len() == im.len(),
{
    let n = im.len() / chunk_size;
    proof {
        lemma_whole_groups(im.len() as int, chunk_size as int);
    }
    let keys = sort_keys_of(enc_map, n);
    let indices = argsort(&keys);
    match direction {
        DiffuseDirection::Forward => apply_forward(im, &indices, chunk_size),
        DiffuseDirection::Backward => apply_backward(im, &indices, chunk_size),
    }
}

/// Encodes a buffer of whole groups: permutes the groups, then XORs each
/// with its keystream byte. Only the first `im.len() / group_size` samples
/// of the sequence are read.
pub fn encode(im: &Vec<u8>, enc_map: &Vec<Sample>, group_size: usize) -> (out: Vec<u8>)
    requires
        group_size > 0,
        im.len() % group_size == 0,
        im.len() / group_size <= enc_map.len(),
    ensures
        out@ == encoded(im@, enc_map@, group_size as int),
        out.len() == im.len(),
{
    proof {
        lemma_whole_groups(im.len() as int, group_size as int);
        lemma_bytes_covered(im.len() as int, group_size as int, enc_map.len() as int);
    }
    let permuted = diffuse(im, enc_map, DiffuseDirection::Forward, group_size);
    confuse_xor(&permuted, enc_map, group_size)
}

/// Decodes what `encode` produced with the same sequence and group size:
/// XORs each group with its keystream byte, then moves the groups back.
/// It never fails: with another sequence it returns other bytes.
pub fn decode(im: &Vec<u8>, enc_map: &Vec<Sample>, group_size: usize) -> (out: Vec<u8>)
    requires
        group_size > 0,
        im.len() % group_size == 0,
        im.len() / group_size <= enc_map.len(),
    ensures
        out@ == decoded(im@, enc_map@, group_size as int),
        out.len() == im.len(),
{
    proof {
        lemma_whole_groups(im.len() as int, group_size as int);
        lemma_bytes_covered(im.len() as int, group_size as int, enc_map.len() as int);
    }
    let plain = confuse_xor(im, enc_map, group_size);
    diffuse(&plain, enc_map, DiffuseDirection::Backward, group_size)
}

/// A sequence with a sample for each group has a keystream byte for each byte.
pub proof fn lemma_bytes_covered(len: int, g: int, samples: int)
    requires
        0 <= len,
        0 < g,
        len % g == 0,
        len / g <= samples,
    ensures
        len <= samples * g,
{
    lemma_whole_groups(len, g);
    assert((len / g) * g <= samples * g) by (nonlinear_arith)
        requires
            len / g <= samples,
            0 < g,
    ;
}

/// XORing a buffer twice with the same keystream gives the buffer back.
pub proof fn lemma_xor_involution(data: Seq<u8>, key: Seq<u8>, g: int)
    ensures
        xor_groups(xor_groups(data, key, g), key, g) == data,
{
    let once = xor_groups(data, key, g);
    let twice = xor_groups(once, key, g);
    assert forall|x: int| 0 <= x < data.len() implies twice[x] == data[x] by {
        let a = data[x];
        let b = key[x / g];
        assert((a ^ b) ^ b == a) by (bit_vector);
    }
    assert(twice =~= data);
}

/// The length of an encoded or decoded buffer is that of its input.
pub proof fn lemma_length_kept(data: Seq<u8>, enc_map: Seq<Sample>, g: int)
    requires
        g > 0,
        data.len() % (g as nat) == 0,
        data.len() <= usize::MAX,
    ensures
        encoded(data, enc_map, g).len() == data.len(),
        decoded(data, enc_map, g).len() == data.len(),
{
    let n = data.len() as int / g;
    lemma_whole_groups(data.len() as int, g);
    let keys = sort_keys(enc_map, n);
    lemma_argsort_exists(keys);
}

/// Decoding what was encoded, with the same sequence and group size, gives
/// the buffer back.
pub proof fn lemma_decode_undoes_encode(data: Seq<u8>, enc_map: Seq<Sample>, g: int)
    requires
        g > 0,
        data.len() % (g as nat) == 0,
        data.len() <= usize::MAX,
    ensures
        decoded(encoded(data, enc_map, g), enc_map, g) == data,
{
    let n = data.len() as int / g;
    lemma_whole_groups(data.len() as int, g);
    let keys = sort_keys(enc_map, n);
    lemma_argsort_exists(keys);
    let p = sorted_order(keys);
    let permuted = permute_groups(data, p, g);
    let cipher = xor_groups(permuted, keystream(enc_map), g);
    assert(cipher == encoded(data, enc_map, g));
    assert(cipher.len() == data.len());
    lemma_xor_involution(permuted, keystream(enc_map), g);
    lemma_backward_undoes_forward(data, p, g);
}

/// Encoding what was decoded, with the same sequence and group size, gives
/// the buffer back: the two functions are inverses of each other.
pub proof fn lemma_encode_undoes_decode(data: Seq<u8>, enc_map: Seq<Sample>, g: int)
    requires
        g > 0,
        data.len() % (g as nat) == 0,
        data.len() <= usize::MAX,
    ensures
        encoded(decoded(data, enc_map, g), enc_map, g) == data,
{
    let n = data.len() as int / g;
    lemma_whole_groups(data.len() as int, g);
    let keys = sort_keys(enc_map, n);
    lemma_argsort_exists(keys);
    let p = sorted_order(keys);
    let plain = xor_groups(data, keystream(enc_map), g);
    let moved = permute_groups(plain, inverse(p), g);
    assert(moved == decoded(data, enc_map, g));
    lemma_inverse(p);
    assert(moved.len() == data.len());
    lemma_forward_undoes_backward(plain, p, g);
    lemma_xor_involution(data, keystream(enc_map), g);
}

} // verus!
