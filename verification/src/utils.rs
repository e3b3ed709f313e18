//! The block-cipher generator and the small helpers shared by both gates.
use vstd::prelude::*;
use vstd::bytes::{
    spec_u128_from_le_bytes, spec_u128_to_le_bytes, spec_u32_from_le_bytes, spec_u32_to_le_bytes,
    u128_from_le_bytes, u128_to_le_bytes, u32_from_le_bytes, u32_to_le_bytes,
};
use vstd::slice::slice_subrange;
use crate::stream::PRG;
use crate::FssError;
use aes::cipher::{BlockEncrypt, KeyInit};
use rand::RngCore;

verus! {

/// The AES-128 permutation: the ciphertext block of `block` under `key`,
/// with key, plaintext and ciphertext each read as sixteen little-endian
/// bytes.
pub uninterp spec fn aes128_encrypt(key: u128, block: u128) -> u128;

/// Calls `Aes128::new` and `BlockEncrypt::encrypt_block` of the `aes` crate.
/// The cipher is a fixed permutation for each key, so the result is the
/// function `aes128_encrypt` of the two arguments.
#[verifier::external_body]
fn aes128_encrypt_block(key: u128, block: u128) -> (out: u128)
    ensures
        out == aes128_encrypt(key, block),
{
    let cipher = aes::Aes128::new(&key.to_le_bytes().into());
    let mut buf = block.to_le_bytes().into();
    cipher.encrypt_block(&mut buf);
    u128::from_le_bytes(buf.into())
}

/// The error of the `rand` crate.
#[verifier::external_type_specification]
#[verifier::external_body]
pub struct ExRandError(rand::Error);

/// Calls `RngCore::try_fill_bytes` on `rand::rngs::OsRng`, which asks the
/// operating system for `len` random bytes. The call either fills the whole
/// buffer or fails; nothing is claimed of the bytes but their number.
#[verifier::external_body]
fn os_random(len: usize) -> (r: Result<Vec<u8>, rand::Error>)
    ensures
        r matches Ok(bytes) ==> bytes@.len() == len,
{
    let mut bytes = vec![0u8; len];
    rand::rngs::OsRng.try_fill_bytes(&mut bytes)?;
    Ok(bytes)
}

/// Draws `len` random bytes from the operating system.
pub fn draw(len: usize) -> (r: Result<Vec<u8>, FssError>)
    ensures
        r matches Ok(bytes) ==> bytes@.len() == len,
        r matches Err(e) ==> e == FssError::Entropy,
{
    match os_random(len) {
        Ok(bytes) => Ok(bytes),
        Err(_) => Err(FssError::Entropy),
    }
}

/// Number of random bytes that dealing one pair of shares takes: the
/// threshold and the first party's share of it (4 bytes each), then the two
/// root seeds (16 bytes each).
pub const DRAW_LEN: usize = 40;

/// One block of the Matyas-Meyer-Oseas compression: the cipher's output
/// under a fixed key, xored with its input.
pub open spec fn mmo_block(key: u128, seed: u128) -> u128 {
    aes128_encrypt(key, seed) ^ seed
}

/// A generator in Matyas-Meyer-Oseas mode over AES-128 with fixed keys.
pub struct MMO {
    pub keys: Vec<u128>,
}

impl PRG for MMO {
    open spec fn schedule(&self) -> Seq<u128> {
        self.keys@
    }

    open spec fn blocks(schedule: Seq<u128>, seed: u128) -> Seq<u128> {
        Seq::new(schedule.len(), |i: int| mmo_block(schedule[i], seed))
    }

    fn from_slice(key: &[u128]) -> (prg: MMO) {
        let mut keys: Vec<u128> = Vec::new();
        let n = key.len();
        let mut i: usize = 0;
        while i < n
            invariant
                i <= n,
                n == key@.len(),
                keys@ == key@.take(i as int),
            decreases n - i,
        {
            keys.push(key[i]);
            i += 1;
        }
        MMO { keys }
    }

    fn from_vec(key: &Vec<u128>) -> (prg: MMO) {
        MMO::from_slice(key.as_slice())
    }

    fn expand(&mut self, seed: u128) -> (out: Vec<u128>) {
        let mut out: Vec<u128> = Vec::new();
        let n = self.keys.len();
        let mut i: usize = 0;
        while i < n
            invariant
                i <= n,
                n == self.keys@.len(),
                self.keys@ == old(self).keys@,
                out@ == Self::blocks(self.keys@, seed).take(i as int),
            decreases n - i,
        {
            let block = aes128_encrypt_block(self.keys[i], seed) ^ seed;
            out.push(block);
            i += 1;
        }
        out
    }
}

/// Bit `level` of `x`, counted from the most significant bit (level 0) down
/// to the least significant one (level 31): the turn taken at that level of
/// the evaluation tree, `true` for right.
pub open spec fn bit_at(x: u32, level: nat) -> bool {
    (x >> ((31 - level) as u32)) & 1u32 == 1u32
}

/// The top `level` bits of `x`: the node that the walk on `x` has reached
/// after `level` turns.
pub open spec fn prefix(x: u32, level: nat) -> u64 {
    (x as u64) >> ((32 - level) as u64)
}

/// One more turn appends one bit to the prefix.
pub proof fn lemma_prefix_step(x: u32, level: nat)
    requires
        level < 32,
    ensures
        prefix(x, level + 1) == 2 * prefix(x, level) + if bit_at(x, level) {
            1int
        } else {
            0int
        },
{
    let k = (31 - level) as u32;
    let wide = x as u64;
    assert(k < 32 && wide == x as u64 ==> (wide >> (k as u64)) == 2 * (wide >> ((k as u64)
        + 1u64)) + (if (x >> k) & 1u32 == 1u32 {
        1u64
    } else {
        0u64
    })) by (bit_vector);
    assert(((32 - level) as u64) == (k as u64) + 1u64);
}

/// The walk starts at the root and ends at the leaf of `x`.
pub proof fn lemma_prefix_ends(x: u32)
    ensures
        prefix(x, 0) == 0,
        prefix(x, 32) == x,
{
    let wide = x as u64;
    assert(wide == x as u64 ==> wide >> 32u64 == 0 && wide >> 0u64 == wide) by (bit_vector);
}

/// Reads bit `level` of `x`, most significant first.
pub fn bit_decomposition_u32(level: usize, x: u32) -> (bit: bool)
    requires
        level < 32,
    ensures
        bit == bit_at(x, level as nat),
{
    let shift: u32 = 31 - level as u32;
    (x >> shift) & 1 == 1
}

/// Xoring with the difference of two values turns one into the other.
pub proof fn lemma_xor_swap(a: u128, b: u128)
    ensures
        a ^ (a ^ b) == b,
        b ^ (a ^ b) == a,
{
    assert(a ^ (a ^ b) == b) by (bit_vector);
    assert(b ^ (a ^ b) == a) by (bit_vector);
}

/// The seed that a pseudorandom block carries: all but its lowest bit.
pub open spec fn seed_of(block: u128) -> u128 {
    block / 2
}

/// The control bit that a pseudorandom block carries: its lowest bit.
pub open spec fn flag_of(block: u128) -> bool {
    block % 2 == 1
}

/// What one party holds at a node of the tree: a seed and a control bit.
#[derive(Clone, Copy, Debug, PartialEq, Eq)]
pub struct Node {
    pub seed: u128,
    pub flag: bool,
}

/// The node that a pseudorandom block yields for a party: the seed and the
/// control bit that the block carries, each corrected where the control bit
/// `flag` of the party's present node is set.
pub open spec fn node_of(block: u128, seed_cw: u128, flag_cw: bool, flag: bool) -> Node {
    if flag {
        Node { seed: seed_of(block) ^ seed_cw, flag: flag_of(block) != flag_cw }
    } else {
        Node { seed: seed_of(block), flag: flag_of(block) }
    }
}

/// Reads the node that a pseudorandom block yields for a party.
pub fn read_node(block: u128, seed_cw: u128, flag_cw: bool, flag: bool) -> (node: Node)
    ensures
        node == node_of(block, seed_cw, flag_cw, flag),
{
    if flag {
        Node { seed: (block / 2) ^ seed_cw, flag: (block % 2 == 1) != flag_cw }
    } else {
        Node { seed: block / 2, flag: block % 2 == 1 }
    }
}

/// The output mask that a seed converts to: its lowest bit, as 0 or 1.
pub open spec fn mask_of(seed: u128) -> int {
    (seed % 2) as int
}

/// One party's additive share of a node's output. Party 0 reports the mask
/// of its seed, plus the leaf correction where its control bit is set; party
/// 1 reports the negation of the same expression.
pub open spec fn out_share(party_id: u8, seed: u128, flag: bool, leaf: i8) -> int {
    let value = mask_of(seed) + if flag {
        leaf as int
    } else {
        0
    };
    if party_id == 0 {
        value
    } else {
        -value
    }
}

/// The leaf correction that makes the two parties' shares at a node add up
/// to `target`, given the seeds of both parties there and the control bit of
/// the second one.
pub open spec fn leaf_for(target: int, seed_a: u128, seed_b: u128, flag_b: bool) -> int {
    let value = target - mask_of(seed_a) + mask_of(seed_b);
    if flag_b {
        -value
    } else {
        value
    }
}

/// Where the two parties hold the same seed and control bit, their shares
/// cancel, whatever the leaf correction is.
pub proof fn lemma_shares_cancel(seed: u128, flag: bool, leaf: i8)
    ensures
        out_share(0, seed, flag, leaf) + out_share(1, seed, flag, leaf) == 0,
{
}

/// Where the control bits of the two parties differ, the leaf correction
/// computed for `target` makes their shares add up to it.
pub proof fn lemma_shares_hit(
    target: int,
    seed_a: u128,
    flag_a: bool,
    seed_b: u128,
    flag_b: bool,
    leaf: i8,
)
    requires
        flag_a != flag_b,
        leaf == leaf_for(target, seed_a, seed_b, flag_b),
    ensures
        out_share(0, seed_a, flag_a, leaf) + out_share(1, seed_b, flag_b, leaf) == target,
{
}

/// Computes one party's share of a node's output.
pub fn compute_out(party_id: u8, seed: u128, flag: bool, leaf: i8) -> (out: i32)
    ensures
        out == out_share(party_id, seed, flag, leaf),
        -129 <= out <= 129,
{
    let mask: i32 = (seed % 2) as i32;
    let value: i32 = if flag {
        mask + leaf as i32
    } else {
        mask
    };
    if party_id == 0 {
        value
    } else {
        -value
    }
}

/// Computes the leaf correction for a node at which the control bits of the
/// two parties differ.
pub fn share_leaf(target: bool, seed_a: u128, seed_b: u128, flag_b: bool) -> (leaf: i8)
    ensures
        leaf == leaf_for(if target { 1int } else { 0int }, seed_a, seed_b, flag_b),
        -2 <= leaf <= 2,
{
    let goal: i8 = if target {
        1
    } else {
        0
    };
    let value: i8 = goal - (seed_a % 2) as i8 + (seed_b % 2) as i8;
    if flag_b {
        -value
    } else {
        value
    }
}

/// The byte that stores a control bit.
pub open spec fn flag_byte(flag: bool) -> u8 {
    if flag {
        1
    } else {
        0
    }
}

/// The control bit that a byte stores: its lowest bit.
pub open spec fn byte_flag(byte: u8) -> bool {
    byte % 2 == 1
}

/// The byte that stores a leaf correction: its two's complement.
pub open spec fn leaf_byte(leaf: i8) -> u8 {
    leaf as u8
}

/// The leaf correction that a byte stores.
pub open spec fn byte_leaf(byte: u8) -> i8 {
    byte as i8
}

/// A leaf correction is read back as it was stored.
pub proof fn lemma_leaf_byte(leaf: i8)
    ensures
        byte_leaf(leaf_byte(leaf)) == leaf,
{
    assert((leaf as u8) as i8 == leaf) by (bit_vector);
}

/// The records of `records`, one after the other.
pub open spec fn concat(records: Seq<Seq<u8>>) -> Seq<u8>
    decreases records.len(),
{
    if records.len() == 0 {
        Seq::empty()
    } else {
        concat(records.drop_last()) + records.last()
    }
}

/// One more record goes to the end.
pub proof fn lemma_concat_push(records: Seq<Seq<u8>>, last: Seq<u8>)
    ensures
        concat(records.push(last)) == concat(records) + last,
{
    assert(records.push(last).drop_last() =~= records);
}

/// Records of one width lie at the multiples of that width.
pub proof fn lemma_concat_record(records: Seq<Seq<u8>>, width: nat, i: int)
    requires
        forall|j: int| 0 <= j < records.len() ==> (#[trigger] records[j]).len() == width,
        0 <= i < records.len(),
    ensures
        concat(records).len() == width * records.len(),
        width * i + width <= concat(records).len(),
        concat(records).subrange(width * i, width * i + width) == records[i],
    decreases records.len(),
{
    let front = records.drop_last();
    let n = records.len() as int;
    assert(width * n == width * (n - 1) + width) by (nonlinear_arith);
    if front.len() == 0 {
        assert(concat(front) =~= Seq::<u8>::empty());
        assert(width * 0 == 0);
        assert(concat(records).subrange(0, width as int) =~= records[0]);
    } else {
        lemma_concat_record(front, width, 0);
        if i < n - 1 {
            lemma_concat_record(front, width, i);
            assert(width * i + width <= width * (n - 1)) by (nonlinear_arith)
                requires
                    0 <= i < n - 1,
            ;
            assert(concat(records).subrange(width * i, width * i + width) =~= concat(
                front,
            ).subrange(width * i, width * i + width));
        } else {
            assert(concat(records).subrange(width * i, width * i + width) =~= records.last());
        }
    }
}

/// Appends the bytes of `bytes` to `out`.
pub fn append(out: &mut Vec<u8>, bytes: &[u8])
    ensures
        final(out)@ == old(out)@ + bytes@,
{
    let n = bytes.len();
    let mut i: usize = 0;
    while i < n
        invariant
            i <= n,
            n == bytes@.len(),
            out@ == old(out)@ + bytes@.take(i as int),
        decreases n - i,
    {
        out.push(bytes[i]);
        i += 1;
    }
}

/// Appends the four little-endian bytes of `value` to `out`.
pub fn put_u32(out: &mut Vec<u8>, value: u32)
    ensures
        final(out)@ == old(out)@ + spec_u32_to_le_bytes(value),
{
    let bytes = u32_to_le_bytes(value);
    append(out, bytes.as_slice());
}

/// Appends the sixteen little-endian bytes of `value` to `out`.
pub fn put_u128(out: &mut Vec<u8>, value: u128)
    ensures
        final(out)@ == old(out)@ + spec_u128_to_le_bytes(value),
{
    let bytes = u128_to_le_bytes(value);
    append(out, bytes.as_slice());
}

/// Appends the byte of a control bit to `out`.
pub fn put_flag(out: &mut Vec<u8>, flag: bool)
    ensures
        final(out)@ == old(out)@.push(flag_byte(flag)),
{
    out.push(if flag {
        1
    } else {
        0
    });
}

/// Appends the byte of a leaf correction to `out`.
pub fn put_leaf(out: &mut Vec<u8>, leaf: i8)
    ensures
        final(out)@ == old(out)@.push(leaf_byte(leaf)),
{
    out.push(leaf as u8);
}

/// Reads the little-endian `u32` that starts at byte `at`.
pub fn get_u32(line: &[u8], at: usize) -> (value: u32)
    requires
        at + 4 <= line@.len(),
    ensures
        value == spec_u32_from_le_bytes(line@.subrange(at as int, at + 4)),
{
    let len = line.len();
    assert(at + 4 <= len);
    u32_from_le_bytes(slice_subrange(line, at, at + 4))
}

/// Reads the little-endian `u128` that starts at byte `at`.
pub fn get_u128(line: &[u8], at: usize) -> (value: u128)
    requires
        at + 16 <= line@.len(),
    ensures
        value == spec_u128_from_le_bytes(line@.subrange(at as int, at + 16)),
{
    let len = line.len();
    assert(at + 16 <= len);
    u128_from_le_bytes(slice_subrange(line, at, at + 16))
}

/// Reads the control bit stored in byte `at`.
pub fn get_flag(line: &[u8], at: usize) -> (flag: bool)
    requires
        at < line@.len(),
    ensures
        flag == byte_flag(line@[at as int]),
{
    line[at] % 2 == 1
}

/// Reads the leaf correction stored in byte `at`.
pub fn get_leaf(line: &[u8], at: usize) -> (leaf: i8)
    requires
        at < line@.len(),
    ensures
        leaf == byte_leaf(line@[at as int]),
{
    line[at] as i8
}

/// Overwrites the items of `dst` from index `at` on with the items of `src`.
pub fn copy_into<T: Copy>(dst: &mut [T], at: usize, src: &[T])
    requires
        at + src@.len() <= old(dst)@.len(),
    ensures
        final(dst)@ == old(dst)@.subrange(0, at as int) + src@ + old(dst)@.subrange(
            at + src@.len(),
            old(dst)@.len() as int,
        ),
{
    let n = src.len();
    let len = dst.len();
    let mut i: usize = 0;
    while i < n
        invariant
            i <= n,
            n == src@.len(),
            len == old(dst)@.len(),
            len == dst@.len(),
            at + n <= len,
            dst@ == old(dst)@.subrange(0, at as int) + src@.take(i as int) + old(dst)@.subrange(
                at + i,
                len as int,
            ),
        decreases n - i,
    {
        dst[at + i] = src[i];
        i += 1;
    }
}

} // verus!
