//! The equality gate: the two shares add up to 1 on the threshold and to 0
//! on every other input.
//!
//! The construction is a distributed point function over a binary tree of
//! depth 32. Each party walks from its own root seed down the path of the
//! input. The correction words keep the two walks in step: off the path of
//! the threshold both parties hold the same seed and control bit, so their
//! shares cancel; on it their control bits differ, and the leaf correction
//! turns the difference into the value 1.
use vstd::prelude::*;
use vstd::bytes::{
    lemma_auto_spec_u128_to_from_le_bytes, lemma_auto_spec_u32_to_from_le_bytes,
    spec_u128_from_le_bytes, spec_u128_to_le_bytes, spec_u32_from_le_bytes, spec_u32_to_le_bytes,
};
use crate::stream::{expansion_of, Expansion, FSSKey, PRG};
use crate::utils::{
    bit_at, bit_decomposition_u32, byte_flag, byte_leaf, compute_out, concat, flag_byte, flag_of,
    get_flag, get_leaf, get_u128, get_u32, leaf_byte, leaf_for, lemma_concat_push,
    lemma_concat_record, lemma_leaf_byte, lemma_prefix_ends, lemma_prefix_step,
    lemma_shares_cancel, lemma_shares_hit, lemma_xor_swap, out_share, prefix, put_flag, put_leaf,
    put_u128, put_u32, seed_of, share_leaf, draw, node_of, read_node, Node, DRAW_LEN,
};
use crate::FssError;

verus! {

/// The correction applied at one level of the tree by the party whose
/// control bit is set: a seed correction and one control-bit correction for
/// each of the two children.
#[derive(Clone, Copy, Debug, PartialEq, Eq)]
pub struct CompressedCorrectionWord {
    pub s: u128,
    pub t_l: bool,
    pub t_r: bool,
}

/// One party's share of an equality gate.
#[derive(Clone, Copy, Debug, PartialEq, Eq)]
pub struct EqKey {
    /// This party's additive share of the threshold.
    pub alpha_share: u32,
    /// This party's root seed.
    pub s: u128,
    /// The correction words, one per level, the same for both parties.
    pub cw: [CompressedCorrectionWord; 32],
    /// The leaf correction, the same for both parties.
    pub cw_leaf: i8,
}

/// The mathematical model of an `EqKey`.
pub ghost struct EqKeyView {
    pub alpha_share: u32,
    pub s: u128,
    pub cw: Seq<CompressedCorrectionWord>,
    pub cw_leaf: i8,
}

impl View for EqKey {
    type V = EqKeyView;

    open spec fn view(&self) -> EqKeyView {
        EqKeyView { alpha_share: self.alpha_share, s: self.s, cw: self.cw@, cw_leaf: self.cw_leaf }
    }
}

/// The 18 bytes of a correction word: the seed correction, little-endian,
/// then one byte for each control-bit correction.
pub open spec fn eq_encode_word(cw: CompressedCorrectionWord) -> Seq<u8> {
    spec_u128_to_le_bytes(cw.s) + seq![flag_byte(cw.t_l), flag_byte(cw.t_r)]
}

/// The correction word that 18 bytes carry.
pub open spec fn eq_decode_word(bytes: Seq<u8>) -> CompressedCorrectionWord {
    CompressedCorrectionWord {
        s: spec_u128_from_le_bytes(bytes.subrange(0, 16)),
        t_l: byte_flag(bytes[16]),
        t_r: byte_flag(bytes[17]),
    }
}

/// The record of a share: the share of the threshold (4 bytes,
/// little-endian), the root seed (16 bytes, little-endian), the correction
/// words in the order of their levels (18 bytes each), and the leaf
/// correction (1 byte).
pub open spec fn eq_encode(key: EqKeyView) -> Seq<u8> {
    spec_u32_to_le_bytes(key.alpha_share) + spec_u128_to_le_bytes(key.s) + concat(
        key.cw.map_values(|cw: CompressedCorrectionWord| eq_encode_word(cw)),
    ) + seq![leaf_byte(key.cw_leaf)]
}

/// The share that a record carries.
pub open spec fn eq_decode(line: Seq<u8>) -> EqKeyView {
    EqKeyView {
        alpha_share: spec_u32_from_le_bytes(line.subrange(0, 4)),
        s: spec_u128_from_le_bytes(line.subrange(4, 20)),
        cw: Seq::new(
            32,
            |level: int| eq_decode_word(line.subrange(20 + 18 * level, 38 + 18 * level)),
        ),
        cw_leaf: byte_leaf(line[596]),
    }
}

/// A correction word is read back as it was written.
pub proof fn lemma_eq_word_round_trip(cw: CompressedCorrectionWord)
    ensures
        eq_encode_word(cw).len() == 18,
        eq_decode_word(eq_encode_word(cw)) == cw,
{
    lemma_auto_spec_u128_to_from_le_bytes();
    let bytes = eq_encode_word(cw);
    assert(bytes.subrange(0, 16) =~= spec_u128_to_le_bytes(cw.s));
}

/// The record of a share with 32 correction words has 597 bytes, and the
/// share is read back from it as it was written.
pub proof fn lemma_eq_round_trip(key: EqKeyView)
    requires
        key.cw.len() == 32,
    ensures
        eq_encode(key).len() == 597,
        eq_decode(eq_encode(key)) == key,
{
    lemma_auto_spec_u32_to_from_le_bytes();
    lemma_auto_spec_u128_to_from_le_bytes();
    lemma_leaf_byte(key.cw_leaf);
    let words = key.cw.map_values(|cw: CompressedCorrectionWord| eq_encode_word(cw));
    let line = eq_encode(key);
    assert forall|j: int| 0 <= j < words.len() implies (#[trigger] words[j]).len() == 18 by {
        lemma_eq_word_round_trip(key.cw[j]);
    }
    lemma_concat_record(words, 18, 0);
    assert(line.subrange(0, 4) =~= spec_u32_to_le_bytes(key.alpha_share));
    assert(line.subrange(4, 20) =~= spec_u128_to_le_bytes(key.s));
    let decoded = eq_decode(line);
    assert forall|level: int| 0 <= level < 32 implies decoded.cw[level] == key.cw[level] by {
        lemma_concat_record(words, 18, level);
        assert(line.subrange(20 + 18 * level, 38 + 18 * level) =~= concat(words).subrange(
            18 * level,
            18 * level + 18,
        ));
        lemma_eq_word_round_trip(key.cw[level]);
    }
    assert(decoded.cw =~= key.cw);
}

/// The record of a share of the equality gate has 597 bytes.
pub proof fn lemma_eq_key_len()
    ensures
        EqKey::key_len == 597,
{
}

/// The child that a party reaches by one turn, from the expansion `blocks`
/// of its seed and its control bit `flag`. The left child comes from block
/// 0, the right child from block 1.
pub open spec fn eq_turn(
    blocks: Seq<u128>,
    cw: CompressedCorrectionWord,
    flag: bool,
    right: bool,
) -> Node {
    if right {
        node_of(blocks[1], cw.s, cw.t_r, flag)
    } else {
        node_of(blocks[0], cw.s, cw.t_l, flag)
    }
}

/// The node that party `party_id` reaches on the input `x` after `depth` turns.
pub open spec fn eq_walk(
    gen: Expansion,
    key: EqKeyView,
    party_id: u8,
    x: u32,
    depth: nat,
) -> Node
    decreases depth,
{
    if depth == 0 {
        Node { seed: key.s, flag: party_id == 1 }
    } else {
        let level = (depth - 1) as nat;
        let node = eq_walk(gen, key, party_id, x, level);
        eq_turn(gen(node.seed), key.cw[level as int], node.flag, bit_at(x, level))
    }
}

/// What party `party_id` computes from `key` on the input `x`: its share of
/// the output at the leaf of `x`, kept to eight bits.
pub open spec fn eq_share(gen: Expansion, key: EqKeyView, party_id: u8, x: u32) -> i8 {
    let leaf = eq_walk(gen, key, party_id, x, 32);
    out_share(party_id, leaf.seed, leaf.flag, key.cw_leaf) as i8
}

/// The correction word of a level on the path of the threshold, from the
/// expansions of the seeds that the two parties hold there. On the side that
/// the path keeps, the corrected control bits of the two parties differ; on
/// the side that it leaves, their corrected seeds and control bits agree.
pub open spec fn eq_correction(
    blocks_a: Seq<u128>,
    blocks_b: Seq<u128>,
    keep_right: bool,
) -> CompressedCorrectionWord {
    let lose_a = if keep_right {
        blocks_a[0]
    } else {
        blocks_a[1]
    };
    let lose_b = if keep_right {
        blocks_b[0]
    } else {
        blocks_b[1]
    };
    CompressedCorrectionWord {
        s: seed_of(lose_a) ^ seed_of(lose_b),
        t_l: (flag_of(blocks_a[0]) != flag_of(blocks_b[0])) != !keep_right,
        t_r: (flag_of(blocks_a[1]) != flag_of(blocks_b[1])) != keep_right,
    }
}

/// The nodes that the two parties hold on the path of the threshold `alpha`
/// after `depth` turns, starting from the root seeds `seed_a` and `seed_b`.
pub open spec fn eq_path(
    gen: Expansion,
    alpha: u32,
    seed_a: u128,
    seed_b: u128,
    depth: nat,
) -> (Node, Node)
    decreases depth,
{
    if depth == 0 {
        (Node { seed: seed_a, flag: false }, Node { seed: seed_b, flag: true })
    } else {
        let level = (depth - 1) as nat;
        let (a, b) = eq_path(gen, alpha, seed_a, seed_b, level);
        let blocks_a = gen(a.seed);
        let blocks_b = gen(b.seed);
        let right = bit_at(alpha, level);
        let cw = eq_correction(blocks_a, blocks_b, right);
        (eq_turn(blocks_a, cw, a.flag, right), eq_turn(blocks_b, cw, b.flag, right))
    }
}

/// The correction word of level `level` for the threshold `alpha`.
pub open spec fn eq_correction_at(
    gen: Expansion,
    alpha: u32,
    seed_a: u128,
    seed_b: u128,
    level: nat,
) -> CompressedCorrectionWord {
    let (a, b) = eq_path(gen, alpha, seed_a, seed_b, level);
    eq_correction(gen(a.seed), gen(b.seed), bit_at(alpha, level))
}

/// The pair of shares dealt for the threshold `alpha`: party 0 gets the
/// share `mask` of the threshold and the root seed `seed_a`, party 1 the
/// rest of the threshold and `seed_b`; both get the same correction words.
pub open spec fn eq_deal(
    gen: Expansion,
    alpha: u32,
    mask: u32,
    seed_a: u128,
    seed_b: u128,
) -> (EqKeyView, EqKeyView) {
    let cw = Seq::new(
        32,
        |level: int| eq_correction_at(gen, alpha, seed_a, seed_b, level as nat),
    );
    let (a, b) = eq_path(gen, alpha, seed_a, seed_b, 32);
    let cw_leaf = leaf_for(1, a.seed, b.seed, b.flag) as i8;
    (
        EqKeyView { alpha_share: mask, s: seed_a, cw, cw_leaf },
        EqKeyView { alpha_share: alpha.wrapping_sub(mask), s: seed_b, cw, cw_leaf },
    )
}

/// The two walks on an input `x`, compared with the path of the threshold.
/// While `x` follows the path, each party holds the node of the path, and
/// the control bits of the two parties differ. Once `x` has left the path,
/// both parties hold the same node.
pub proof fn lemma_eq_walks_in_step(
    gen: Expansion,
    alpha: u32,
    mask: u32,
    seed_a: u128,
    seed_b: u128,
    x: u32,
    depth: nat,
)
    requires
        depth <= 32,
    ensures
        ({
            let (key_a, key_b) = eq_deal(gen, alpha, mask, seed_a, seed_b);
            let walk_a = eq_walk(gen, key_a, 0, x, depth);
            let walk_b = eq_walk(gen, key_b, 1, x, depth);
            let (path_a, path_b) = eq_path(gen, alpha, seed_a, seed_b, depth);
            &&& prefix(x, depth) == prefix(alpha, depth) ==> walk_a == path_a && walk_b == path_b
                && path_a.flag != path_b.flag
            &&& prefix(x, depth) != prefix(alpha, depth) ==> walk_a == walk_b
        }),
    decreases depth,
{
    if depth == 0 {
        lemma_prefix_ends(x);
        lemma_prefix_ends(alpha);
    } else {
        let level = (depth - 1) as nat;
        lemma_eq_walks_in_step(gen, alpha, mask, seed_a, seed_b, x, level);
        lemma_prefix_step(x, level);
        lemma_prefix_step(alpha, level);
        let (key_a, key_b) = eq_deal(gen, alpha, mask, seed_a, seed_b);
        let (path_a, path_b) = eq_path(gen, alpha, seed_a, seed_b, level);
        let blocks_a = gen(path_a.seed);
        let blocks_b = gen(path_b.seed);
        let cw = eq_correction(blocks_a, blocks_b, bit_at(alpha, level));
        assert(key_a.cw[level as int] == cw);
        assert(key_b.cw[level as int] == cw);
        lemma_xor_swap(seed_of(blocks_a[0]), seed_of(blocks_b[0]));
        lemma_xor_swap(seed_of(blocks_a[1]), seed_of(blocks_b[1]));
    }
}

/// The shares of a dealt pair add up to 1 on the threshold and to 0 on
/// every other input.
pub proof fn lemma_eq_shares_add_up(
    gen: Expansion,
    alpha: u32,
    mask: u32,
    seed_a: u128,
    seed_b: u128,
    x: u32,
)
    ensures
        ({
            let (key_a, key_b) = eq_deal(gen, alpha, mask, seed_a, seed_b);
            eq_share(gen, key_a, 0, x) + eq_share(gen, key_b, 1, x) == if x
                == alpha {
                1int
            } else {
                0int
            }
        }),
{
    lemma_eq_walks_in_step(gen, alpha, mask, seed_a, seed_b, x, 32);
    lemma_prefix_ends(x);
    lemma_prefix_ends(alpha);
    let (key_a, key_b) = eq_deal(gen, alpha, mask, seed_a, seed_b);
    let walk_a = eq_walk(gen, key_a, 0, x, 32);
    let walk_b = eq_walk(gen, key_b, 1, x, 32);
    let leaf = key_a.cw_leaf;
    let (path_a, path_b) = eq_path(gen, alpha, seed_a, seed_b, 32);
    assert(leaf == leaf_for(1, path_a.seed, path_b.seed, path_b.flag));
    if x == alpha {
        lemma_shares_hit(1, walk_a.seed, walk_a.flag, walk_b.seed, walk_b.flag, leaf);
    } else {
        lemma_shares_cancel(walk_a.seed, walk_a.flag, leaf);
    }
}

/// Computes the correction word of one level.
fn eq_correct(blocks_a: &Vec<u128>, blocks_b: &Vec<u128>, keep_right: bool) -> (cw:
    CompressedCorrectionWord)
    requires
        blocks_a@.len() >= 2,
        blocks_b@.len() >= 2,
    ensures
        cw == eq_correction(blocks_a@, blocks_b@, keep_right),
{
    let lose_a = if keep_right {
        blocks_a[0]
    } else {
        blocks_a[1]
    };
    let lose_b = if keep_right {
        blocks_b[0]
    } else {
        blocks_b[1]
    };
    CompressedCorrectionWord {
        s: (lose_a / 2) ^ (lose_b / 2),
        t_l: ((blocks_a[0] % 2 == 1) != (blocks_b[0] % 2 == 1)) != !keep_right,
        t_r: ((blocks_a[1] % 2 == 1) != (blocks_b[1] % 2 == 1)) != keep_right,
    }
}

/// Takes one turn from a node.
fn eq_step(blocks: &Vec<u128>, cw: CompressedCorrectionWord, flag: bool, right: bool) -> (child:
    Node)
    requires
        blocks@.len() >= 2,
    ensures
        child == eq_turn(blocks@, cw, flag, right),
{
    if right {
        read_node(blocks[1], cw.s, cw.t_r, flag)
    } else {
        read_node(blocks[0], cw.s, cw.t_l, flag)
    }
}

#[allow(non_upper_case_globals)]
impl FSSKey for EqKey {
    const key_len: usize = 597;

    open spec fn n_blocks() -> nat {
        2
    }

    open spec fn holds(x: u32, alpha: u32) -> bool {
        x == alpha
    }

    open spec fn encode(key: EqKeyView) -> Seq<u8> {
        eq_encode(key)
    }

    open spec fn decode(line: Seq<u8>) -> EqKeyView {
        eq_decode(line)
    }

    open spec fn share(gen: Expansion, key: EqKeyView, party_id: u8, x: u32) -> i8 {
        eq_share(gen, key, party_id, x)
    }

    open spec fn deal(
        gen: Expansion,
        alpha: u32,
        mask: u32,
        seed_a: u128,
        seed_b: u128,
    ) -> (EqKeyView, EqKeyView) {
        eq_deal(gen, alpha, mask, seed_a, seed_b)
    }

    open spec fn threshold(key_a: EqKeyView, key_b: EqKeyView) -> u32 {
        key_a.alpha_share.wrapping_add(key_b.alpha_share)
    }

    fn from_raw_line(line: &[u8]) -> (r: Result<EqKey, FssError>) {
        if line.len() != Self::key_len {
            return Err(FssError::RecordLength);
        }
        let alpha_share = get_u32(line, 0);
        let s = get_u128(line, 4);
        let mut cw = [CompressedCorrectionWord { s: 0, t_l: false, t_r: false };32];
        let mut level: usize = 0;
        while level < 32
            invariant
                level <= 32,
                line@.len() == 597,
                forall|j: int|
                    0 <= j < level ==> cw@[j] == eq_decode_word(
                        #[trigger] line@.subrange(20 + 18 * j, 38 + 18 * j),
                    ),
            decreases 32 - level,
        {
            let at = 20 + 18 * level;
            let word = CompressedCorrectionWord {
                s: get_u128(line, at),
                t_l: get_flag(line, at + 16),
                t_r: get_flag(line, at + 17),
            };
            proof {
                let bytes = line@.subrange(20 + 18 * level, 38 + 18 * level);
                assert(bytes.subrange(0, 16) =~= line@.subrange(at as int, at + 16));
            }
            cw[level] = word;
            level += 1;
        }
        let cw_leaf = get_leaf(line, 596);
        let key = EqKey { alpha_share, s, cw, cw_leaf };
        assert(key@.cw =~= eq_decode(line@).cw);
        Ok(key)
    }

    fn to_raw_line(&self, out: &mut Vec<u8>) {
        proof {
            lemma_eq_round_trip(self@);
        }
        put_u32(out, self.alpha_share);
        put_u128(out, self.s);
        let ghost head = out@;
        let ghost words = self.cw@.map_values(|cw: CompressedCorrectionWord| eq_encode_word(cw));
        let mut level: usize = 0;
        while level < 32
            invariant
                level <= 32,
                words == self.cw@.map_values(|cw: CompressedCorrectionWord| eq_encode_word(cw)),
                out@ == head + concat(words.take(level as int)),
            decreases 32 - level,
        {
            let word = self.cw[level];
            put_u128(out, word.s);
            put_flag(out, word.t_l);
            put_flag(out, word.t_r);
            proof {
                assert(words.take(level + 1) =~= words.take(level as int).push(
                    words[level as int],
                ));
                lemma_concat_push(words.take(level as int), words[level as int]);
                assert(out@ =~= head + concat(words.take(level + 1)));
            }
            level += 1;
        }
        put_leaf(out, self.cw_leaf);
        proof {
            assert(words.take(32) =~= words);
            assert(out@ =~= old(out)@ + eq_encode(self@));
        }
    }

    fn keypair_from<P: PRG>(
        prg: &mut P,
        alpha: u32,
        mask: u32,
        seed_a: u128,
        seed_b: u128,
    ) -> (pair: (EqKey, EqKey)) {
        let ghost schedule = prg.schedule();
        let ghost gen = expansion_of::<P>(schedule);
        let mut cw = [CompressedCorrectionWord { s: 0, t_l: false, t_r: false };32];
        let mut a = Node { seed: seed_a, flag: false };
        let mut b = Node { seed: seed_b, flag: true };
        let mut level: usize = 0;
        while level < 32
            invariant
                level <= 32,
                prg.schedule() == schedule,
                gen == expansion_of::<P>(schedule),
                schedule.len() >= 2,
                (a, b) == eq_path(gen, alpha, seed_a, seed_b, level as nat),
                forall|j: int|
                    0 <= j < level ==> cw@[j] == #[trigger] eq_correction_at(
                        gen,
                        alpha,
                        seed_a,
                        seed_b,
                        j as nat,
                    ),
            decreases 32 - level,
        {
            let blocks_a = prg.expand(a.seed);
            let blocks_b = prg.expand(b.seed);
            let right = bit_decomposition_u32(level, alpha);
            let word = eq_correct(&blocks_a, &blocks_b, right);
            cw[level] = word;
            a = eq_step(&blocks_a, word, a.flag, right);
            b = eq_step(&blocks_b, word, b.flag, right);
            level += 1;
        }
        let cw_leaf = share_leaf(true, a.seed, b.seed, b.flag);
        let key_a = EqKey { alpha_share: mask, s: seed_a, cw, cw_leaf };
        let key_b = EqKey { alpha_share: alpha.wrapping_sub(mask), s: seed_b, cw, cw_leaf };
        proof {
            let dealt = eq_deal(gen, alpha, mask, seed_a, seed_b);
            assert(key_a@.cw =~= dealt.0.cw);
            assert(key_b@.cw =~= dealt.1.cw);
        }
        (key_a, key_b)
    }

    fn generate_keypair<P: PRG>(prg: &mut P) -> (r: Result<(EqKey, EqKey), FssError>) {
        let ghost schedule = prg.schedule();
        let ghost gen = expansion_of::<P>(schedule);
        let bytes = match draw(DRAW_LEN) {
            Ok(bytes) => bytes,
            Err(e) => {
                return Err(e);
            },
        };
        let alpha = get_u32(bytes.as_slice(), 0);
        let mask = get_u32(bytes.as_slice(), 4);
        let seed_a = get_u128(bytes.as_slice(), 8);
        let seed_b = get_u128(bytes.as_slice(), 24);
        let pair = Self::keypair_from(prg, alpha, mask, seed_a, seed_b);
        let r: Result<(EqKey, EqKey), FssError> = Ok(pair);
        proof {
            Self::lemma_threshold(gen, alpha, mask, seed_a, seed_b);
            let (key_a, key_b) = (r->Ok_0.0@, r->Ok_0.1@);
            assert((key_a, key_b) == Self::deal(
                gen,
                Self::threshold(key_a, key_b),
                mask,
                seed_a,
                seed_b,
            ));
        }
        r
    }

    fn eval<P: PRG>(&self, prg: &mut P, party_id: u8, x: u32) -> (out: i8) {
        let ghost schedule = prg.schedule();
        let ghost gen = expansion_of::<P>(schedule);
        let mut node = Node { seed: self.s, flag: party_id == 1 };
        let mut level: usize = 0;
        while level < 32
            invariant
                level <= 32,
                prg.schedule() == schedule,
                gen == expansion_of::<P>(schedule),
                schedule.len() >= 2,
                node == eq_walk(gen, self@, party_id, x, level as nat),
            decreases 32 - level,
        {
            let blocks = prg.expand(node.seed);
            let right = bit_decomposition_u32(level, x);
            node = eq_step(&blocks, self.cw[level], node.flag, right);
            level += 1;
        }
        let total = compute_out(party_id, node.seed, node.flag, self.cw_leaf);
        #[verifier::truncate]
        (total as i8)
    }

    proof fn lemma_round_trip(key: EqKey) {
        lemma_eq_round_trip(key@);
    }

    proof fn lemma_threshold(
        gen: Expansion,
        alpha: u32,
        mask: u32,
        seed_a: u128,
        seed_b: u128,
    ) {
    }

    proof fn lemma_shares_add_up(
        gen: Expansion,
        alpha: u32,
        mask: u32,
        seed_a: u128,
        seed_b: u128,
        x: u32,
    ) {
        lemma_eq_shares_add_up(gen, alpha, mask, seed_a, seed_b, x);
    }
}

} // verus!
