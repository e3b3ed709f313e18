//! The less-or-equal gate: the two shares add up to 1 on every input up to
//! the threshold and to 0 on every input above it.
//!
//! The parties walk the same tree as in the equality gate. Each turn also
//! yields an exit node, whose output the parties add to a running sum. The
//! correction words arrange that the exits of the two parties differ exactly
//! where the input leaves the path of the threshold, and that their shares
//! there add up to 1 if it leaves to the left (below the threshold) and to 0
//! if it leaves to the right. An input that never leaves the path is the
//! threshold itself, and the leaf adds the 1.
use vstd::prelude::*;
use vstd::bytes::{
    lemma_auto_spec_u128_to_from_le_bytes, lemma_auto_spec_u32_to_from_le_bytes,
    spec_u128_from_le_bytes, spec_u128_to_le_bytes, spec_u32_from_le_bytes, spec_u32_to_le_bytes,
};
use crate::stream::{expansion_of, Expansion, FSSKey, PRG};
use crate::utils::{
    bit_at, bit_decomposition_u32, byte_flag, byte_leaf, compute_out, concat, draw, flag_byte,
    flag_of, get_flag, get_leaf, get_u128, get_u32, leaf_byte, leaf_for, lemma_concat_push,
    lemma_concat_record, lemma_leaf_byte, lemma_prefix_ends, lemma_prefix_step,
    lemma_shares_cancel, lemma_shares_hit, lemma_xor_swap, out_share, prefix, put_flag, put_leaf,
    put_u128, put_u32, seed_of, share_leaf, node_of, read_node, Node, DRAW_LEN,
};
use crate::FssError;

verus! {

/// The correction applied at one level of the tree by the party whose
/// control bit is set. `s`, `t_l` and `t_r` correct the child node, `sigma`,
/// `tau_l` and `tau_r` the exit node; `leaf` is the leaf correction of the
/// exits of this level.
#[derive(Clone, Copy, Debug, PartialEq, Eq)]
pub struct CorrectionWord {
    pub s: u128,
    pub sigma: u128,
    pub t_l: bool,
    pub t_r: bool,
    pub tau_l: bool,
    pub tau_r: bool,
    pub leaf: i8,
}

/// One party's share of a less-or-equal gate.
#[derive(Clone, Copy, Debug, PartialEq, Eq)]
pub struct LeKey {
    /// This party's additive share of the threshold.
    pub alpha_share: u32,
    /// This party's root seed.
    pub s: u128,
    /// The correction words, one per level, the same for both parties.
    pub cw: [CorrectionWord; 32],
    /// The leaf correction of the last node, the same for both parties.
    pub cw_leaf: i8,
}

/// The mathematical model of a `LeKey`.
pub ghost struct LeKeyView {
    pub alpha_share: u32,
    pub s: u128,
    pub cw: Seq<CorrectionWord>,
    pub cw_leaf: i8,
}

impl View for LeKey {
    type V = LeKeyView;

    open spec fn view(&self) -> LeKeyView {
        LeKeyView { alpha_share: self.alpha_share, s: self.s, cw: self.cw@, cw_leaf: self.cw_leaf }
    }
}

/// The 37 bytes of a correction word: the two seed corrections `s` and
/// `sigma`, little-endian, then one byte for each of `t_l`, `t_r`, `tau_l`
/// and `tau_r`, then the leaf correction.
pub open spec fn le_encode_word(cw: CorrectionWord) -> Seq<u8> {
    spec_u128_to_le_bytes(cw.s) + spec_u128_to_le_bytes(cw.sigma) + seq![
        flag_byte(cw.t_l),
        flag_byte(cw.t_r),
        flag_byte(cw.tau_l),
        flag_byte(cw.tau_r),
        leaf_byte(cw.leaf),
    ]
}

/// The correction word that 37 bytes carry.
pub open spec fn le_decode_word(bytes: Seq<u8>) -> CorrectionWord {
    CorrectionWord {
        s: spec_u128_from_le_bytes(bytes.subrange(0, 16)),
        sigma: spec_u128_from_le_bytes(bytes.subrange(16, 32)),
        t_l: byte_flag(bytes[32]),
        t_r: byte_flag(bytes[33]),
        tau_l: byte_flag(bytes[34]),
        tau_r: byte_flag(bytes[35]),
        leaf: byte_leaf(bytes[36]),
    }
}

/// The record of a share: the share of the threshold (4 bytes,
/// little-endian), the root seed (16 bytes, little-endian), the correction
/// words in the order of their levels (37 bytes each), and the leaf
/// correction of the last node (1 byte).
pub open spec fn le_encode(key: LeKeyView) -> Seq<u8> {
    spec_u32_to_le_bytes(key.alpha_share) + spec_u128_to_le_bytes(key.s) + concat(
        key.cw.map_values(|cw: CorrectionWord| le_encode_word(cw)),
    ) + seq![leaf_byte(key.cw_leaf)]
}

/// The share that a record carries.
pub open spec fn le_decode(line: Seq<u8>) -> LeKeyView {
    LeKeyView {
        alpha_share: spec_u32_from_le_bytes(line.subrange(0, 4)),
        s: spec_u128_from_le_bytes(line.subrange(4, 20)),
        cw: Seq::new(
            32,
            |level: int| le_decode_word(line.subrange(20 + 37 * level, 57 + 37 * level)),
        ),
        cw_leaf: byte_leaf(line[1204]),
    }
}

/// A correction word is read back as it was written.
pub proof fn lemma_le_word_round_trip(cw: CorrectionWord)
    ensures
        le_encode_word(cw).len() == 37,
        le_decode_word(le_encode_word(cw)) == cw,
{
    lemma_auto_spec_u128_to_from_le_bytes();
    lemma_leaf_byte(cw.leaf);
    let bytes = le_encode_word(cw);
    assert(bytes.subrange(0, 16) =~= spec_u128_to_le_bytes(cw.s));
    assert(bytes.subrange(16, 32) =~= spec_u128_to_le_bytes(cw.sigma));
}

/// The record of a share with 32 correction words has 1205 bytes, and the
/// share is read back from it as it was written.
pub proof fn lemma_le_round_trip(key: LeKeyView)
    requires
        key.cw.len() == 32,
    ensures
        le_encode(key).len() == 1205,
        le_decode(le_encode(key)) == key,
{
    lemma_auto_spec_u32_to_from_le_bytes();
    lemma_auto_spec_u128_to_from_le_bytes();
    lemma_leaf_byte(key.cw_leaf);
    let words = key.cw.map_values(|cw: CorrectionWord| le_encode_word(cw));
    let line = le_encode(key);
    assert forall|j: int| 0 <= j < words.len() implies (#[trigger] words[j]).len() == 37 by {
        lemma_le_word_round_trip(key.cw[j]);
    }
    lemma_concat_record(words, 37, 0);
    assert(line.subrange(0, 4) =~= spec_u32_to_le_bytes(key.alpha_share));
    assert(line.subrange(4, 20) =~= spec_u128_to_le_bytes(key.s));
    let decoded = le_decode(line);
    assert forall|level: int| 0 <= level < 32 implies decoded.cw[level] == key.cw[level] by {
        lemma_concat_record(words, 37, level);
        assert(line.subrange(20 + 37 * level, 57 + 37 * level) =~= concat(words).subrange(
            37 * level,
            37 * level + 37,
        ));
        lemma_le_word_round_trip(key.cw[level]);
    }
    assert(decoded.cw =~= key.cw);
}

/// The record of a share of the less-or-equal gate has 1205 bytes.
pub proof fn lemma_le_key_len()
    ensures
        LeKey::key_len == 1205,
{
}

/// The child that a party reaches by one turn, from the expansion `blocks`
/// of its seed and its control bit `flag`. The left child comes from block
/// 0, the right child from block 2.
pub open spec fn le_turn(blocks: Seq<u128>, cw: CorrectionWord, flag: bool, right: bool) -> Node {
    if right {
        node_of(blocks[2], cw.s, cw.t_r, flag)
    } else {
        node_of(blocks[0], cw.s, cw.t_l, flag)
    }
}

/// The exit node of one turn. The exit of the left turn comes from block 1,
/// that of the right turn from block 3.
pub open spec fn le_exit(blocks: Seq<u128>, cw: CorrectionWord, flag: bool, right: bool) -> Node {
    if right {
        node_of(blocks[3], cw.sigma, cw.tau_r, flag)
    } else {
        node_of(blocks[1], cw.sigma, cw.tau_l, flag)
    }
}

/// The node that party `party_id` reaches on the input `x` after `depth` turns.
pub open spec fn le_walk(
    gen: Expansion,
    key: LeKeyView,
    party_id: u8,
    x: u32,
    depth: nat,
) -> Node
    decreases depth,
{
    if depth == 0 {
        Node { seed: key.s, flag: party_id == 1 }
    } else {
        let level = (depth - 1) as nat;
        let node = le_walk(gen, key, party_id, x, level);
        le_turn(gen(node.seed), key.cw[level as int], node.flag, bit_at(x, level))
    }
}

/// The share that party `party_id` adds at the turn of level `level`.
pub open spec fn le_level_share(
    gen: Expansion,
    key: LeKeyView,
    party_id: u8,
    x: u32,
    level: nat,
) -> int {
    let node = le_walk(gen, key, party_id, x, level);
    let cw = key.cw[level as int];
    let exit = le_exit(gen(node.seed), cw, node.flag, bit_at(x, level));
    out_share(party_id, exit.seed, exit.flag, cw.leaf)
}

/// The running sum of party `party_id` after `depth` turns.
pub open spec fn le_sum(
    gen: Expansion,
    key: LeKeyView,
    party_id: u8,
    x: u32,
    depth: nat,
) -> int
    decreases depth,
{
    if depth == 0 {
        0
    } else {
        let level = (depth - 1) as nat;
        le_sum(gen, key, party_id, x, level) + le_level_share(
            gen,
            key,
            party_id,
            x,
            level,
        )
    }
}

/// The whole sum of party `party_id` on the input `x`: the shares of all 32
/// turns and the share of the leaf.
pub open spec fn le_total(
    gen: Expansion,
    key: LeKeyView,
    party_id: u8,
    x: u32,
) -> int {
    let leaf = le_walk(gen, key, party_id, x, 32);
    le_sum(gen, key, party_id, x, 32) + out_share(
        party_id,
        leaf.seed,
        leaf.flag,
        key.cw_leaf,
    )
}

/// What party `party_id` computes from `key` on the input `x`: its whole
/// sum, kept to eight bits.
pub open spec fn le_share(gen: Expansion, key: LeKeyView, party_id: u8, x: u32) -> i8 {
    le_total(gen, key, party_id, x) as i8
}

/// The correction word of a level on the path of the threshold, without its
/// leaf correction, from the expansions of the seeds that the two parties
/// hold there. On the side that the path keeps, the corrected control bits of
/// the children differ and the exits agree; on the side that it leaves, the
/// children agree and the corrected control bits of the exits differ.
pub open spec fn le_correction_bare(
    blocks_a: Seq<u128>,
    blocks_b: Seq<u128>,
    keep_right: bool,
) -> CorrectionWord {
    let lose_a = if keep_right {
        blocks_a[0]
    } else {
        blocks_a[2]
    };
    let lose_b = if keep_right {
        blocks_b[0]
    } else {
        blocks_b[2]
    };
    let keep_a = if keep_right {
        blocks_a[3]
    } else {
        blocks_a[1]
    };
    let keep_b = if keep_right {
        blocks_b[3]
    } else {
        blocks_b[1]
    };
    CorrectionWord {
        s: seed_of(lose_a) ^ seed_of(lose_b),
        sigma: seed_of(keep_a) ^ seed_of(keep_b),
        t_l: (flag_of(blocks_a[0]) != flag_of(blocks_b[0])) != !keep_right,
        t_r: (flag_of(blocks_a[2]) != flag_of(blocks_b[2])) != keep_right,
        tau_l: (flag_of(blocks_a[1]) != flag_of(blocks_b[1])) != keep_right,
        tau_r: (flag_of(blocks_a[3]) != flag_of(blocks_b[3])) != !keep_right,
        leaf: 0,
    }
}

/// The correction word of a level on the path of the threshold. Its leaf
/// correction makes the exits on the side that the path leaves add up to 1
/// if that side is the left one, and to 0 if it is the right one.
pub open spec fn le_correction(
    blocks_a: Seq<u128>,
    flag_a: bool,
    blocks_b: Seq<u128>,
    flag_b: bool,
    keep_right: bool,
) -> CorrectionWord {
    let bare = le_correction_bare(blocks_a, blocks_b, keep_right);
    let exit_a = le_exit(blocks_a, bare, flag_a, !keep_right);
    let exit_b = le_exit(blocks_b, bare, flag_b, !keep_right);
    let target = if keep_right {
        1int
    } else {
        0int
    };
    CorrectionWord {
        s: bare.s,
        sigma: bare.sigma,
        t_l: bare.t_l,
        t_r: bare.t_r,
        tau_l: bare.tau_l,
        tau_r: bare.tau_r,
        leaf: leaf_for(target, exit_a.seed, exit_b.seed, exit_b.flag) as i8,
    }
}

/// The nodes that the two parties hold on the path of the threshold `alpha`
/// after `depth` turns, starting from the root seeds `seed_a` and `seed_b`.
pub open spec fn le_path(
    gen: Expansion,
    alpha: u32,
    seed_a: u128,
    seed_b: u128,
    depth: nat,
) -> (Node, Node)
    decreases depth,
{
    if depth == 0 {
        (Node { seed: seed_a, flag: false }, Node { seed: seed_b, flag: true })
    } else {
        let level = (depth - 1) as nat;
        let (a, b) = le_path(gen, alpha, seed_a, seed_b, level);
        let blocks_a = gen(a.seed);
        let blocks_b = gen(b.seed);
        let right = bit_at(alpha, level);
        let cw = le_correction(blocks_a, a.flag, blocks_b, b.flag, right);
        (le_turn(blocks_a, cw, a.flag, right), le_turn(blocks_b, cw, b.flag, right))
    }
}

/// The correction word of level `level` for the threshold `alpha`.
pub open spec fn le_correction_at(
    gen: Expansion,
    alpha: u32,
    seed_a: u128,
    seed_b: u128,
    level: nat,
) -> CorrectionWord {
    let (a, b) = le_path(gen, alpha, seed_a, seed_b, level);
    le_correction(
        gen(a.seed),
        a.flag,
        gen(b.seed),
        b.flag,
        bit_at(alpha, level),
    )
}

/// The pair of shares dealt for the threshold `alpha`: party 0 gets the
/// share `mask` of the threshold and the root seed `seed_a`, party 1 the
/// rest of the threshold and `seed_b`; both get the same correction words.
pub open spec fn le_deal(
    gen: Expansion,
    alpha: u32,
    mask: u32,
    seed_a: u128,
    seed_b: u128,
) -> (LeKeyView, LeKeyView) {
    let cw = Seq::new(
        32,
        |level: int| le_correction_at(gen, alpha, seed_a, seed_b, level as nat),
    );
    let (a, b) = le_path(gen, alpha, seed_a, seed_b, 32);
    let cw_leaf = leaf_for(1, a.seed, b.seed, b.flag) as i8;
    (
        LeKeyView { alpha_share: mask, s: seed_a, cw, cw_leaf },
        LeKeyView { alpha_share: alpha.wrapping_sub(mask), s: seed_b, cw, cw_leaf },
    )
}

/// The two walks on an input `x`, compared with the path of the threshold.
/// While `x` follows the path, each party holds the node of the path, the
/// control bits of the two parties differ, and their running sums cancel.
/// Once `x` has left the path, both parties hold the same node, and their
/// running sums add up to 1 if `x` left to the left and to 0 if it left to
/// the right. No running sum grows by more than 3 in a turn.
pub proof fn lemma_le_walks_in_step(
    gen: Expansion,
    alpha: u32,
    mask: u32,
    seed_a: u128,
    seed_b: u128,
    x: u32,
    depth: nat,
)
    requires
        depth <= 32,
    ensures
        ({
            let (key_a, key_b) = le_deal(gen, alpha, mask, seed_a, seed_b);
            let walk_a = le_walk(gen, key_a, 0, x, depth);
            let walk_b = le_walk(gen, key_b, 1, x, depth);
            let sum_a = le_sum(gen, key_a, 0, x, depth);
            let sum_b = le_sum(gen, key_b, 1, x, depth);
            let (path_a, path_b) = le_path(gen, alpha, seed_a, seed_b, depth);
            &&& prefix(x, depth) == prefix(alpha, depth) ==> walk_a == path_a && walk_b == path_b
                && path_a.flag != path_b.flag && sum_a + sum_b == 0
            &&& prefix(x, depth) < prefix(alpha, depth) ==> walk_a == walk_b && sum_a + sum_b == 1
            &&& prefix(x, depth) > prefix(alpha, depth) ==> walk_a == walk_b && sum_a + sum_b == 0
            &&& -3 * depth <= sum_a <= 3 * depth
            &&& -3 * depth <= sum_b <= 3 * depth
        }),
    decreases depth,
{
    if depth == 0 {
        lemma_prefix_ends(x);
        lemma_prefix_ends(alpha);
    } else {
        let level = (depth - 1) as nat;
        lemma_le_walks_in_step(gen, alpha, mask, seed_a, seed_b, x, level);
        lemma_prefix_step(x, level);
        lemma_prefix_step(alpha, level);
        let (key_a, key_b) = le_deal(gen, alpha, mask, seed_a, seed_b);
        let (path_a, path_b) = le_path(gen, alpha, seed_a, seed_b, level);
        let keep_right = bit_at(alpha, level);
        let right = bit_at(x, level);
        let path_blocks_a = gen(path_a.seed);
        let path_blocks_b = gen(path_b.seed);
        let cw = le_correction(path_blocks_a, path_a.flag, path_blocks_b, path_b.flag, keep_right);
        assert(key_a.cw[level as int] == cw);
        assert(key_b.cw[level as int] == cw);
        assert(-2 <= cw.leaf <= 2);
        let walk_a = le_walk(gen, key_a, 0, x, level);
        let walk_b = le_walk(gen, key_b, 1, x, level);
        let blocks_a = gen(walk_a.seed);
        let blocks_b = gen(walk_b.seed);
        let exit_a = le_exit(blocks_a, cw, walk_a.flag, right);
        let exit_b = le_exit(blocks_b, cw, walk_b.flag, right);
        assert(le_level_share(gen, key_a, 0, x, level) == out_share(
            0,
            exit_a.seed,
            exit_a.flag,
            cw.leaf,
        ));
        assert(le_level_share(gen, key_b, 1, x, level) == out_share(
            1,
            exit_b.seed,
            exit_b.flag,
            cw.leaf,
        ));
        if prefix(x, level) == prefix(alpha, level) {
            lemma_xor_swap(seed_of(blocks_a[0]), seed_of(blocks_b[0]));
            lemma_xor_swap(seed_of(blocks_a[1]), seed_of(blocks_b[1]));
            lemma_xor_swap(seed_of(blocks_a[2]), seed_of(blocks_b[2]));
            lemma_xor_swap(seed_of(blocks_a[3]), seed_of(blocks_b[3]));
            if right == keep_right {
                assert(exit_a == exit_b);
                lemma_shares_cancel(exit_a.seed, exit_a.flag, cw.leaf);
            } else {
                let target = if keep_right {
                    1int
                } else {
                    0int
                };
                lemma_shares_hit(
                    target,
                    exit_a.seed,
                    exit_a.flag,
                    exit_b.seed,
                    exit_b.flag,
                    cw.leaf,
                );
            }
        } else {
            lemma_shares_cancel(exit_a.seed, exit_a.flag, cw.leaf);
        }
    }
}

/// The shares of a dealt pair add up to 1 on every input up to the
/// threshold and to 0 on every input above it.
pub proof fn lemma_le_shares_add_up(
    gen: Expansion,
    alpha: u32,
    mask: u32,
    seed_a: u128,
    seed_b: u128,
    x: u32,
)
    ensures
        ({
            let (key_a, key_b) = le_deal(gen, alpha, mask, seed_a, seed_b);
            le_share(gen, key_a, 0, x) + le_share(gen, key_b, 1, x) == if x
                <= alpha {
                1int
            } else {
                0int
            }
        }),
{
    lemma_le_walks_in_step(gen, alpha, mask, seed_a, seed_b, x, 32);
    lemma_prefix_ends(x);
    lemma_prefix_ends(alpha);
    let (key_a, key_b) = le_deal(gen, alpha, mask, seed_a, seed_b);
    let walk_a = le_walk(gen, key_a, 0, x, 32);
    let walk_b = le_walk(gen, key_b, 1, x, 32);
    let leaf = key_a.cw_leaf;
    let (path_a, path_b) = le_path(gen, alpha, seed_a, seed_b, 32);
    assert(leaf == leaf_for(1, path_a.seed, path_b.seed, path_b.flag));
    if x == alpha {
        lemma_shares_hit(1, walk_a.seed, walk_a.flag, walk_b.seed, walk_b.flag, leaf);
    } else {
        lemma_shares_cancel(walk_a.seed, walk_a.flag, leaf);
    }
}

/// Computes the correction word of one level.
fn le_correct(
    blocks_a: &Vec<u128>,
    flag_a: bool,
    blocks_b: &Vec<u128>,
    flag_b: bool,
    keep_right: bool,
) -> (cw: CorrectionWord)
    requires
        blocks_a@.len() >= 4,
        blocks_b@.len() >= 4,
    ensures
        cw == le_correction(blocks_a@, flag_a, blocks_b@, flag_b, keep_right),
        -2 <= cw.leaf <= 2,
{
    let lose_a = if keep_right {
        blocks_a[0]
    } else {
        blocks_a[2]
    };
    let lose_b = if keep_right {
        blocks_b[0]
    } else {
        blocks_b[2]
    };
    let keep_a = if keep_right {
        blocks_a[3]
    } else {
        blocks_a[1]
    };
    let keep_b = if keep_right {
        blocks_b[3]
    } else {
        blocks_b[1]
    };
    let bare = CorrectionWord {
        s: (lose_a / 2) ^ (lose_b / 2),
        sigma: (keep_a / 2) ^ (keep_b / 2),
        t_l: ((blocks_a[0] % 2 == 1) != (blocks_b[0] % 2 == 1)) != !keep_right,
        t_r: ((blocks_a[2] % 2 == 1) != (blocks_b[2] % 2 == 1)) != keep_right,
        tau_l: ((blocks_a[1] % 2 == 1) != (blocks_b[1] % 2 == 1)) != keep_right,
        tau_r: ((blocks_a[3] % 2 == 1) != (blocks_b[3] % 2 == 1)) != !keep_right,
        leaf: 0,
    };
    let exit_a = le_leave(blocks_a, bare, flag_a, !keep_right);
    let exit_b = le_leave(blocks_b, bare, flag_b, !keep_right);
    let leaf = share_leaf(keep_right, exit_a.seed, exit_b.seed, exit_b.flag);
    CorrectionWord {
        s: bare.s,
        sigma: bare.sigma,
        t_l: bare.t_l,
        t_r: bare.t_r,
        tau_l: bare.tau_l,
        tau_r: bare.tau_r,
        leaf,
    }
}

/// Takes one turn from a node.
fn le_step(blocks: &Vec<u128>, cw: CorrectionWord, flag: bool, right: bool) -> (child: Node)
    requires
        blocks@.len() >= 4,
    ensures
        child == le_turn(blocks@, cw, flag, right),
{
    if right {
        read_node(blocks[2], cw.s, cw.t_r, flag)
    } else {
        read_node(blocks[0], cw.s, cw.t_l, flag)
    }
}

/// Computes the exit node of one turn.
fn le_leave(blocks: &Vec<u128>, cw: CorrectionWord, flag: bool, right: bool) -> (exit: Node)
    requires
        blocks@.len() >= 4,
    ensures
        exit == le_exit(blocks@, cw, flag, right),
{
    if right {
        read_node(blocks[3], cw.sigma, cw.tau_r, flag)
    } else {
        read_node(blocks[1], cw.sigma, cw.tau_l, flag)
    }
}

#[allow(non_upper_case_globals)]
impl FSSKey for LeKey {
    const key_len: usize = 1205;

    open spec fn n_blocks() -> nat {
        4
    }

    open spec fn holds(x: u32, alpha: u32) -> bool {
        x <= alpha
    }

    open spec fn encode(key: LeKeyView) -> Seq<u8> {
        le_encode(key)
    }

    open spec fn decode(line: Seq<u8>) -> LeKeyView {
        le_decode(line)
    }

    open spec fn share(gen: Expansion, key: LeKeyView, party_id: u8, x: u32) -> i8 {
        le_share(gen, key, party_id, x)
    }

    open spec fn deal(
        gen: Expansion,
        alpha: u32,
        mask: u32,
        seed_a: u128,
        seed_b: u128,
    ) -> (LeKeyView, LeKeyView) {
        le_deal(gen, alpha, mask, seed_a, seed_b)
    }

    open spec fn threshold(key_a: LeKeyView, key_b: LeKeyView) -> u32 {
        key_a.alpha_share.wrapping_add(key_b.alpha_share)
    }

    fn from_raw_line(line: &[u8]) -> (r: Result<LeKey, FssError>) {
        if line.len() != Self::key_len {
            return Err(FssError::RecordLength);
        }
        let alpha_share = get_u32(line, 0);
        let s = get_u128(line, 4);
        let blank = CorrectionWord {
            s: 0,
            sigma: 0,
            t_l: false,
            t_r: false,
            tau_l: false,
            tau_r: false,
            leaf: 0,
        };
        let mut cw = [blank;32];
        let mut level: usize = 0;
        while level < 32
            invariant
                level <= 32,
                line@.len() == 1205,
                forall|j: int|
                    0 <= j < level ==> cw@[j] == le_decode_word(
                        #[trigger] line@.subrange(20 + 37 * j, 57 + 37 * j),
                    ),
            decreases 32 - level,
        {
            let at = 20 + 37 * level;
            let word = CorrectionWord {
                s: get_u128(line, at),
                sigma: get_u128(line, at + 16),
                t_l: get_flag(line, at + 32),
                t_r: get_flag(line, at + 33),
                tau_l: get_flag(line, at + 34),
                tau_r: get_flag(line, at + 35),
                leaf: get_leaf(line, at + 36),
            };
            proof {
                let bytes = line@.subrange(20 + 37 * level, 57 + 37 * level);
                assert(bytes.subrange(0, 16) =~= line@.subrange(at as int, at + 16));
                assert(bytes.subrange(16, 32) =~= line@.subrange(at + 16, at + 32));
            }
            cw[level] = word;
            level += 1;
        }
        let cw_leaf = get_leaf(line, 1204);
        let key = LeKey { alpha_share, s, cw, cw_leaf };
        assert(key@.cw =~= le_decode(line@).cw);
        Ok(key)
    }

    fn to_raw_line(&self, out: &mut Vec<u8>) {
        proof {
            lemma_le_round_trip(self@);
        }
        put_u32(out, self.alpha_share);
        put_u128(out, self.s);
        let ghost head = out@;
        let ghost words = self.cw@.map_values(|cw: CorrectionWord| le_encode_word(cw));
        let mut level: usize = 0;
        while level < 32
            invariant
                level <= 32,
                words == self.cw@.map_values(|cw: CorrectionWord| le_encode_word(cw)),
                out@ == head + concat(words.take(level as int)),
            decreases 32 - level,
        {
            let word = self.cw[level];
            put_u128(out, word.s);
            put_u128(out, word.sigma);
            put_flag(out, word.t_l);
            put_flag(out, word.t_r);
            put_flag(out, word.tau_l);
            put_flag(out, word.tau_r);
            put_leaf(out, word.leaf);
            proof {
                assert(words.take(level + 1) =~= words.take(level as int).push(
                    words[level as int],
                ));
                lemma_concat_push(words.take(level as int), words[level as int]);
                assert(out@ =~= head + concat(words.take(level + 1)));
            }
            level += 1;
        }
        put_leaf(out, self.cw_leaf);
        proof {
            assert(words.take(32) =~= words);
            assert(out@ =~= old(out)@ + le_encode(self@));
        }
    }

    fn keypair_from<P: PRG>(
        prg: &mut P,
        alpha: u32,
        mask: u32,
        seed_a: u128,
        seed_b: u128,
    ) -> (pair: (LeKey, LeKey)) {
        let ghost schedule = prg.schedule();
        let ghost gen = expansion_of::<P>(schedule);
        let blank = CorrectionWord {
            s: 0,
            sigma: 0,
            t_l: false,
            t_r: false,
            tau_l: false,
            tau_r: false,
            leaf: 0,
        };
        let mut cw = [blank;32];
        let mut a = Node { seed: seed_a, flag: false };
        let mut b = Node { seed: seed_b, flag: true };
        let mut level: usize = 0;
        while level < 32
            invariant
                level <= 32,
                prg.schedule() == schedule,
                gen == expansion_of::<P>(schedule),
                schedule.len() >= 4,
                (a, b) == le_path(gen, alpha, seed_a, seed_b, level as nat),
                forall|j: int|
                    0 <= j < level ==> cw@[j] == #[trigger] le_correction_at(
                        gen,
                        alpha,
                        seed_a,
                        seed_b,
                        j as nat,
                    ),
            decreases 32 - level,
        {
            let blocks_a = prg.expand(a.seed);
            let blocks_b = prg.expand(b.seed);
            let right = bit_decomposition_u32(level, alpha);
            let word = le_correct(&blocks_a, a.flag, &blocks_b, b.flag, right);
            cw[level] = word;
            a = le_step(&blocks_a, word, a.flag, right);
            b = le_step(&blocks_b, word, b.flag, right);
            level += 1;
        }
        let cw_leaf = share_leaf(true, a.seed, b.seed, b.flag);
        let key_a = LeKey { alpha_share: mask, s: seed_a, cw, cw_leaf };
        let key_b = LeKey { alpha_share: alpha.wrapping_sub(mask), s: seed_b, cw, cw_leaf };
        proof {
            let dealt = le_deal(gen, alpha, mask, seed_a, seed_b);
            assert(key_a@.cw =~= dealt.0.cw);
            assert(key_b@.cw =~= dealt.1.cw);
        }
        (key_a, key_b)
    }

    fn generate_keypair<P: PRG>(prg: &mut P) -> (r: Result<(LeKey, LeKey), FssError>) {
        let ghost schedule = prg.schedule();
        let ghost gen = expansion_of::<P>(schedule);
        let bytes = match draw(DRAW_LEN) {
            Ok(bytes) => bytes,
            Err(e) => {
                return Err(e);
            },
        };
        let alpha = get_u32(bytes.as_slice(), 0);
        let mask = get_u32(bytes.as_slice(), 4);
        let seed_a = get_u128(bytes.as_slice(), 8);
        let seed_b = get_u128(bytes.as_slice(), 24);
        let pair = Self::keypair_from(prg, alpha, mask, seed_a, seed_b);
        let r: Result<(LeKey, LeKey), FssError> = Ok(pair);
        proof {
            Self::lemma_threshold(gen, alpha, mask, seed_a, seed_b);
            let (key_a, key_b) = (r->Ok_0.0@, r->Ok_0.1@);
            assert((key_a, key_b) == Self::deal(
                gen,
                Self::threshold(key_a, key_b),
                mask,
                seed_a,
                seed_b,
            ));
        }
        r
    }

    fn eval<P: PRG>(&self, prg: &mut P, party_id: u8, x: u32) -> (out: i8) {
        let ghost schedule = prg.schedule();
        let ghost gen = expansion_of::<P>(schedule);
        let mut node = Node { seed: self.s, flag: party_id == 1 };
        let mut sum: i32 = 0;
        let mut level: usize = 0;
        while level < 32
            invariant
                level <= 32,
                prg.schedule() == schedule,
                gen == expansion_of::<P>(schedule),
                schedule.len() >= 4,
                node == le_walk(gen, self@, party_id, x, level as nat),
                sum == le_sum(gen, self@, party_id, x, level as nat),
                -129 * level <= sum <= 129 * level,
            decreases 32 - level,
        {
            let blocks = prg.expand(node.seed);
            let right = bit_decomposition_u32(level, x);
            let cw = self.cw[level];
            let exit = le_leave(&blocks, cw, node.flag, right);
            sum = sum + compute_out(party_id, exit.seed, exit.flag, cw.leaf);
            node = le_step(&blocks, cw, node.flag, right);
            level += 1;
        }
        let total = sum + compute_out(party_id, node.seed, node.flag, self.cw_leaf);
        #[verifier::truncate]
        (total as i8)
    }

    proof fn lemma_round_trip(key: LeKey) {
        lemma_le_round_trip(key@);
    }

    proof fn lemma_threshold(
        gen: Expansion,
        alpha: u32,
        mask: u32,
        seed_a: u128,
        seed_b: u128,
    ) {
    }

    proof fn lemma_shares_add_up(
        gen: Expansion,
        alpha: u32,
        mask: u32,
        seed_a: u128,
        seed_b: u128,
        x: u32,
    ) {
        lemma_le_shares_add_up(gen, alpha, mask, seed_a, seed_b, x);
    }
}

} // verus!
