//! The interfaces of the engine, a keyed pseudorandom generator and a key
//! share of one gate, and the work of one stream of a batch: dealing the
//! pairs of its records, and evaluating its records for one party.
use vstd::prelude::*;
use vstd::bytes::{spec_u128_from_le_bytes, spec_u32_from_le_bytes};
use vstd::slice::slice_subrange;
use crate::eq::{lemma_eq_key_len, lemma_eq_round_trip, EqKey};
use crate::le::{lemma_le_key_len, lemma_le_round_trip, LeKey};
use crate::partition::StreamPartition;
use crate::utils::{
    concat, draw, get_u128, get_u32, lemma_concat_push, lemma_concat_record, DRAW_LEN, MMO,
};
use crate::{FssError, GateKind, N};

verus! {

/// A keyed pseudorandom generator: a fixed function from a key schedule and a
/// seed to one pseudorandom block per key of the schedule.
///
/// A generator holds nothing but its schedule: what `expand` returns depends
/// on the schedule and the seed alone, so two generators loaded with the same
/// schedule derive the same blocks from the same seed.
pub trait PRG: Sized {
    /// The key schedule that this generator was loaded with.
    spec fn schedule(&self) -> Seq<u128>;

    /// The blocks that a generator loaded with `schedule` derives from `seed`.
    spec fn blocks(schedule: Seq<u128>, seed: u128) -> Seq<u128>;

    /// Loads a generator with the keys of `key`.
    fn from_slice(key: &[u128]) -> (prg: Self)
        ensures
            prg.schedule() == key@,
    ;

    /// Loads a generator with the keys of `key`.
    fn from_vec(key: &Vec<u128>) -> (prg: Self)
        ensures
            prg.schedule() == key@,
    ;

    /// Derives one block per key from `seed`. The schedule stays as it was.
    fn expand(&mut self, seed: u128) -> (out: Vec<u128>)
        ensures
            final(self).schedule() == old(self).schedule(),
            out@ == Self::blocks(old(self).schedule(), seed),
            out@.len() == old(self).schedule().len(),
    ;
}

/// What a loaded generator computes: the function from a seed to the
/// blocks derived from it.
pub type Expansion = spec_fn(u128) -> Seq<u128>;

/// The expansion function of a generator of kind `P` loaded with `schedule`.
pub open spec fn expansion_of<P: PRG>(schedule: Seq<u128>) -> Expansion {
    |seed: u128| P::blocks(schedule, seed)
}

/// One party's share of the key of one gate.
///
/// A share is modelled by its view. `deal` is the pair of shares that key
/// generation derives from its random draws, `share` what a party computes
/// from its share and a public input, and `encode` and `decode` relate a
/// share to the fixed-length record that carries it from generation to
/// evaluation. `deal` and `share` take the generator as its expansion
/// function `gen`, from a seed to its blocks; what is stated of them holds
/// for every such function.
#[allow(non_upper_case_globals)]
pub trait FSSKey: Sized + View {
    /// Length in bytes of the record of one share.
    const key_len: usize;

    /// How many blocks one expansion of the generator must yield.
    spec fn n_blocks() -> nat;

    /// The predicate of this gate on a public input and the threshold.
    spec fn holds(x: u32, alpha: u32) -> bool;

    /// The record of a share.
    spec fn encode(key: Self::V) -> Seq<u8>;

    /// The share that a record carries.
    spec fn decode(line: Seq<u8>) -> Self::V;

    /// What party `party_id` computes from `key` on the input `x`.
    spec fn share(gen: Expansion, key: Self::V, party_id: u8, x: u32) -> i8;

    /// The two shares dealt for the threshold `alpha` from the draws `mask`,
    /// `seed_a` and `seed_b`.
    spec fn deal(
        gen: Expansion,
        alpha: u32,
        mask: u32,
        seed_a: u128,
        seed_b: u128,
    ) -> (Self::V, Self::V);

    /// The threshold that the two shares of a pair hold between them.
    spec fn threshold(key_a: Self::V, key_b: Self::V) -> u32;

    /// Reads a share from its record. Only the length is checked.
    fn from_raw_line(line: &[u8]) -> (r: Result<Self, FssError>)
        ensures
            line@.len() == Self::key_len ==> r is Ok && r->Ok_0@ == Self::decode(line@),
            line@.len() != Self::key_len ==> r == Err::<Self, FssError>(FssError::RecordLength),
    ;

    /// Appends the record of this share to `out`.
    fn to_raw_line(&self, out: &mut Vec<u8>)
        ensures
            final(out)@ == old(out)@ + Self::encode(self@),
            Self::encode(self@).len() == Self::key_len,
    ;

    /// Evaluates this share for one party on the public input `x`.
    fn eval<P: PRG>(&self, prg: &mut P, party_id: u8, x: u32) -> (out: i8)
        requires
            party_id == 0 || party_id == 1,
            old(prg).schedule().len() >= Self::n_blocks(),
        ensures
            final(prg).schedule() == old(prg).schedule(),
            out == Self::share(expansion_of::<P>(old(prg).schedule()), self@, party_id, x),
    ;

    /// Deals the pair of shares for the threshold `alpha` from the draws
    /// `mask`, `seed_a` and `seed_b`.
    fn keypair_from<P: PRG>(
        prg: &mut P,
        alpha: u32,
        mask: u32,
        seed_a: u128,
        seed_b: u128,
    ) -> (pair: (Self, Self))
        requires
            old(prg).schedule().len() >= Self::n_blocks(),
        ensures
            final(prg).schedule() == old(prg).schedule(),
            (pair.0@, pair.1@) == Self::deal(
                expansion_of::<P>(old(prg).schedule()),
                alpha,
                mask,
                seed_a,
                seed_b,
            ),
    ;

    /// Deals a pair of shares for a fresh random threshold, which is not
    /// returned. Fails only where the operating system gives no randomness.
    fn generate_keypair<P: PRG>(prg: &mut P) -> (r: Result<(Self, Self), FssError>)
        requires
            old(prg).schedule().len() >= Self::n_blocks(),
        ensures
            final(prg).schedule() == old(prg).schedule(),
            r matches Ok(pair) ==> exists|mask: u32, seed_a: u128, seed_b: u128|
                (pair.0@, pair.1@) == #[trigger] Self::deal(
                    expansion_of::<P>(old(prg).schedule()),
                    Self::threshold(pair.0@, pair.1@),
                    mask,
                    seed_a,
                    seed_b,
                ),
            r matches Err(e) ==> e == FssError::Entropy,
    ;

    /// The record of a share has the length of its gate and carries that share.
    proof fn lemma_round_trip(key: Self)
        ensures
            Self::encode(key@).len() == Self::key_len,
            Self::decode(Self::encode(key@)) == key@,
    ;

    /// The two shares of a dealt pair hold the threshold they were dealt for.
    proof fn lemma_threshold(
        gen: Expansion,
        alpha: u32,
        mask: u32,
        seed_a: u128,
        seed_b: u128,
    )
        ensures
            ({
                let (key_a, key_b) = Self::deal(gen, alpha, mask, seed_a, seed_b);
                Self::threshold(key_a, key_b) == alpha
            }),
    ;

    /// The shares that the two parties compute from a dealt pair add up to 1
    /// where the predicate of their gate holds of the input and the threshold,
    /// and to 0 where it does not.
    proof fn lemma_shares_add_up(
        gen: Expansion,
        alpha: u32,
        mask: u32,
        seed_a: u128,
        seed_b: u128,
        x: u32,
    )
        ensures
            ({
                let (key_a, key_b) = Self::deal(gen, alpha, mask, seed_a, seed_b);
                Self::share(gen, key_a, 0, x) + Self::share(gen, key_b, 1, x) == if Self::holds(
                    x,
                    alpha,
                ) {
                    1int
                } else {
                    0int
                }
            }),
    ;
}

/// Whether `key_a` and `key_b` are the two shares of one pair dealt with
/// the expansion function `gen`.
pub open spec fn paired<K: FSSKey>(gen: Expansion, key_a: K::V, key_b: K::V) -> bool {
    exists|mask: u32, seed_a: u128, seed_b: u128|
        (key_a, key_b) == #[trigger] K::deal(gen, K::threshold(key_a, key_b), mask, seed_a, seed_b)
}

/// The two shares of a pair reveal together, on every input, whether the
/// predicate of their gate holds of that input and their threshold: the values
/// that the two parties compute add up to 1 where it holds and to 0 where it
/// does not.
pub proof fn lemma_paired_shares_add_up<K: FSSKey>(
    gen: Expansion,
    key_a: K::V,
    key_b: K::V,
    x: u32,
)
    requires
        paired::<K>(gen, key_a, key_b),
    ensures
        K::share(gen, key_a, 0, x) + K::share(gen, key_b, 1, x) == if K::holds(
            x,
            K::threshold(key_a, key_b),
        ) {
            1int
        } else {
            0int
        },
{
    let alpha = K::threshold(key_a, key_b);
    let (mask, seed_a, seed_b) = choose|mask: u32, seed_a: u128, seed_b: u128|
        (key_a, key_b) == #[trigger] K::deal(gen, alpha, mask, seed_a, seed_b);
    K::lemma_shares_add_up(gen, alpha, mask, seed_a, seed_b, x);
}

/// The record of index `index` in a buffer whose records of `width` bytes
/// start at byte `base`.
pub open spec fn record_at(buffer: Seq<u8>, base: int, width: int, index: int) -> Seq<u8> {
    buffer.subrange(base + width * index, base + width * index + width)
}

/// The public input of index `index` in a buffer of inputs: four bytes,
/// little-endian.
pub open spec fn input_at(xs: Seq<u8>, index: int) -> u32 {
    spec_u32_from_le_bytes(xs.subrange(4 * index, 4 * index + 4))
}

/// What party `party_id` computes on the input `x` from the share that
/// `record` carries.
pub open spec fn record_share(
    kind: GateKind,
    gen: Expansion,
    record: Seq<u8>,
    party_id: u8,
    x: u32,
) -> i8 {
    match kind {
        GateKind::Equality => EqKey::share(gen, EqKey::decode(record), party_id, x),
        GateKind::LessOrEqual => LeKey::share(gen, LeKey::decode(record), party_id, x),
    }
}

/// What `eval_key_stream` returns on given arguments.
pub open spec fn stream_evaluated(
    party_id: u8,
    schedule: Seq<u128>,
    stream: StreamPartition,
    xs: Seq<u8>,
    keys: Seq<u8>,
    kind: GateKind,
    r: Result<Vec<i64>, FssError>,
) -> bool {
    let end = stream.start + stream.length;
    if party_id > 1 {
        r == Err::<Vec<i64>, FssError>(FssError::BadParty)
    } else if schedule.len() != kind.n_aes_keys() {
        r == Err::<Vec<i64>, FssError>(FssError::ScheduleLength)
    } else if keys.len() < kind.header_len() + kind.key_len() * end {
        r == Err::<Vec<i64>, FssError>(FssError::KeyBufferTooSmall)
    } else if xs.len() < 4 * end {
        r == Err::<Vec<i64>, FssError>(FssError::InputBufferTooSmall)
    } else {
        &&& r is Ok
        &&& r->Ok_0@.len() == stream.length
        &&& forall|j: int|
            0 <= j < stream.length ==> #[trigger] r->Ok_0@[j] == record_share(
                kind,
                expansion_of::<MMO>(schedule),
                record_at(
                    keys,
                    kind.header_len() as int,
                    kind.key_len() as int,
                    stream.start + j,
                ),
                party_id,
                input_at(xs, stream.start + j),
            ) as i64
    }
}

/// Evaluation is a function of its arguments: two calls of `eval_key_stream`
/// on the same arguments either both fail with the same error or both
/// return the same shares.
pub proof fn lemma_eval_deterministic(
    party_id: u8,
    schedule: Seq<u128>,
    stream: StreamPartition,
    xs: Seq<u8>,
    keys: Seq<u8>,
    kind: GateKind,
    first: Result<Vec<i64>, FssError>,
    second: Result<Vec<i64>, FssError>,
)
    requires
        stream_evaluated(party_id, schedule, stream, xs, keys, kind, first),
        stream_evaluated(party_id, schedule, stream, xs, keys, kind, second),
    ensures
        first is Ok <==> second is Ok,
        first is Ok ==> first->Ok_0@ == second->Ok_0@,
        first is Err ==> first->Err_0 == second->Err_0,
{
    if first is Ok {
        assert(first->Ok_0@ =~= second->Ok_0@);
    }
}

/// Evaluates the records of one stream for one party: for each record of the
/// stream, in order, the share that the party computes from that record on
/// the input of the same index. `keys` is the whole key buffer of the batch,
/// header included, and `xs` the whole buffer of inputs.
pub fn eval_key_stream(
    party_id: u8,
    aes_keys: &Vec<u128>,
    stream: &StreamPartition,
    xs: &[u8],
    keys: &[u8],
    kind: GateKind,
) -> (r: Result<Vec<i64>, FssError>)
    ensures
        stream_evaluated(party_id, aes_keys@, *stream, xs@, keys@, kind, r),
{
    let key_len = kind.key_len();
    let header_len = kind.header_len();
    if party_id > 1 {
        return Err(FssError::BadParty);
    }
    if aes_keys.len() != kind.n_aes_keys() {
        return Err(FssError::ScheduleLength);
    }
    let ghost end = stream.start + stream.length;
    let keys_len = keys.len();
    let xs_len = xs.len();
    if stream.length > usize::MAX - stream.start {
        assert(kind.key_len() * end >= end) by (nonlinear_arith)
            requires
                kind.key_len() >= 1,
                end >= 0,
        ;
        return Err(FssError::KeyBufferTooSmall);
    }
    let last = stream.start + stream.length;
    if keys_len < header_len || last > (keys_len - header_len) / key_len {
        assert(keys_len < header_len + key_len * last) by (nonlinear_arith)
            requires
                keys_len < header_len || last > (keys_len - header_len) / (key_len as int),
                key_len >= 1,
                header_len >= 0,
        ;
        return Err(FssError::KeyBufferTooSmall);
    }
    assert(header_len + key_len * last <= keys_len) by (nonlinear_arith)
        requires
            keys_len >= header_len,
            last <= (keys_len - header_len) / (key_len as int),
            key_len >= 1,
    ;
    if last > xs_len / 4 {
        return Err(FssError::InputBufferTooSmall);
    }
    let mut prg = MMO::from_vec(aes_keys);
    let ghost gen = expansion_of::<MMO>(aes_keys@);
    let mut out: Vec<i64> = Vec::new();
    let mut line_counter: usize = 0;
    while line_counter < stream.length
        invariant
            line_counter <= stream.length,
            party_id <= 1,
            last == stream.start + stream.length,
            key_len == kind.key_len(),
            header_len == kind.header_len(),
            keys_len == keys@.len(),
            xs_len == xs@.len(),
            header_len + key_len * last <= keys_len,
            4 * last <= xs_len,
            prg.schedule() == aes_keys@,
            aes_keys@.len() == kind.n_aes_keys(),
            gen == expansion_of::<MMO>(aes_keys@),
            out@.len() == line_counter,
            forall|j: int|
                0 <= j < line_counter ==> #[trigger] out@[j] == record_share(
                    kind,
                    gen,
                    record_at(keys@, header_len as int, key_len as int, stream.start + j),
                    party_id,
                    input_at(xs@, stream.start + j),
                ) as i64,
        decreases stream.length - line_counter,
    {
        let index = stream.start + line_counter;
        assert(key_len * index + key_len <= key_len * last) by (nonlinear_arith)
            requires
                index < last,
                key_len >= 0,
        ;
        let x = get_u32(xs, N * index);
        let at = header_len + key_len * index;
        let line = slice_subrange(keys, at, at + key_len);
        proof {
            lemma_eq_key_len();
            lemma_le_key_len();
        }
        let share = match kind {
            GateKind::Equality => {
                match EqKey::from_raw_line(line) {
                    Ok(key) => key.eval(&mut prg, party_id, x),
                    Err(e) => {
                        return Err(e);
                    },
                }
            },
            GateKind::LessOrEqual => {
                match LeKey::from_raw_line(line) {
                    Ok(key) => key.eval(&mut prg, party_id, x),
                    Err(e) => {
                        return Err(e);
                    },
                }
            },
        };
        out.push(share as i64);
        line_counter += 1;
    }
    Ok(out)
}

/// The draws that the 40 bytes of index `index` in `entropy` hold: the
/// threshold and the first party's share of it (4 bytes each,
/// little-endian), then the two root seeds (16 bytes each, little-endian).
pub open spec fn draw_at(entropy: Seq<u8>, index: int) -> (u32, u32, u128, u128) {
    let at = 40 * index;
    (
        spec_u32_from_le_bytes(entropy.subrange(at, at + 4)),
        spec_u32_from_le_bytes(entropy.subrange(at + 4, at + 8)),
        spec_u128_from_le_bytes(entropy.subrange(at + 8, at + 24)),
        spec_u128_from_le_bytes(entropy.subrange(at + 24, at + 40)),
    )
}

/// The records of the two shares dealt from `draws`.
pub open spec fn dealt_records(
    kind: GateKind,
    gen: Expansion,
    draws: (u32, u32, u128, u128),
) -> (Seq<u8>, Seq<u8>) {
    match kind {
        GateKind::Equality => {
            let (key_a, key_b) = EqKey::deal(gen, draws.0, draws.1, draws.2, draws.3);
            (EqKey::encode(key_a), EqKey::encode(key_b))
        },
        GateKind::LessOrEqual => {
            let (key_a, key_b) = LeKey::deal(gen, draws.0, draws.1, draws.2, draws.3);
            (LeKey::encode(key_a), LeKey::encode(key_b))
        },
    }
}

/// The records of the first party (`second` false) or of the second party
/// (`second` true) in the `count` pairs dealt from the draws in `entropy`.
pub open spec fn dealt_stream(
    kind: GateKind,
    gen: Expansion,
    entropy: Seq<u8>,
    count: nat,
    second: bool,
) -> Seq<Seq<u8>> {
    Seq::new(
        count,
        |j: int|
            if second {
                dealt_records(kind, gen, draw_at(entropy, j)).1
            } else {
                dealt_records(kind, gen, draw_at(entropy, j)).0
            },
    )
}

/// Whether `record_a` and `record_b` carry the two shares of one pair dealt
/// with the expansion function `gen`.
pub open spec fn records_paired(
    kind: GateKind,
    gen: Expansion,
    record_a: Seq<u8>,
    record_b: Seq<u8>,
) -> bool {
    match kind {
        GateKind::Equality => paired::<EqKey>(
            gen,
            EqKey::decode(record_a),
            EqKey::decode(record_b),
        ),
        GateKind::LessOrEqual => paired::<LeKey>(
            gen,
            LeKey::decode(record_a),
            LeKey::decode(record_b),
        ),
    }
}

/// The threshold that the shares in two records of a pair hold between them.
pub open spec fn records_threshold(kind: GateKind, record_a: Seq<u8>, record_b: Seq<u8>) -> u32 {
    match kind {
        GateKind::Equality => EqKey::threshold(EqKey::decode(record_a), EqKey::decode(record_b)),
        GateKind::LessOrEqual => LeKey::threshold(
            LeKey::decode(record_a),
            LeKey::decode(record_b),
        ),
    }
}

/// The predicate of a gate on a public input and the threshold.
pub open spec fn gate_holds(kind: GateKind, x: u32, alpha: u32) -> bool {
    match kind {
        GateKind::Equality => x == alpha,
        GateKind::LessOrEqual => x <= alpha,
    }
}

/// The records dealt from any draws have the length of their gate and carry
/// the two shares of a pair, whose threshold is the one drawn.
pub proof fn lemma_dealt_records_paired(
    kind: GateKind,
    gen: Expansion,
    draws: (u32, u32, u128, u128),
)
    ensures
        dealt_records(kind, gen, draws).0.len() == kind.key_len(),
        dealt_records(kind, gen, draws).1.len() == kind.key_len(),
        records_paired(
            kind,
            gen,
            dealt_records(kind, gen, draws).0,
            dealt_records(kind, gen, draws).1,
        ),
        records_threshold(
            kind,
            dealt_records(kind, gen, draws).0,
            dealt_records(kind, gen, draws).1,
        ) == draws.0,
{
    match kind {
        GateKind::Equality => {
            let (key_a, key_b) = EqKey::deal(gen, draws.0, draws.1, draws.2, draws.3);
            lemma_eq_round_trip(key_a);
            lemma_eq_round_trip(key_b);
            EqKey::lemma_threshold(gen, draws.0, draws.1, draws.2, draws.3);
            assert((key_a, key_b) == EqKey::deal(
                gen,
                EqKey::threshold(key_a, key_b),
                draws.1,
                draws.2,
                draws.3,
            ));
        },
        GateKind::LessOrEqual => {
            let (key_a, key_b) = LeKey::deal(gen, draws.0, draws.1, draws.2, draws.3);
            lemma_le_round_trip(key_a);
            lemma_le_round_trip(key_b);
            LeKey::lemma_threshold(gen, draws.0, draws.1, draws.2, draws.3);
            assert((key_a, key_b) == LeKey::deal(
                gen,
                LeKey::threshold(key_a, key_b),
                draws.1,
                draws.2,
                draws.3,
            ));
        },
    }
}

/// The shares that the two parties compute from the two records of a pair
/// add up to 1 where the predicate of their gate holds of the input and
/// their threshold, and to 0 where it does not.
pub proof fn lemma_record_shares_add_up(
    kind: GateKind,
    gen: Expansion,
    record_a: Seq<u8>,
    record_b: Seq<u8>,
    x: u32,
)
    requires
        records_paired(kind, gen, record_a, record_b),
    ensures
        record_share(kind, gen, record_a, 0, x) + record_share(kind, gen, record_b, 1, x)
            == if gate_holds(kind, x, records_threshold(kind, record_a, record_b)) {
            1int
        } else {
            0int
        },
{
    match kind {
        GateKind::Equality => {
            lemma_paired_shares_add_up::<EqKey>(
                gen,
                EqKey::decode(record_a),
                EqKey::decode(record_b),
                x,
            );
        },
        GateKind::LessOrEqual => {
            lemma_paired_shares_add_up::<LeKey>(
                gen,
                LeKey::decode(record_a),
                LeKey::decode(record_b),
                x,
            );
        },
    }
}

/// Deals `stream_length` pairs of shares from the draws in `entropy`, 40
/// bytes for each pair, and returns the records of the first party, one
/// after the other, and those of the second party.
pub fn key_stream_from(
    aes_keys: &Vec<u128>,
    stream_length: usize,
    kind: GateKind,
    entropy: &[u8],
) -> (r: Result<(Vec<u8>, Vec<u8>), FssError>)
    ensures
        aes_keys@.len() != kind.n_aes_keys() ==> r == Err::<(Vec<u8>, Vec<u8>), FssError>(
            FssError::ScheduleLength,
        ),
        aes_keys@.len() == kind.n_aes_keys() && entropy@.len() != 40 * stream_length ==> r == Err::<
            (Vec<u8>, Vec<u8>),
            FssError,
        >(FssError::Entropy),
        aes_keys@.len() == kind.n_aes_keys() && entropy@.len() == 40 * stream_length ==> r is Ok
            && r->Ok_0.0@ == concat(
            dealt_stream(
                kind,
                expansion_of::<MMO>(aes_keys@),
                entropy@,
                stream_length as nat,
                false,
            ),
        ) && r->Ok_0.1@ == concat(
            dealt_stream(
                kind,
                expansion_of::<MMO>(aes_keys@),
                entropy@,
                stream_length as nat,
                true,
            ),
        ),
{
    if aes_keys.len() != kind.n_aes_keys() {
        return Err(FssError::ScheduleLength);
    }
    let entropy_len = entropy.len();
    if entropy_len % DRAW_LEN != 0 || entropy_len / DRAW_LEN != stream_length {
        return Err(FssError::Entropy);
    }
    let mut prg = MMO::from_vec(aes_keys);
    let ghost gen = expansion_of::<MMO>(aes_keys@);
    let ghost records_a = dealt_stream(kind, gen, entropy@, stream_length as nat, false);
    let ghost records_b = dealt_stream(kind, gen, entropy@, stream_length as nat, true);
    let mut out_a: Vec<u8> = Vec::new();
    let mut out_b: Vec<u8> = Vec::new();
    let mut line_counter: usize = 0;
    while line_counter < stream_length
        invariant
            line_counter <= stream_length,
            entropy_len == entropy@.len(),
            entropy_len == 40 * stream_length,
            prg.schedule() == aes_keys@,
            aes_keys@.len() == kind.n_aes_keys(),
            gen == expansion_of::<MMO>(aes_keys@),
            records_a == dealt_stream(kind, gen, entropy@, stream_length as nat, false),
            records_b == dealt_stream(kind, gen, entropy@, stream_length as nat, true),
            out_a@ == concat(records_a.take(line_counter as int)),
            out_b@ == concat(records_b.take(line_counter as int)),
        decreases stream_length - line_counter,
    {
        let at = DRAW_LEN * line_counter;
        let alpha = get_u32(entropy, at);
        let mask = get_u32(entropy, at + 4);
        let seed_a = get_u128(entropy, at + 8);
        let seed_b = get_u128(entropy, at + 24);
        let ghost before_a = out_a@;
        let ghost before_b = out_b@;
        match kind {
            GateKind::Equality => {
                let (key_a, key_b) = EqKey::keypair_from(&mut prg, alpha, mask, seed_a, seed_b);
                key_a.to_raw_line(&mut out_a);
                key_b.to_raw_line(&mut out_b);
            },
            GateKind::LessOrEqual => {
                let (key_a, key_b) = LeKey::keypair_from(&mut prg, alpha, mask, seed_a, seed_b);
                key_a.to_raw_line(&mut out_a);
                key_b.to_raw_line(&mut out_b);
            },
        }
        proof {
            let j = line_counter as int;
            assert(out_a@ == before_a + records_a[j]);
            assert(out_b@ == before_b + records_b[j]);
            assert(records_a.take(j + 1) =~= records_a.take(j).push(records_a[j]));
            assert(records_b.take(j + 1) =~= records_b.take(j).push(records_b[j]));
            lemma_concat_push(records_a.take(j), records_a[j]);
            lemma_concat_push(records_b.take(j), records_b[j]);
        }
        line_counter += 1;
    }
    proof {
        assert(records_a.take(stream_length as int) =~= records_a);
        assert(records_b.take(stream_length as int) =~= records_b);
    }
    Ok((out_a, out_b))
}

/// What `generate_key_stream` returns on given arguments.
pub open spec fn stream_generated(
    schedule: Seq<u128>,
    stream: StreamPartition,
    kind: GateKind,
    r: Result<(Vec<u8>, Vec<u8>), FssError>,
) -> bool {
    if schedule.len() != kind.n_aes_keys() {
        r == Err::<(Vec<u8>, Vec<u8>), FssError>(FssError::ScheduleLength)
    } else if kind.key_len() * stream.length > usize::MAX {
        r == Err::<(Vec<u8>, Vec<u8>), FssError>(FssError::TooManyValues)
    } else {
        &&& r matches Err(e) ==> e == FssError::Entropy
        &&& r matches Ok(chunks) ==> {
            &&& chunks.0@.len() == kind.key_len() * stream.length
            &&& chunks.1@.len() == kind.key_len() * stream.length
            &&& forall|j: int|
                0 <= j < stream.length ==> records_paired(
                    kind,
                    expansion_of::<MMO>(schedule),
                    #[trigger] record_at(chunks.0@, 0, kind.key_len() as int, j),
                    record_at(chunks.1@, 0, kind.key_len() as int, j),
                )
        }
    }
}

/// Deals one pair of shares for each record of a stream, each for a fresh
/// random threshold, and returns the records of the first party, one after
/// the other, and those of the second party. Once the arguments are in
/// order, this fails only where the operating system gives no randomness.
pub fn generate_key_stream(aes_keys: &Vec<u128>, stream: &StreamPartition, kind: GateKind) -> (r:
    Result<(Vec<u8>, Vec<u8>), FssError>)
    ensures
        stream_generated(aes_keys@, *stream, kind, r),
{
    if aes_keys.len() != kind.n_aes_keys() {
        return Err(FssError::ScheduleLength);
    }
    let key_len = kind.key_len();
    if stream.length > usize::MAX / key_len {
        assert(key_len * stream.length > usize::MAX) by (nonlinear_arith)
            requires
                stream.length > usize::MAX / key_len,
                key_len >= 1,
        ;
        return Err(FssError::TooManyValues);
    }
    assert(key_len * stream.length <= usize::MAX) by (nonlinear_arith)
        requires
            stream.length <= usize::MAX / key_len,
            key_len >= 1,
    ;
    assert(DRAW_LEN * stream.length <= key_len * stream.length) by (nonlinear_arith)
        requires
            DRAW_LEN <= key_len,
            stream.length >= 0,
    ;
    let entropy = match draw(DRAW_LEN * stream.length) {
        Ok(entropy) => entropy,
        Err(e) => {
            return Err(e);
        },
    };
    let r = key_stream_from(aes_keys, stream.length, kind, entropy.as_slice());
    proof {
        let gen = expansion_of::<MMO>(aes_keys@);
        let count = stream.length as nat;
        let width = kind.key_len() as nat;
        let records_a = dealt_stream(kind, gen, entropy@, count, false);
        let records_b = dealt_stream(kind, gen, entropy@, count, true);
        assert forall|j: int| 0 <= j < count implies (#[trigger] records_a[j]).len() == width by {
            lemma_dealt_records_paired(kind, gen, draw_at(entropy@, j));
        }
        assert forall|j: int| 0 <= j < count implies (#[trigger] records_b[j]).len() == width by {
            lemma_dealt_records_paired(kind, gen, draw_at(entropy@, j));
        }
        assert forall|j: int| 0 <= j < count implies records_paired(
            kind,
            gen,
            #[trigger] record_at(r->Ok_0.0@, 0, width as int, j),
            record_at(r->Ok_0.1@, 0, width as int, j),
        ) by {
            lemma_concat_record(records_a, width, j);
            lemma_concat_record(records_b, width, j);
            lemma_dealt_records_paired(kind, gen, draw_at(entropy@, j));
        }
        if count > 0 {
            lemma_concat_record(records_a, width, 0);
            lemma_concat_record(records_b, width, 0);
        } else {
            assert(concat(records_a) =~= Seq::<u8>::empty());
            assert(concat(records_b) =~= Seq::<u8>::empty());
        }
    }
    r
}

} // verus!
