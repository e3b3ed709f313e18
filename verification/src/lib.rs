//! Two-party function secret sharing for comparison gates.
//!
//! A dealer generates pairs of key shares for a secret threshold `alpha`.
//! Each party evaluates its own share on a public input `x`, and the two
//! results add up to `1` when its gate's predicate holds of `(x, alpha)` and
//! to `0` when it does not. Two gates are offered: equality (`x == alpha`)
//! and less-or-equal (`x <= alpha`).
//!
//! # Batches
//!
//! `keygen` deals a batch of pairs into two key buffers, one for each party,
//! and `eval` evaluates one party's buffer on a buffer of inputs. A key
//! buffer starts with a header, the key schedule of the pseudorandom
//! generator (16 bytes for each key, little-endian), which is the same for
//! both parties. The records of the shares follow in the order of their
//! indices, each of the fixed length of its gate. A batch is split into at
//! most 128 streams of consecutive records, and the streams are worked on in
//! parallel.
//!
//! # What a share hides
//!
//! The shares of a pair are small signed integers whose plain sum is the
//! value of the predicate. The output masks that keep one share from showing
//! the predicate are single bits: a share evaluated alone shows no step at
//! the threshold, but sums that are exact over the integers leave the masks
//! too little room to hide the threshold from a party that studies its own
//! share at length.
//!
//! # Query errors
//!
//! The module `errors` serves the query bindings that ship with the engine:
//! it gathers the errors of the query engine into one type with a message.
use vstd::prelude::*;
use vstd::bytes::{
    lemma_auto_spec_u128_to_from_le_bytes, spec_u128_from_le_bytes, spec_u128_to_le_bytes,
    u128_to_le_bytes,
};
use crate::partition::{follows, lemma_tiles_bound, partition, tiles, StreamPartition};
use crate::stream::{
    eval_key_stream, expansion_of, gate_holds, generate_key_stream,
    lemma_record_shares_add_up, record_at, record_share, records_paired, records_threshold,
    input_at, stream_evaluated, stream_generated,
};
use crate::utils::{
    concat, copy_into, draw, get_u128, lemma_concat_push, lemma_concat_record, MMO,
};
use rayon::iter::{IntoParallelRefIterator, ParallelIterator};

pub mod eq;
pub mod errors;
pub mod le;
pub mod partition;
pub mod stream;
pub mod utils;

verus! {

/// Width in bytes of one public input.
pub const N: usize = 4;

/// Width in bytes of one block-cipher key (and of one seed).
pub const L: usize = 16;

/// Number of streams that a batch is split into.
pub const N_AES_STREAMS: usize = 128;

/// The two gates of the engine.
#[derive(Clone, Copy, Debug, PartialEq, Eq)]
pub enum GateKind {
    /// Shares that reveal whether `x == alpha`.
    Equality,
    /// Shares that reveal whether `x <= alpha`.
    LessOrEqual,
}

impl GateKind {
    /// Length in bytes of the record of one share.
    pub open spec fn spec_key_len(self) -> usize {
        match self {
            GateKind::Equality => 597,
            GateKind::LessOrEqual => 1205,
        }
    }

    /// Length in bytes of the record of one share.
    #[verifier::when_used_as_spec(spec_key_len)]
    pub fn key_len(self) -> (len: usize)
        ensures
            len == self.spec_key_len(),
    {
        match self {
            GateKind::Equality => 597,
            GateKind::LessOrEqual => 1205,
        }
    }

    /// Number of keys in the key schedule.
    pub open spec fn spec_n_aes_keys(self) -> usize {
        match self {
            GateKind::Equality => 2,
            GateKind::LessOrEqual => 4,
        }
    }

    /// Number of keys in the key schedule.
    #[verifier::when_used_as_spec(spec_n_aes_keys)]
    pub fn n_aes_keys(self) -> (n: usize)
        ensures
            n == self.spec_n_aes_keys(),
    {
        match self {
            GateKind::Equality => 2,
            GateKind::LessOrEqual => 4,
        }
    }

    /// Length in bytes of the header of a key buffer: the key schedule, 16
    /// bytes for each key.
    pub open spec fn spec_header_len(self) -> usize {
        match self {
            GateKind::Equality => 32,
            GateKind::LessOrEqual => 64,
        }
    }

    /// Length in bytes of the header of a key buffer.
    #[verifier::when_used_as_spec(spec_header_len)]
    pub fn header_len(self) -> (len: usize)
        ensures
            len == self.spec_header_len(),
            len == L * self.n_aes_keys(),
    {
        L * self.n_aes_keys()
    }

    /// The kind that a numeric operation id selects: 0 for equality, 1 for
    /// less-or-equal, none for any other id.
    pub fn from_op_id(op_id: usize) -> (kind: Option<GateKind>)
        ensures
            op_id == 0 ==> kind == Some(GateKind::Equality),
            op_id == 1 ==> kind == Some(GateKind::LessOrEqual),
            op_id > 1 ==> kind.is_none(),
    {
        if op_id == 0 {
            Some(GateKind::Equality)
        } else if op_id == 1 {
            Some(GateKind::LessOrEqual)
        } else {
            None
        }
    }
}

/// The parameters of a gate: the number of keys in its key schedule, the
/// length of one record, and the number of streams of a batch.
pub fn build_params(kind: GateKind) -> (params: (usize, usize, usize))
    ensures
        params == (kind.n_aes_keys(), kind.key_len(), N_AES_STREAMS),
{
    let (keylen, n_aes_keys) = match kind {
        GateKind::LessOrEqual => (1205, 4),
        GateKind::Equality => (597, 2),
    };
    let n_aes_streams = N_AES_STREAMS;
    (n_aes_keys, keylen, n_aes_streams)
}

/// What the engine reports instead of a result.
#[derive(Clone, Copy, Debug, PartialEq, Eq)]
pub enum FssError {
    /// The party id is neither 0 nor 1.
    BadParty,
    /// A key record does not have the length of its gate.
    RecordLength,
    /// The key schedule does not have the length of its gate.
    ScheduleLength,
    /// The key buffer is shorter than the header and the records asked for.
    KeyBufferTooSmall,
    /// The input buffer is shorter than the inputs asked for.
    InputBufferTooSmall,
    /// The output buffer is shorter than the results asked for.
    OutputBufferTooSmall,
    /// The number of values does not fit a buffer on this machine.
    TooManyValues,
    /// The randomness at hand is not what dealing takes: the operating
    /// system gave none, or the bytes handed in are not 40 for each pair.
    Entropy,
    /// The worker threads could not be started.
    ThreadPool,
}

/// The thread pool of the `rayon` crate.
#[verifier::external_type_specification]
#[verifier::external_body]
pub struct ExThreadPool(rayon::ThreadPool);

/// The error of the `rayon` crate for a thread pool that could not be built.
#[verifier::external_type_specification]
#[verifier::external_body]
pub struct ExThreadPoolBuildError(rayon::ThreadPoolBuildError);

/// Calls `ThreadPoolBuilder::new`, `num_threads` and `build` of the `rayon`
/// crate, which ask for a pool of `n_threads` worker threads; `rayon`
/// chooses the number where `n_threads` is 0 and lowers it where it is above
/// its own maximum. Nothing is claimed of the pool, nor of when the build
/// fails.
#[verifier::external_body]
fn build_pool(n_threads: usize) -> (r: Result<rayon::ThreadPool, rayon::ThreadPoolBuildError>) {
    rayon::ThreadPoolBuilder::new().num_threads(n_threads).build()
}

/// Calls `ThreadPool::install` of the `rayon` crate on a parallel iterator
/// over `items`, with `map` and `collect`. The workers of the pool call `f`
/// once on each item, and `collect` returns the results in the order of the
/// items.
#[verifier::external_body]
fn par_map<T: Sync, R: Send, F: Fn(&T) -> R + Sync + Send>(
    pool: &rayon::ThreadPool,
    items: &Vec<T>,
    f: F,
) -> (out: Vec<R>)
    requires
        forall|k: int| 0 <= k < items@.len() ==> call_requires(f, (&#[trigger] items@[k],)),
    ensures
        out@.len() == items@.len(),
        forall|k: int|
            0 <= k < items@.len() ==> call_ensures(f, (&items@[k],), #[trigger] out@[k]),
{
    pool.install(|| items.par_iter().map(|item| f(item)).collect())
}

/// The number of bytes that the header and `n_values` records take.
pub open spec fn buffer_len(kind: GateKind, n_values: int) -> int {
    kind.header_len() + kind.key_len() * n_values
}

/// The 16 bytes of key `index` in the header of a key buffer.
pub open spec fn key_bytes(keys: Seq<u8>, index: int) -> Seq<u8> {
    keys.subrange(16 * index, 16 * index + 16)
}

/// The key schedule in the header of a key buffer: one key for each 16
/// bytes, little-endian.
pub open spec fn schedule_of(keys: Seq<u8>, kind: GateKind) -> Seq<u128> {
    Seq::new(kind.n_aes_keys() as nat, |i: int| spec_u128_from_le_bytes(key_bytes(keys, i)))
}

/// Reads the key schedule from the header of a key buffer. Only the length
/// of the buffer is checked.
pub fn read_schedule(keys: &[u8], kind: GateKind) -> (r: Result<Vec<u128>, FssError>)
    ensures
        keys@.len() < kind.header_len() ==> r == Err::<Vec<u128>, FssError>(
            FssError::KeyBufferTooSmall,
        ),
        keys@.len() >= kind.header_len() ==> r is Ok && r->Ok_0@ == schedule_of(keys@, kind),
{
    let n_aes_keys = kind.n_aes_keys();
    if keys.len() < kind.header_len() {
        return Err(FssError::KeyBufferTooSmall);
    }
    let mut aes_keys: Vec<u128> = Vec::new();
    let mut i: usize = 0;
    while i < n_aes_keys
        invariant
            i <= n_aes_keys,
            n_aes_keys == kind.n_aes_keys(),
            keys@.len() >= kind.header_len(),
            aes_keys@.len() == i,
            forall|j: int|
                0 <= j < i ==> #[trigger] aes_keys@[j] == spec_u128_from_le_bytes(
                    key_bytes(keys@, j),
                ),
        decreases n_aes_keys - i,
    {
        aes_keys.push(get_u128(keys, L * i));
        i += 1;
    }
    assert(aes_keys@ =~= schedule_of(keys@, kind));
    Ok(aes_keys)
}

/// The header that carries a key schedule: the 16 little-endian bytes of
/// each key, in the order of the keys.
pub open spec fn encode_schedule(schedule: Seq<u128>) -> Seq<u8> {
    concat(schedule.map_values(|key: u128| spec_u128_to_le_bytes(key)))
}

/// The header of a key schedule has 16 bytes for each key.
pub proof fn lemma_schedule_len(schedule: Seq<u128>)
    ensures
        encode_schedule(schedule).len() == 16 * schedule.len(),
{
    lemma_auto_spec_u128_to_from_le_bytes();
    let words = schedule.map_values(|key: u128| spec_u128_to_le_bytes(key));
    if words.len() > 0 {
        lemma_concat_record(words, 16, 0);
    } else {
        assert(concat(words) =~= Seq::<u8>::empty());
    }
}

/// A key schedule is read back from its header as it was written.
pub proof fn lemma_schedule_round_trip(kind: GateKind, schedule: Seq<u128>, keys: Seq<u8>)
    requires
        schedule.len() == kind.n_aes_keys(),
        keys.len() >= kind.header_len(),
        keys.subrange(0, kind.header_len() as int) == encode_schedule(schedule),
    ensures
        schedule_of(keys, kind) == schedule,
{
    lemma_auto_spec_u128_to_from_le_bytes();
    let words = schedule.map_values(|key: u128| spec_u128_to_le_bytes(key));
    let header_len = kind.header_len() as int;
    assert forall|i: int| 0 <= i < schedule.len() implies spec_u128_from_le_bytes(
        #[trigger] key_bytes(keys, i),
    ) == schedule[i] by {
        lemma_concat_record(words, 16, i);
        assert(key_bytes(keys, i) =~= keys.subrange(0, header_len).subrange(16 * i, 16 * i + 16));
    }
    assert(schedule_of(keys, kind) =~= schedule);
}

/// Writes a key schedule to the head of a key buffer. What lies behind the
/// header stays as it was.
pub fn write_schedule(aes_keys: &Vec<u128>, keys: &mut [u8]) -> (r: Result<(), FssError>)
    ensures
        final(keys)@.len() == old(keys)@.len(),
        old(keys)@.len() < 16 * aes_keys@.len() ==> r == Err::<(), FssError>(
            FssError::KeyBufferTooSmall,
        ) && final(keys)@ == old(keys)@,
        old(keys)@.len() >= 16 * aes_keys@.len() ==> r is Ok && final(keys)@ == encode_schedule(
            aes_keys@,
        ) + old(keys)@.subrange(16 * aes_keys@.len() as int, old(keys)@.len() as int),
{
    let n_aes_keys = aes_keys.len();
    let len = keys.len();
    if len / L < n_aes_keys {
        return Err(FssError::KeyBufferTooSmall);
    }
    let ghost words = aes_keys@.map_values(|key: u128| spec_u128_to_le_bytes(key));
    let mut i: usize = 0;
    proof {
        assert(concat(words.take(0)) =~= Seq::<u8>::empty());
        assert(keys@ =~= concat(words.take(0)) + old(keys)@.subrange(0, len as int));
    }
    while i < n_aes_keys
        invariant
            i <= n_aes_keys,
            n_aes_keys == aes_keys@.len(),
            len == keys@.len(),
            len == old(keys)@.len(),
            16 * n_aes_keys <= len,
            words == aes_keys@.map_values(|key: u128| spec_u128_to_le_bytes(key)),
            concat(words.take(i as int)).len() == 16 * i,
            keys@ == concat(words.take(i as int)) + old(keys)@.subrange(16 * i, len as int),
        decreases n_aes_keys - i,
    {
        let bytes = u128_to_le_bytes(aes_keys[i]);
        let ghost before = keys@;
        copy_into(keys, L * i, bytes.as_slice());
        proof {
            assert(words.take(i + 1) =~= words.take(i as int).push(words[i as int]));
            lemma_concat_push(words.take(i as int), words[i as int]);
            assert(keys@ =~= concat(words.take(i + 1)) + old(keys)@.subrange(
                16 * (i + 1),
                len as int,
            ));
        }
        i += 1;
    }
    proof {
        assert(words.take(n_aes_keys as int) =~= words);
    }
    Ok(())
}

/// Whether the key buffers `keys_a` and `keys_b` hold what `keygen` writes
/// for `n_values` values: the same key schedule in both headers, and at each
/// index the records of the two shares of one pair dealt with that schedule.
pub open spec fn keys_dealt(
    kind: GateKind,
    n_values: int,
    keys_a: Seq<u8>,
    keys_b: Seq<u8>,
) -> bool {
    &&& keys_a.len() >= buffer_len(kind, n_values)
    &&& keys_b.len() >= buffer_len(kind, n_values)
    &&& keys_a.subrange(0, kind.header_len() as int) == keys_b.subrange(
        0,
        kind.header_len() as int,
    )
    &&& forall|i: int|
        0 <= i < n_values ==> records_paired(
            kind,
            expansion_of::<MMO>(schedule_of(keys_a, kind)),
            #[trigger] record_at(keys_a, kind.header_len() as int, kind.key_len() as int, i),
            record_at(keys_b, kind.header_len() as int, kind.key_len() as int, i),
        )
}

/// Two key buffers with the same header hold the same key schedule.
pub proof fn lemma_same_schedule(kind: GateKind, keys_a: Seq<u8>, keys_b: Seq<u8>)
    requires
        keys_a.len() >= kind.header_len(),
        keys_b.len() >= kind.header_len(),
        keys_a.subrange(0, kind.header_len() as int) == keys_b.subrange(
            0,
            kind.header_len() as int,
        ),
    ensures
        schedule_of(keys_a, kind) == schedule_of(keys_b, kind),
{
    let header_len = kind.header_len() as int;
    assert forall|i: int| 0 <= i < kind.n_aes_keys() implies #[trigger] key_bytes(keys_a, i)
        == key_bytes(keys_b, i) by {
        assert(key_bytes(keys_a, i) =~= key_bytes(keys_a.subrange(0, header_len), i));
        assert(key_bytes(keys_b, i) =~= key_bytes(keys_b.subrange(0, header_len), i));
    }
    assert(schedule_of(keys_a, kind) =~= schedule_of(keys_b, kind));
}

/// For every index of a batch and every public input, the share that party
/// 0 computes from its key buffer and the share that party 1 computes from
/// its own add up to 1 where the predicate of their gate holds of the input
/// and the threshold of that index, and to 0 where it does not.
pub proof fn lemma_batch_shares_add_up(
    kind: GateKind,
    n_values: int,
    keys_a: Seq<u8>,
    keys_b: Seq<u8>,
    index: int,
    x: u32,
)
    requires
        keys_dealt(kind, n_values, keys_a, keys_b),
        0 <= index < n_values,
    ensures
        ({
            let record_a = record_at(
                keys_a,
                kind.header_len() as int,
                kind.key_len() as int,
                index,
            );
            let record_b = record_at(
                keys_b,
                kind.header_len() as int,
                kind.key_len() as int,
                index,
            );
            record_share(kind, expansion_of::<MMO>(schedule_of(keys_a, kind)), record_a, 0, x)
                + record_share(
                kind,
                expansion_of::<MMO>(schedule_of(keys_b, kind)),
                record_b,
                1,
                x,
            ) == if gate_holds(kind, x, records_threshold(kind, record_a, record_b)) {
                1int
            } else {
                0int
            }
        }),
{
    assert(kind.key_len() * n_values >= 0) by (nonlinear_arith)
        requires
            n_values >= 0,
            kind.key_len() >= 0,
    ;
    lemma_same_schedule(kind, keys_a, keys_b);
    let record_a = record_at(keys_a, kind.header_len() as int, kind.key_len() as int, index);
    let record_b = record_at(keys_b, kind.header_len() as int, kind.key_len() as int, index);
    lemma_record_shares_add_up(
        kind,
        expansion_of::<MMO>(schedule_of(keys_a, kind)),
        record_a,
        record_b,
        x,
    );
}

/// The share that `eval` writes for an index of a batch is the share that
/// `eval_key_stream` returns for that record taken alone, as a stream of
/// its own: evaluating a batch in parallel gives, index for index, what
/// evaluating its records one by one gives.
pub proof fn lemma_batch_matches_single(
    party_id: u8,
    kind: GateKind,
    xs: Seq<u8>,
    keys: Seq<u8>,
    index: usize,
    single: Result<Vec<i64>, FssError>,
)
    requires
        party_id <= 1,
        index < usize::MAX,
        keys.len() >= buffer_len(kind, index + 1),
        xs.len() >= 4 * (index + 1),
        stream_evaluated(
            party_id,
            schedule_of(keys, kind),
            (StreamPartition { stream_id: 0, start: index, length: 1 }),
            xs,
            keys,
            kind,
            single,
        ),
    ensures
        single is Ok,
        single->Ok_0@.len() == 1,
        single->Ok_0@[0] == record_share(
            kind,
            expansion_of::<MMO>(schedule_of(keys, kind)),
            record_at(keys, kind.header_len() as int, kind.key_len() as int, index as int),
            party_id,
            input_at(xs, index as int),
        ) as i64,
{
    assert(kind.key_len() * (index + 1) == kind.key_len() * index + kind.key_len())
        by (nonlinear_arith);
}

/// Deals `n_values` pairs of shares, each for a fresh random threshold, and
/// writes them to the key buffers of the two parties: to each buffer the
/// same fresh key schedule as its header, then the records of that party's
/// shares in the order of their indices. What lies behind the last record
/// stays as it was, and where the call fails both buffers do.
pub fn keygen(
    keys_a: &mut [u8],
    keys_b: &mut [u8],
    n_values: usize,
    n_threads: usize,
    kind: GateKind,
) -> (r: Result<(), FssError>)
    ensures
        final(keys_a)@.len() == old(keys_a)@.len(),
        final(keys_b)@.len() == old(keys_b)@.len(),
        r is Err ==> final(keys_a)@ == old(keys_a)@ && final(keys_b)@ == old(keys_b)@,
        buffer_len(kind, n_values as int) > usize::MAX ==> r == Err::<(), FssError>(
            FssError::TooManyValues,
        ),
        buffer_len(kind, n_values as int) <= usize::MAX && (old(keys_a)@.len() < buffer_len(
            kind,
            n_values as int,
        ) || old(keys_b)@.len() < buffer_len(kind, n_values as int)) ==> r == Err::<(), FssError>(
            FssError::KeyBufferTooSmall,
        ),
        old(keys_a)@.len() >= buffer_len(kind, n_values as int) && old(keys_b)@.len()
            >= buffer_len(kind, n_values as int) ==> (r matches Err(e) ==> e == FssError::Entropy
            || e == FssError::ThreadPool),
        r is Ok ==> {
            &&& keys_dealt(kind, n_values as int, final(keys_a)@, final(keys_b)@)
            &&& forall|p: int|
                buffer_len(kind, n_values as int) <= p < old(keys_a)@.len()
                    ==> #[trigger] final(keys_a)@[p] == old(keys_a)@[p]
            &&& forall|p: int|
                buffer_len(kind, n_values as int) <= p < old(keys_b)@.len()
                    ==> #[trigger] final(keys_b)@[p] == old(keys_b)@[p]
        },
{
    let (n_aes_keys, key_len, n_aes_streams) = build_params(kind);
    let header_len = kind.header_len();
    let len_a = keys_a.len();
    let len_b = keys_b.len();
    if n_values > (usize::MAX - header_len) / key_len {
        assert(buffer_len(kind, n_values as int) > usize::MAX) by (nonlinear_arith)
            requires
                n_values > (usize::MAX - header_len) / (key_len as int),
                key_len >= 1,
                buffer_len(kind, n_values as int) == header_len + key_len * n_values,
        ;
        return Err(FssError::TooManyValues);
    }
    assert(header_len + key_len * n_values <= usize::MAX) by (nonlinear_arith)
        requires
            n_values <= (usize::MAX - header_len) / (key_len as int),
            key_len >= 1,
            header_len <= usize::MAX,
    ;
    let total = header_len + key_len * n_values;
    if len_a < total || len_b < total {
        return Err(FssError::KeyBufferTooSmall);
    }
    // Sixteen fresh random bytes make one key of the schedule.
    let header = match draw(header_len) {
        Ok(header) => header,
        Err(e) => {
            return Err(e);
        },
    };
    let aes_keys = match read_schedule(header.as_slice(), kind) {
        Ok(aes_keys) => aes_keys,
        Err(e) => {
            return Err(e);
        },
    };
    let streams = partition(n_values, n_aes_streams);
    let pool = match build_pool(n_threads) {
        Ok(pool) => pool,
        Err(_) => {
            return Err(FssError::ThreadPool);
        },
    };
    let create_keypair = |stream: &StreamPartition| -> (chunk: Result<(Vec<u8>, Vec<u8>), FssError>)
        ensures
            stream_generated(aes_keys@, *stream, kind, chunk),
        { generate_key_stream(&aes_keys, stream, kind) };
    let chunks = par_map(&pool, &streams, create_keypair);
    let n_chunks = streams.len();
    let ghost gen = expansion_of::<MMO>(aes_keys@);
    // Nothing is written before every stream has its records.
    let mut k: usize = 0;
    while k < n_chunks
        invariant
            k <= n_chunks,
            n_chunks == streams@.len(),
            chunks@.len() == n_chunks,
            tiles(streams@, n_values as nat),
            key_len == kind.key_len(),
            aes_keys@.len() == kind.n_aes_keys(),
            header_len + key_len * n_values <= usize::MAX,
            forall|k: int|
                0 <= k < n_chunks ==> stream_generated(
                    aes_keys@,
                    streams@[k],
                    kind,
                    #[trigger] chunks@[k],
                ),
            forall|j: int| 0 <= j < k ==> (#[trigger] chunks@[j]) is Ok,
            keys_a@ == old(keys_a)@,
            keys_b@ == old(keys_b)@,
            header_len == kind.header_len(),
            total == header_len + key_len * n_values,
            total <= len_a,
            total <= len_b,
            len_a == old(keys_a)@.len(),
            len_b == old(keys_b)@.len(),
        decreases n_chunks - k,
    {
        proof {
            let stream = streams@[k as int];
            lemma_tiles_bound(streams@, n_values as nat, k as int);
            assert(key_len * stream.length <= key_len * n_values) by (nonlinear_arith)
                requires
                    stream.length <= n_values,
                    key_len >= 0,
            ;
        }
        match &chunks[k] {
            Ok(_) => {},
            Err(e) => {
                return Err(*e);
            },
        }
        k += 1;
    }
    let ghost header_bytes = encode_schedule(aes_keys@);
    proof {
        lemma_schedule_len(aes_keys@);
    }
    match write_schedule(&aes_keys, keys_a) {
        Ok(()) => {},
        Err(e) => {
            return Err(e);
        },
    }
    match write_schedule(&aes_keys, keys_b) {
        Ok(()) => {},
        Err(e) => {
            return Err(e);
        },
    }
    proof {
        assert(keys_a@.subrange(0, header_len as int) =~= header_bytes);
        assert(keys_b@.subrange(0, header_len as int) =~= header_bytes);
    }
    let mut line_counter: usize = 0;
    let mut k: usize = 0;
    while k < n_chunks
        invariant
            k <= n_chunks,
            n_chunks == streams@.len(),
            chunks@.len() == n_chunks,
            tiles(streams@, n_values as nat),
            forall|k: int|
                0 <= k < n_chunks ==> stream_generated(
                    aes_keys@,
                    streams@[k],
                    kind,
                    #[trigger] chunks@[k],
                ),
            forall|j: int| 0 <= j < n_chunks ==> (#[trigger] chunks@[j]) is Ok,
            gen == expansion_of::<MMO>(aes_keys@),
            aes_keys@.len() == kind.n_aes_keys(),
            header_len == kind.header_len(),
            key_len == kind.key_len(),
            header_bytes.len() == header_len,
            total == header_len + key_len * n_values,
            total <= len_a,
            total <= len_b,
            len_a == keys_a@.len(),
            len_b == keys_b@.len(),
            len_a == old(keys_a)@.len(),
            len_b == old(keys_b)@.len(),
            keys_a@.subrange(0, header_len as int) == header_bytes,
            keys_b@.subrange(0, header_len as int) == header_bytes,
            line_counter <= n_values,
            k < n_chunks ==> streams@[k as int].start == line_counter,
            k == n_chunks ==> line_counter == n_values,
            forall|i: int|
                0 <= i < line_counter ==> records_paired(
                    kind,
                    gen,
                    #[trigger] record_at(keys_a@, header_len as int, key_len as int, i),
                    record_at(keys_b@, header_len as int, key_len as int, i),
                ),
            forall|p: int|
                header_len + key_len * line_counter <= p < len_a ==> #[trigger] keys_a@[p]
                    == old(keys_a)@[p],
            forall|p: int|
                header_len + key_len * line_counter <= p < len_b ==> #[trigger] keys_b@[p]
                    == old(keys_b)@[p],
        decreases n_chunks - k,
    {
        let stream = streams[k];
        proof {
            lemma_tiles_bound(streams@, n_values as nat, k as int);
            assert(key_len * line_counter + key_len * stream.length == key_len * (line_counter
                + stream.length) && key_len * (line_counter + stream.length) <= key_len * n_values
                && key_len * stream.length <= key_len * n_values) by (nonlinear_arith)
                requires
                    line_counter + stream.length <= n_values,
                    key_len >= 0,
                    line_counter >= 0,
                    stream.length >= 0,
            ;
            if k + 1 < n_chunks {
                assert(follows(streams@, k + 1));
            }
        }
        match &chunks[k] {
            Ok(chunk) => {
                let at = header_len + key_len * line_counter;
                let ghost before_a = keys_a@;
                let ghost before_b = keys_b@;
                copy_into(keys_a, at, chunk.0.as_slice());
                copy_into(keys_b, at, chunk.1.as_slice());
                proof {
                    let h = header_len as int;
                    let w = key_len as int;
                    assert(keys_a@.subrange(0, h) =~= before_a.subrange(0, h));
                    assert(keys_b@.subrange(0, h) =~= before_b.subrange(0, h));
                    let done = line_counter + stream.length;
                    assert forall|i: int| 0 <= i < done implies records_paired(
                        kind,
                        gen,
                        #[trigger] record_at(keys_a@, h, w, i),
                        record_at(keys_b@, h, w, i),
                    ) by {
                        if i < line_counter {
                            assert(w * i + w <= w * line_counter) by (nonlinear_arith)
                                requires
                                    0 <= i < line_counter,
                                    w >= 0,
                            ;
                            assert(record_at(keys_a@, h, w, i) =~= record_at(before_a, h, w, i));
                            assert(record_at(keys_b@, h, w, i) =~= record_at(before_b, h, w, i));
                        } else {
                            let j = i - line_counter;
                            assert(w * i == w * line_counter + w * j && w * j + w <= w
                                * stream.length && w * j >= 0) by (nonlinear_arith)
                                requires
                                    i == line_counter + j,
                                    0 <= j < stream.length,
                                    w >= 0,
                            ;
                            assert(record_at(keys_a@, h, w, i) =~= record_at(chunk.0@, 0, w, j));
                            assert(record_at(keys_b@, h, w, i) =~= record_at(chunk.1@, 0, w, j));
                        }
                    }
                }
                line_counter += stream.length;
            },
            Err(e) => {
                return Err(*e);
            },
        }
        k += 1;
    }
    proof {
        lemma_schedule_round_trip(kind, aes_keys@, keys_a@);
    }
    Ok(())
}

/// Evaluates the first `n_values` records of one party's key buffer on the
/// first `n_values` inputs of `xs`, and writes the shares to the first
/// `n_values` places of `results`. The share of each index is the one that
/// the party computes from the record of that index alone on the input of
/// that index, whatever the number of threads.
///
/// `keys` holds the header and the records that `keygen` wrote for this
/// party, `xs` four little-endian bytes for each input.
pub fn eval(
    party_id: usize,
    xs: &[u8],
    keys: &[u8],
    results: &mut [i64],
    n_values: usize,
    n_threads: usize,
    kind: GateKind,
) -> (r: Result<(), FssError>)
    ensures
        final(results)@.len() == old(results)@.len(),
        r is Err ==> final(results)@ == old(results)@,
        party_id > 1 ==> r == Err::<(), FssError>(FssError::BadParty),
        party_id <= 1 && buffer_len(kind, n_values as int) > usize::MAX ==> r == Err::<
            (),
            FssError,
        >(FssError::TooManyValues),
        party_id <= 1 && buffer_len(kind, n_values as int) <= usize::MAX && keys@.len()
            < buffer_len(kind, n_values as int) ==> r == Err::<(), FssError>(
            FssError::KeyBufferTooSmall,
        ),
        party_id <= 1 && buffer_len(kind, n_values as int) <= keys@.len() && xs@.len() < 4
            * n_values ==> r == Err::<(), FssError>(FssError::InputBufferTooSmall),
        party_id <= 1 && buffer_len(kind, n_values as int) <= keys@.len() && xs@.len() >= 4
            * n_values && old(results)@.len() < n_values ==> r == Err::<(), FssError>(
            FssError::OutputBufferTooSmall,
        ),
        party_id <= 1 && buffer_len(kind, n_values as int) <= keys@.len() && xs@.len() >= 4
            * n_values && old(results)@.len() >= n_values ==> (r matches Err(e) ==> e
            == FssError::ThreadPool),
        r is Ok ==> {
            &&& forall|i: int|
                0 <= i < n_values ==> #[trigger] final(results)@[i] == record_share(
                    kind,
                    expansion_of::<MMO>(schedule_of(keys@, kind)),
                    record_at(keys@, kind.header_len() as int, kind.key_len() as int, i),
                    party_id as u8,
                    input_at(xs@, i),
                ) as i64
            &&& forall|i: int|
                n_values <= i < old(results)@.len() ==> #[trigger] final(results)@[i] == old(
                    results,
                )@[i]
        },
{
    let (n_aes_keys, key_len, n_aes_streams) = build_params(kind);
    let header_len = kind.header_len();
    if party_id > 1 {
        return Err(FssError::BadParty);
    }
    let party = party_id as u8;
    let keys_len = keys.len();
    let xs_len = xs.len();
    let results_len = results.len();
    if n_values > (usize::MAX - header_len) / key_len {
        assert(buffer_len(kind, n_values as int) > usize::MAX) by (nonlinear_arith)
            requires
                n_values > (usize::MAX - header_len) / (key_len as int),
                key_len >= 1,
                buffer_len(kind, n_values as int) == header_len + key_len * n_values,
        ;
        return Err(FssError::TooManyValues);
    }
    assert(header_len + key_len * n_values <= usize::MAX) by (nonlinear_arith)
        requires
            n_values <= (usize::MAX - header_len) / (key_len as int),
            key_len >= 1,
            header_len <= usize::MAX,
    ;
    assert(4 * n_values <= key_len * n_values) by (nonlinear_arith)
        requires
            4 <= key_len,
            n_values >= 0,
    ;
    if keys_len < header_len + key_len * n_values {
        return Err(FssError::KeyBufferTooSmall);
    }
    if xs_len < N * n_values {
        return Err(FssError::InputBufferTooSmall);
    }
    if results_len < n_values {
        return Err(FssError::OutputBufferTooSmall);
    }
    let aes_keys = match read_schedule(keys, kind) {
        Ok(aes_keys) => aes_keys,
        Err(e) => {
            return Err(e);
        },
    };
    let streams = partition(n_values, n_aes_streams);
    let pool = match build_pool(n_threads) {
        Ok(pool) => pool,
        Err(_) => {
            return Err(FssError::ThreadPool);
        },
    };
    let eval_key = |stream: &StreamPartition| -> (shares: Result<Vec<i64>, FssError>)
        ensures
            stream_evaluated(party, aes_keys@, *stream, xs@, keys@, kind, shares),
        { eval_key_stream(party, &aes_keys, stream, xs, keys, kind) };
    let chunks = par_map(&pool, &streams, eval_key);
    let ghost gen = expansion_of::<MMO>(aes_keys@);
    let n_chunks = streams.len();
    let mut line_counter: usize = 0;
    let mut k: usize = 0;
    while k < n_chunks
        invariant
            k <= n_chunks,
            n_chunks == streams@.len(),
            chunks@.len() == n_chunks,
            tiles(streams@, n_values as nat),
            forall|k: int|
                0 <= k < n_chunks ==> stream_evaluated(
                    party,
                    aes_keys@,
                    streams@[k],
                    xs@,
                    keys@,
                    kind,
                    #[trigger] chunks@[k],
                ),
            party <= 1,
            party == party_id,
            aes_keys@ == schedule_of(keys@, kind),
            gen == expansion_of::<MMO>(aes_keys@),
            header_len == kind.header_len(),
            key_len == kind.key_len(),
            header_len + key_len * n_values <= keys@.len(),
            4 * n_values <= xs@.len(),
            results_len == results@.len(),
            results_len == old(results)@.len(),
            n_values <= results_len,
            line_counter <= n_values,
            k < n_chunks ==> streams@[k as int].start == line_counter,
            k == n_chunks ==> line_counter == n_values,
            forall|i: int|
                0 <= i < line_counter ==> #[trigger] results@[i] == record_share(
                    kind,
                    gen,
                    record_at(keys@, header_len as int, key_len as int, i),
                    party,
                    input_at(xs@, i),
                ) as i64,
            forall|i: int|
                line_counter <= i < results_len ==> #[trigger] results@[i] == old(results)@[i],
        decreases n_chunks - k,
    {
        let stream = streams[k];
        proof {
            lemma_tiles_bound(streams@, n_values as nat, k as int);
            assert(key_len * (stream.start + stream.length) <= key_len * n_values)
                by (nonlinear_arith)
                requires
                    stream.start + stream.length <= n_values,
                    key_len >= 0,
            ;
            if k + 1 < n_chunks {
                assert(follows(streams@, k + 1));
            }
        }
        match &chunks[k] {
            Ok(shares) => {
                let ghost before = results@;
                copy_into(results, line_counter, shares.as_slice());
                proof {
                    let done = line_counter + stream.length;
                    assert forall|i: int| 0 <= i < done implies #[trigger] results@[i]
                        == record_share(
                        kind,
                        gen,
                        record_at(keys@, header_len as int, key_len as int, i),
                        party,
                        input_at(xs@, i),
                    ) as i64 by {
                        if i < line_counter {
                            assert(results@[i] == before[i]);
                        } else {
                            assert(results@[i] == shares@[i - line_counter]);
                        }
                    }
                    assert forall|i: int|
                        done <= i < results_len implies #[trigger] results@[i] == old(
                        results,
                    )@[i] by {
                        assert(results@[i] == before[i]);
                    }
                }
                line_counter += stream.length;
            },
            Err(e) => {
                return Err(*e);
            },
        }
        k += 1;
    }
    Ok(())
}

} // verus!
