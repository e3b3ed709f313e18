//! The split of a batch into streams: contiguous runs of records, one run
//! per unit of parallel work.
use vstd::prelude::*;
use vstd::arithmetic::div_mod::{
    lemma_basic_div, lemma_div_non_zero, lemma_fundamental_div_mod, lemma_small_mod,
};

verus! {

/// One stream of a batch: the records `start .. start + length`.
#[derive(Clone, Copy, Debug, PartialEq, Eq)]
pub struct StreamPartition {
    pub stream_id: usize,
    pub start: usize,
    pub length: usize,
}

/// How many records stream `stream_id` gets when `n_values` records are
/// split over `n_streams` streams: the quotient, and one more for each of
/// the first `n_values % n_streams` streams.
pub open spec fn stream_length(n_values: nat, n_streams: nat, stream_id: nat) -> nat {
    n_values / n_streams + if stream_id < n_values % n_streams {
        1nat
    } else {
        0nat
    }
}

/// The index of the first record of stream `stream_id`.
pub open spec fn stream_start(n_values: nat, n_streams: nat, stream_id: nat) -> nat {
    stream_id * (n_values / n_streams) + if stream_id < n_values % n_streams {
        stream_id
    } else {
        n_values % n_streams
    }
}

/// How many streams get at least one record.
pub open spec fn stream_count(n_values: nat, n_streams: nat) -> nat {
    if n_values < n_streams {
        n_values
    } else {
        n_streams
    }
}

/// The stream `stream_id` of the split.
pub open spec fn stream_at(n_values: nat, n_streams: nat, stream_id: nat) -> StreamPartition {
    StreamPartition {
        stream_id: stream_id as usize,
        start: stream_start(n_values, n_streams, stream_id) as usize,
        length: stream_length(n_values, n_streams, stream_id) as usize,
    }
}

/// The sum of the lengths of the first `count` streams.
pub open spec fn total_length(n_values: nat, n_streams: nat, count: nat) -> nat
    decreases count,
{
    if count == 0 {
        0
    } else {
        total_length(n_values, n_streams, (count - 1) as nat) + stream_length(
            n_values,
            n_streams,
            (count - 1) as nat,
        )
    }
}

/// Each stream starts where the one before it ends, and the first starts
/// at record 0.
pub proof fn lemma_streams_contiguous(n_values: nat, n_streams: nat, stream_id: nat)
    requires
        n_streams > 0,
    ensures
        stream_start(n_values, n_streams, 0) == 0,
        stream_start(n_values, n_streams, stream_id + 1) == stream_start(
            n_values,
            n_streams,
            stream_id,
        ) + stream_length(n_values, n_streams, stream_id),
{
    let q = n_values / n_streams;
    assert((stream_id + 1) * q == stream_id * q + q) by (nonlinear_arith);
    assert(0 * q == 0);
}

/// The streams that get a record are the first `stream_count` ones, and the
/// last of them ends at record `n_values`.
pub proof fn lemma_streams_end(n_values: nat, n_streams: nat)
    requires
        n_streams > 0,
    ensures
        stream_start(n_values, n_streams, stream_count(n_values, n_streams)) == n_values,
        forall|k: nat|
            k < stream_count(n_values, n_streams) ==> #[trigger] stream_length(
                n_values,
                n_streams,
                k,
            ) > 0,
        forall|k: nat|
            k >= stream_count(n_values, n_streams) && k < n_streams ==> #[trigger] stream_length(
                n_values,
                n_streams,
                k,
            ) == 0,
{
    let q = n_values / n_streams;
    let r = n_values % n_streams;
    lemma_fundamental_div_mod(n_values as int, n_streams as int);
    if n_values < n_streams {
        lemma_basic_div(n_values as int, n_streams as int);
        lemma_small_mod(n_values, n_streams);
        assert(n_values * q == 0) by (nonlinear_arith)
            requires
                q == 0,
        ;
    } else {
        lemma_div_non_zero(n_values as int, n_streams as int);
    }
}

/// The lengths of the streams add up to the number of records.
pub proof fn lemma_streams_conserve(n_values: nat, n_streams: nat)
    requires
        n_streams > 0,
    ensures
        total_length(n_values, n_streams, stream_count(n_values, n_streams)) == n_values,
        total_length(n_values, n_streams, n_streams) == n_values,
{
    lemma_total_is_start(n_values, n_streams, stream_count(n_values, n_streams));
    lemma_total_is_start(n_values, n_streams, n_streams);
    lemma_streams_end(n_values, n_streams);
    lemma_fundamental_div_mod(n_values as int, n_streams as int);
}

/// The lengths of the first `count` streams add up to the start of the next.
pub proof fn lemma_total_is_start(n_values: nat, n_streams: nat, count: nat)
    requires
        n_streams > 0,
    ensures
        total_length(n_values, n_streams, count) == stream_start(n_values, n_streams, count),
    decreases count,
{
    if count == 0 {
        lemma_streams_contiguous(n_values, n_streams, 0);
    } else {
        lemma_total_is_start(n_values, n_streams, (count - 1) as nat);
        lemma_streams_contiguous(n_values, n_streams, (count - 1) as nat);
    }
}

/// The running total of the lengths never decreases.
pub proof fn lemma_total_monotone(n_values: nat, n_streams: nat, count: nat, later: nat)
    requires
        count <= later,
    ensures
        total_length(n_values, n_streams, count) <= total_length(n_values, n_streams, later),
    decreases later - count,
{
    if count < later {
        lemma_total_monotone(n_values, n_streams, count, (later - 1) as nat);
    }
}

/// Whether stream `k` of `streams` is not empty and starts where the one
/// before it ends, or at record 0 if it is the first.
pub open spec fn follows(streams: Seq<StreamPartition>, k: int) -> bool {
    &&& streams[k].length > 0
    &&& streams[k].start == if k == 0 {
        0
    } else {
        streams[k - 1].start + streams[k - 1].length
    }
}

/// Whether `streams` tiles the records `0 .. n_values`: no stream is empty,
/// the first starts at record 0, each other one starts where the one before
/// it ends, and the last ends at record `n_values`.
pub open spec fn tiles(streams: Seq<StreamPartition>, n_values: nat) -> bool {
    &&& forall|k: int| 0 <= k < streams.len() ==> #[trigger] follows(streams, k)
    &&& if streams.len() == 0 {
        n_values == 0
    } else {
        streams.last().start + streams.last().length == n_values
    }
}

/// The sum of the lengths of `streams`.
pub open spec fn sum_lengths(streams: Seq<StreamPartition>) -> nat
    decreases streams.len(),
{
    if streams.len() == 0 {
        0
    } else {
        sum_lengths(streams.drop_last()) + streams.last().length as nat
    }
}

/// All but the last of the streams that tile `0 .. n_values` tile the
/// records up to the start of the last.
pub proof fn lemma_tiles_front(streams: Seq<StreamPartition>, n_values: nat)
    requires
        tiles(streams, n_values),
        streams.len() > 0,
    ensures
        tiles(streams.drop_last(), streams.last().start as nat),
{
    let front = streams.drop_last();
    assert(follows(streams, streams.len() - 1));
    assert forall|k: int| 0 <= k < front.len() implies #[trigger] follows(front, k) by {
        assert(follows(streams, k));
    }
}

/// The lengths of streams that tile the records `0 .. n_values` add up to
/// `n_values`.
pub proof fn lemma_tiles_conserve(streams: Seq<StreamPartition>, n_values: nat)
    requires
        tiles(streams, n_values),
    ensures
        sum_lengths(streams) == n_values,
    decreases streams.len(),
{
    if streams.len() > 0 {
        lemma_tiles_front(streams, n_values);
        lemma_tiles_conserve(streams.drop_last(), streams.last().start as nat);
    }
}

/// Streams that tile the records `0 .. n_values` are in the order of their
/// records, and no two of them share a record.
pub proof fn lemma_tiles_disjoint(
    streams: Seq<StreamPartition>,
    n_values: nat,
    first: int,
    second: int,
)
    requires
        tiles(streams, n_values),
        0 <= first < second < streams.len(),
    ensures
        streams[first].start + streams[first].length <= streams[second].start,
    decreases second - first,
{
    assert(follows(streams, first + 1));
    if first + 1 < second {
        lemma_tiles_disjoint(streams, n_values, first + 1, second);
    }
}

/// Streams that tile the records `0 .. n_values` leave no record out.
pub proof fn lemma_tiles_cover(streams: Seq<StreamPartition>, n_values: nat, index: nat) -> (k:
    int)
    requires
        tiles(streams, n_values),
        index < n_values,
    ensures
        0 <= k < streams.len(),
        streams[k].start <= index < streams[k].start + streams[k].length,
    decreases streams.len(),
{
    let last = streams.last();
    if last.start <= index {
        streams.len() - 1
    } else {
        lemma_tiles_front(streams, n_values);
        let k = lemma_tiles_cover(streams.drop_last(), last.start as nat, index);
        assert(streams.drop_last()[k] == streams[k]);
        k
    }
}

/// No stream of a tiling reaches beyond the last record.
pub proof fn lemma_tiles_bound(streams: Seq<StreamPartition>, n_values: nat, k: int)
    requires
        tiles(streams, n_values),
        0 <= k < streams.len(),
    ensures
        streams[k].start + streams[k].length <= n_values,
        streams[k].length > 0,
{
    assert(follows(streams, k));
    if k + 1 < streams.len() {
        lemma_tiles_disjoint(streams, n_values, k, streams.len() - 1);
    }
}

/// Splits `n_values` records over `n_streams` streams and lists the streams
/// that get at least one record, in the order of their records.
pub fn partition(n_values: usize, n_streams: usize) -> (streams: Vec<StreamPartition>)
    requires
        n_streams > 0,
    ensures
        streams@.len() == stream_count(n_values as nat, n_streams as nat),
        forall|k: int|
            0 <= k < streams@.len() ==> #[trigger] streams@[k] == stream_at(
                n_values as nat,
                n_streams as nat,
                k as nat,
            ),
        tiles(streams@, n_values as nat),
{
    let default_length = n_values / n_streams;
    let n_longer_streams = n_values % n_streams;
    let ghost n = n_values as nat;
    let ghost m = n_streams as nat;
    let mut streams: Vec<StreamPartition> = Vec::new();
    let mut line_counter: usize = 0;
    let mut stream_id: usize = 0;
    proof {
        lemma_streams_contiguous(n, m, 0);
        lemma_streams_end(n, m);
    }
    while stream_id < n_streams
        invariant
            n_streams > 0,
            n == n_values as nat,
            m == n_streams as nat,
            default_length == n / m,
            n_longer_streams == n % m,
            stream_id <= n_streams,
            line_counter == stream_start(n, m, stream_id as nat),
            line_counter <= n_values,
            streams@.len() == stream_count(n, m) || streams@.len() == stream_id,
            streams@.len() <= stream_id,
            streams@.len() <= stream_count(n, m),
            forall|k: int|
                0 <= k < streams@.len() ==> #[trigger] streams@[k] == stream_at(n, m, k as nat),
            tiles(streams@, line_counter as nat),
        decreases n_streams - stream_id,
    {
        proof {
            lemma_streams_contiguous(n, m, stream_id as nat);
            lemma_streams_end(n, m);
            lemma_total_is_start(n, m, (stream_id + 1) as nat);
            lemma_streams_conserve(n, m);
            lemma_total_monotone(n, m, (stream_id + 1) as nat, m);
        }
        let stream_length = if stream_id < n_longer_streams {
            default_length + 1
        } else {
            default_length
        };
        if stream_length > 0 {
            let ghost before = streams@;
            streams.push(StreamPartition { stream_id, start: line_counter, length: stream_length });
            proof {
                assert forall|k: int| 0 <= k < streams@.len() implies #[trigger] follows(
                    streams@,
                    k,
                ) by {
                    if k < before.len() {
                        assert(follows(before, k));
                    }
                }
            }
            line_counter += stream_length;
        }
        stream_id += 1;
    }
    proof {
        lemma_total_is_start(n, m, m);
        lemma_streams_conserve(n, m);
    }
    streams
}

} // verus!
