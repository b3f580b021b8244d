//! Cutting files into chunks at places that their content decides.
use vstd::arithmetic::power2::*;
use vstd::prelude::*;

verus! {

/// The sizes that FastCDC accepts.
pub const MINIMUM_MIN: usize = 64;
pub const MINIMUM_MAX: usize = 1_048_576;
pub const AVERAGE_MIN: usize = 256;
pub const AVERAGE_MAX: usize = 4_194_304;
pub const MAXIMUM_MIN: usize = 1024;
pub const MAXIMUM_MAX: usize = 16_777_216;

/// The least and the most that FastCDC accepts for each of its sizes.
pub struct Limits {
    pub minimum: (usize, usize),
    pub average: (usize, usize),
    pub maximum: (usize, usize),
}

/// The sizes that a file is cut with.
#[derive(Debug, Clone, Copy, PartialEq, Eq, Structural)]
pub struct CutSizes {
    pub min: usize,
    pub avg: usize,
    pub max: usize,
}

/// How a file is cut.
pub enum FileCuts {
    /// All of it is in memory: the offset and the length of each chunk.
    Pieces(Vec<(usize, usize)>),
    /// It is larger than one chunk, or grew while it was read: cut it as it is read.
    Stream(CutSizes),
}

/// The lengths of the chunks that FastCDC cuts `data` into.
pub uninterp spec fn fastcdc_lengths(data: Seq<u8>, min: int, avg: int, max: int) -> Seq<usize>;

/// `fastcdc::v2020`'s constants.
#[verifier::external_body]
fn fastcdc_limits() -> (limits: Limits)
    ensures
        limits.minimum == (MINIMUM_MIN, MINIMUM_MAX),
        limits.average == (AVERAGE_MIN, AVERAGE_MAX),
        limits.maximum == (MAXIMUM_MIN, MAXIMUM_MAX),
{
    Limits {
        minimum: (fastcdc::v2020::MINIMUM_MIN, fastcdc::v2020::MINIMUM_MAX),
        average: (fastcdc::v2020::AVERAGE_MIN, fastcdc::v2020::AVERAGE_MAX),
        maximum: (fastcdc::v2020::MAXIMUM_MIN, fastcdc::v2020::MAXIMUM_MAX),
    }
}

/// `fastcdc::v2020::FastCDC::new` and its iterator: where it cuts depends on nothing but the data
/// and the sizes. The chunks follow each other without a gap and cover the data; none is empty and
/// none is longer than the maximum.
#[verifier::external_body]
fn fastcdc_cut(data: &[u8], sizes: CutSizes) -> (lengths: Vec<usize>)
    requires
        accepted(sizes),
    ensures
        lengths@ == fastcdc_lengths(data@, sizes.min as int, sizes.avg as int, sizes.max as int),
        total(lengths@) == data@.len(),
        forall|i: int| 0 <= i < lengths@.len() ==> 0 < #[trigger] lengths@[i] <= sizes.max,
{
    fastcdc::v2020::FastCDC::new(data, sizes.min, sizes.avg, sizes.max)
        .map(|chunk| chunk.length)
        .collect()
}

/// Sizes that FastCDC can cut with.
pub open spec fn accepted(sizes: CutSizes) -> bool {
    &&& MINIMUM_MIN <= sizes.min <= MINIMUM_MAX
    &&& AVERAGE_MIN <= sizes.avg <= AVERAGE_MAX
    &&& MAXIMUM_MIN <= sizes.max <= MAXIMUM_MAX
    &&& sizes.min <= sizes.avg <= sizes.max
}

/// The sum of lengths.
pub open spec fn total(lengths: Seq<usize>) -> int
    decreases lengths.len(),
{
    if lengths.len() == 0 {
        0
    } else {
        total(lengths.drop_last()) + lengths.last()
    }
}

/// `value`, or the bound that it lies beyond.
pub open spec fn clamped(value: int, low: int, high: int) -> int {
    if value < low {
        low
    } else if value > high {
        high
    } else {
        value
    }
}

/// How many pieces of `size` bytes it takes to cover `len`.
pub open spec fn pieces_needed(len: int, size: int) -> int {
    if len % size == 0 {
        len / size
    } else {
        len / size + 1
    }
}

/// Whether chunks of `avg` bytes keep a file within its chunk count. A count of zero is no limit.
pub open spec fn count_fits(avg: int, max_chunk_count: int, len: int) -> bool {
    max_chunk_count == 0 || pieces_needed(len, avg) <= max_chunk_count
}

/// The average, doubled until the chunk count fits or the largest average is reached.
pub open spec fn fitted_average(avg: int, max_chunk_count: int, len: int) -> int
    decreases AVERAGE_MAX - avg,
{
    if 0 < avg < AVERAGE_MAX && !count_fits(avg, max_chunk_count, len) {
        fitted_average(clamped(2 * avg, 0, AVERAGE_MAX as int), max_chunk_count, len)
    } else {
        avg
    }
}

/// The average that a file of `len` bytes is cut with.
pub open spec fn file_average(chunk_size: int, max_chunk_count: int, len: int) -> int {
    fitted_average(
        clamped(chunk_size, AVERAGE_MIN as int, AVERAGE_MAX as int),
        max_chunk_count,
        len,
    )
}

/// The sizes that a file of `len` bytes is cut with.
pub open spec fn file_sizes(
    sizes: CutSizes,
    chunk_size: usize,
    max_chunk_count: usize,
    len: u64,
) -> bool {
    let avg = file_average(chunk_size as int, max_chunk_count as int, len as int);
    &&& sizes.avg == avg
    &&& sizes.min == clamped(avg / 4, MINIMUM_MIN as int, MINIMUM_MAX as int)
    &&& sizes.max == clamped(avg * 4, MAXIMUM_MIN as int, MAXIMUM_MAX as int)
}

/// Where the chunk with number `i` starts.
pub open spec fn start_of(lengths: Seq<usize>, i: int) -> int {
    total(lengths.take(i))
}

/// Offsets and lengths of chunks with these lengths.
pub open spec fn ranges_of(lengths: Seq<usize>) -> Seq<(usize, usize)> {
    Seq::new(lengths.len(), |i: int| (start_of(lengths, i) as usize, lengths[i]))
}

/// The bytes of the chunks, one after the other.
pub open spec fn rejoined(data: Seq<u8>, ranges: Seq<(usize, usize)>) -> Seq<u8>
    decreases ranges.len(),
{
    if ranges.len() == 0 {
        Seq::empty()
    } else {
        let (offset, length) = ranges.last();
        rejoined(data, ranges.drop_last()) + data.subrange(offset as int, offset + length)
    }
}

/// The average lies between FastCDC's bounds, and either keeps the file within its chunk count or
/// is the largest there is.
pub proof fn file_average_fits(chunk_size: int, max_chunk_count: int, len: int)
    ensures
        AVERAGE_MIN <= file_average(chunk_size, max_chunk_count, len) <= AVERAGE_MAX,
        count_fits(file_average(chunk_size, max_chunk_count, len), max_chunk_count, len)
            || file_average(chunk_size, max_chunk_count, len) == AVERAGE_MAX,
{
    fitted_average_fits(
        clamped(chunk_size, AVERAGE_MIN as int, AVERAGE_MAX as int),
        max_chunk_count,
        len,
    );
}

proof fn fitted_average_fits(avg: int, max_chunk_count: int, len: int)
    requires
        AVERAGE_MIN <= avg <= AVERAGE_MAX,
    ensures
        avg <= fitted_average(avg, max_chunk_count, len) <= AVERAGE_MAX,
        count_fits(fitted_average(avg, max_chunk_count, len), max_chunk_count, len)
            || fitted_average(avg, max_chunk_count, len) == AVERAGE_MAX,
    decreases AVERAGE_MAX - avg,
{
    if avg < AVERAGE_MAX && !count_fits(avg, max_chunk_count, len) {
        fitted_average_fits(
            clamped(2 * avg, 0, AVERAGE_MAX as int),
            max_chunk_count,
            len,
        );
    }
}

/// A file fits its chunk count exactly if so many chunks of that size hold it.
proof fn count_fits_by_product(avg: int, max_chunk_count: int, len: int)
    requires
        avg > 0,
        max_chunk_count >= 0,
        len >= 0,
    ensures
        count_fits(avg, max_chunk_count, len) <==> max_chunk_count == 0 || len <= max_chunk_count
            * avg,
{
    let q = len / avg;
    let r = len % avg;
    vstd::arithmetic::div_mod::lemma_fundamental_div_mod(len, avg);
    vstd::arithmetic::div_mod::lemma_mod_bound(len, avg);
    assert(len == avg * q + r);
    if q < max_chunk_count {
        assert(avg * (q + 1) <= avg * max_chunk_count) by (nonlinear_arith)
            requires
                q + 1 <= max_chunk_count,
                avg > 0,
        ;
        assert(avg * (q + 1) == avg * q + avg) by (nonlinear_arith);
    } else if q > max_chunk_count {
        assert(avg * q >= avg * (max_chunk_count + 1)) by (nonlinear_arith)
            requires
                q >= max_chunk_count + 1,
                avg > 0,
        ;
        assert(avg * (max_chunk_count + 1) == avg * max_chunk_count + avg) by (nonlinear_arith);
    }
    assert(max_chunk_count * avg == avg * max_chunk_count) by (nonlinear_arith);
}

/// The average is the least that will do: the chunk size within FastCDC's bounds, doubled `k` times
/// and no further than the largest average. With it the chunk count holds the file, or it is the
/// largest; after fewer doublings the chunk count would not hold the file.
pub proof fn average_is_the_least_that_fits(chunk_size: int, max_chunk_count: int, len: int) -> (k:
    nat)
    requires
        max_chunk_count >= 0,
        len >= 0,
    ensures
        ({
            let base = if chunk_size < 256 {
                256
            } else if chunk_size > 4_194_304 {
                4_194_304
            } else {
                chunk_size
            };
            let avg = file_average(chunk_size, max_chunk_count, len);
            &&& avg == if base * pow2(k) < 4_194_304 {
                base * pow2(k)
            } else {
                4_194_304
            }
            &&& avg == 4_194_304 || max_chunk_count == 0 || len <= max_chunk_count * avg
            &&& forall|j: nat|
                j < k ==> base * #[trigger] pow2(j) < 4_194_304 && max_chunk_count > 0 && len
                    > max_chunk_count * (base * pow2(j))
        }),
{
    fitted_average_is_least(
        clamped(chunk_size, AVERAGE_MIN as int, AVERAGE_MAX as int),
        max_chunk_count,
        len,
    )
}

proof fn fitted_average_is_least(avg: int, max_chunk_count: int, len: int) -> (k: nat)
    requires
        AVERAGE_MIN <= avg <= AVERAGE_MAX,
        max_chunk_count >= 0,
        len >= 0,
    ensures
        ({
            let fitted = fitted_average(avg, max_chunk_count, len);
            &&& fitted == if avg * pow2(k) < AVERAGE_MAX {
                avg * pow2(k)
            } else {
                AVERAGE_MAX as int
            }
            &&& fitted == AVERAGE_MAX || max_chunk_count == 0 || len <= max_chunk_count * fitted
            &&& forall|j: nat|
                j < k ==> avg * #[trigger] pow2(j) < AVERAGE_MAX && max_chunk_count > 0 && len
                    > max_chunk_count * (avg * pow2(j))
        }),
    decreases AVERAGE_MAX - avg,
{
    count_fits_by_product(avg, max_chunk_count, len);
    lemma2_to64();
    assert(avg * pow2(0) == avg) by (nonlinear_arith)
        requires
            pow2(0) == 1,
    ;
    if avg < AVERAGE_MAX && !count_fits(avg, max_chunk_count, len) {
        if 2 * avg >= AVERAGE_MAX {
            assert(fitted_average(AVERAGE_MAX as int, max_chunk_count, len) == AVERAGE_MAX);
            assert(avg * pow2(1) == 2 * avg) by (nonlinear_arith)
                requires
                    pow2(1) == 2,
            ;
            assert forall|j: nat| j < 1 implies avg * #[trigger] pow2(j) < AVERAGE_MAX
                && max_chunk_count > 0 && len > max_chunk_count * (avg * pow2(j)) by {
                assert(j == 0);
            }
            1
        } else {
            let k = fitted_average_is_least(2 * avg, max_chunk_count, len);
            doubled_power(avg, k);
            assert forall|j: nat| j < k + 1 implies avg * #[trigger] pow2(j) < AVERAGE_MAX
                && max_chunk_count > 0 && len > max_chunk_count * (avg * pow2(j)) by {
                if j > 0 {
                    let i = (j - 1) as nat;
                    doubled_power(avg, i);
                    assert(2 * avg * pow2(i) < AVERAGE_MAX);
                }
            }
            k + 1
        }
    } else {
        0
    }
}

proof fn doubled_power(avg: int, k: nat)
    ensures
        2 * avg * pow2(k) == avg * pow2(k + 1),
{
    lemma_pow2_unfold(k + 1);
    assert(2 * avg * pow2(k) == avg * (2 * pow2(k))) by (nonlinear_arith);
}

/// Pieces with these lengths follow each other without a gap from the start, and end where the
/// lengths add up to.
pub proof fn pieces_follow_each_other(lengths: Seq<usize>, len: usize)
    requires
        total(lengths) == len,
    ensures
        ranges_of(lengths).len() == lengths.len(),
        lengths.len() == 0 ==> len == 0,
        lengths.len() > 0 ==> ranges_of(lengths)[0].0 == 0 && ranges_of(lengths).last().0
            + ranges_of(lengths).last().1 == len,
        forall|i: int|
            0 <= i < lengths.len() - 1 ==> #[trigger] ranges_of(lengths)[i].0
                + ranges_of(lengths)[i].1 == ranges_of(lengths)[i + 1].0,
        forall|i: int| 0 <= i < lengths.len() ==> #[trigger] ranges_of(lengths)[i].1 == lengths[i],
{
    let ranges = ranges_of(lengths);
    if lengths.len() > 0 {
        let n = lengths.len() as int;
        assert(lengths.take(0) =~= Seq::empty());
        total_is_monotone(lengths, n - 1);
        assert(lengths.take(n - 1) =~= lengths.drop_last());
    }
    assert forall|i: int| 0 <= i < lengths.len() - 1 implies #[trigger] ranges[i].0 + ranges[i].1
        == ranges[i + 1].0 by {
        total_is_monotone(lengths, i);
        total_is_monotone(lengths, i + 1);
        assert(lengths.take(i + 1).drop_last() =~= lengths.take(i));
    }
}

proof fn total_is_monotone(lengths: Seq<usize>, i: int)
    requires
        0 <= i <= lengths.len(),
    ensures
        0 <= start_of(lengths, i) <= total(lengths),
    decreases lengths.len() - i,
{
    if i < lengths.len() {
        total_is_monotone(lengths, i + 1);
        assert(lengths.take(i + 1).drop_last() =~= lengths.take(i));
        total_is_positive(lengths.take(i));
    } else {
        assert(lengths.take(i) =~= lengths);
        total_is_positive(lengths);
    }
}

proof fn total_is_positive(lengths: Seq<usize>)
    ensures
        total(lengths) >= 0,
    decreases lengths.len(),
{
    if lengths.len() > 0 {
        total_is_positive(lengths.drop_last());
    }
}

/// Chunks put back together are the file that they were cut from.
pub proof fn cutting_loses_nothing(data: Seq<u8>, lengths: Seq<usize>)
    requires
        total(lengths) == data.len(),
        data.len() <= usize::MAX,
    ensures
        rejoined(data, ranges_of(lengths)) == data,
{
    rejoined_prefix(data, lengths, lengths.len() as int);
    assert(lengths.take(lengths.len() as int) =~= lengths);
    assert(ranges_of(lengths).take(lengths.len() as int) =~= ranges_of(lengths));
    assert(data.take(data.len() as int) =~= data);
}

proof fn rejoined_prefix(data: Seq<u8>, lengths: Seq<usize>, n: int)
    requires
        total(lengths) == data.len(),
        data.len() <= usize::MAX,
        0 <= n <= lengths.len(),
    ensures
        0 <= start_of(lengths, n) <= data.len(),
        rejoined(data, ranges_of(lengths).take(n)) == data.take(start_of(lengths, n)),
    decreases n,
{
    total_is_monotone(lengths, n);
    let ranges = ranges_of(lengths);
    if n == 0 {
        assert(lengths.take(0) =~= Seq::empty());
        assert(ranges.take(0) =~= Seq::empty());
        assert(data.take(0) =~= Seq::empty());
    } else {
        rejoined_prefix(data, lengths, n - 1);
        total_is_monotone(lengths, n - 1);
        assert(lengths.take(n).drop_last() =~= lengths.take(n - 1));
        assert(ranges.take(n).drop_last() =~= ranges.take(n - 1));
        let a = start_of(lengths, n - 1);
        let b = start_of(lengths, n);
        assert(b == a + lengths[n - 1]);
        assert(ranges.take(n).last() == (a as usize, lengths[n - 1]));
        assert(data.take(a) + data.subrange(a, b) =~= data.take(b));
    }
}

fn clamp(value: usize, bounds: (usize, usize)) -> (clamp: usize)
    requires
        bounds.0 <= bounds.1,
    ensures
        clamp == clamped(value as int, bounds.0 as int, bounds.1 as int),
{
    if value < bounds.0 {
        bounds.0
    } else if value > bounds.1 {
        bounds.1
    } else {
        value
    }
}

/// FastCDC sizes for a file of `len` bytes. The average doubles until the chunk count fits
/// `max_chunk_count`; 0 means no cap.
pub fn cdc_parameters(chunk_size: usize, max_chunk_count: usize, len: u64) -> (sizes: CutSizes)
    ensures
        file_sizes(sizes, chunk_size, max_chunk_count, len),
        accepted(sizes),
        sizes.avg == file_average(chunk_size as int, max_chunk_count as int, len as int),
        sizes.min == sizes.avg / 4,
        sizes.max == sizes.avg * 4,
{
    let limits = fastcdc_limits();
    let mut avg: usize = clamp(chunk_size, limits.average);
    let ghost start = avg as int;
    loop
        invariant
            limits.average == (AVERAGE_MIN, AVERAGE_MAX),
            AVERAGE_MIN <= avg <= AVERAGE_MAX,
            start == clamped(chunk_size as int, AVERAGE_MIN as int, AVERAGE_MAX as int),
            fitted_average(avg as int, max_chunk_count as int, len as int) == fitted_average(
                start,
                max_chunk_count as int,
                len as int,
            ),
        ensures
            AVERAGE_MIN <= avg <= AVERAGE_MAX,
            avg == fitted_average(start, max_chunk_count as int, len as int),
        decreases AVERAGE_MAX - avg,
    {
        let whole: u64 = len / avg as u64;
        let pieces: u64 = if len % avg as u64 == 0 {
            whole
        } else {
            proof {
                assert(len / avg as u64 <= len / 2) by (nonlinear_arith)
                    requires
                        avg >= 2,
                ;
            }
            whole + 1
        };
        assert(pieces == pieces_needed(len as int, avg as int));
        if max_chunk_count == 0 || pieces <= max_chunk_count as u64 || avg >= limits.average.1 {
            break;
        }
        avg = clamp(avg * 2, (0, limits.average.1));
    }
    CutSizes {
        min: clamp(avg / 4, limits.minimum),
        avg,
        max: clamp(avg * 4, limits.maximum),
    }
}

/// Cuts data into chunks: the offset and the length of each.
pub fn split(data: &[u8], sizes: CutSizes) -> (ranges: Vec<(usize, usize)>)
    requires
        accepted(sizes),
    ensures
        ranges@ == ranges_of(
            fastcdc_lengths(data@, sizes.min as int, sizes.avg as int, sizes.max as int),
        ),
        rejoined(data@, ranges@) == data@,
        forall|i: int|
            0 <= i < ranges@.len() ==> {
                &&& 0 < #[trigger] ranges@[i].1 <= sizes.max
                &&& ranges@[i].0 + ranges@[i].1 <= data@.len()
            },
        ranges@.len() == 0 <==> data@.len() == 0,
        ranges@.len() > 0 ==> ranges@[0].0 == 0 && ranges@.last().0 + ranges@.last().1
            == data@.len(),
        forall|i: int|
            0 <= i < ranges@.len() - 1 ==> #[trigger] ranges@[i].0 + ranges@[i].1 == ranges@[i
                + 1].0,
{
    let lengths = fastcdc_cut(data, sizes);
    ranges(data, lengths)
}

/// The offsets of chunks that have these lengths and cover `data`.
pub fn ranges(data: &[u8], lengths: Vec<usize>) -> (ranges: Vec<(usize, usize)>)
    requires
        total(lengths@) == data@.len(),
    ensures
        ranges@ == ranges_of(lengths@),
        rejoined(data@, ranges@) == data@,
        forall|i: int|
            0 <= i < ranges@.len() ==> #[trigger] ranges@[i].0 + ranges@[i].1 <= data@.len(),
        ranges@.len() == lengths@.len(),
        forall|i: int| 0 <= i < ranges@.len() ==> #[trigger] ranges@[i].1 == lengths@[i],
        ranges@.len() == 0 ==> data@.len() == 0,
        ranges@.len() > 0 ==> ranges@[0].0 == 0 && ranges@.last().0 + ranges@.last().1
            == data@.len(),
        forall|i: int|
            0 <= i < ranges@.len() - 1 ==> #[trigger] ranges@[i].0 + ranges@[i].1 == ranges@[i
                + 1].0,
{
    let mut ranges: Vec<(usize, usize)> = Vec::new();
    let mut offset: usize = 0;
    let mut i: usize = 0;
    assert(lengths@.take(0) =~= Seq::empty());
    let ghost len = data@.len();
    assert(len == data.len());
    while i < lengths.len()
        invariant
            i <= lengths@.len(),
            total(lengths@) == len,
            len <= usize::MAX,
            offset == start_of(lengths@, i as int),
            ranges@ == ranges_of(lengths@).take(i as int),
        decreases lengths@.len() - i,
    {
        proof {
            total_is_monotone(lengths@, i + 1);
            assert(lengths@.take(i + 1).drop_last() =~= lengths@.take(i as int));
        }
        ranges.push((offset, lengths[i]));
        offset = offset + lengths[i];
        i = i + 1;
        assert(ranges@ =~= ranges_of(lengths@).take(i as int));
    }
    proof {
        assert(ranges_of(lengths@).take(lengths@.len() as int) =~= ranges_of(lengths@));
        cutting_loses_nothing(data@, lengths@);
        pieces_follow_each_other(lengths@, data.len());
        assert forall|i: int|
            0 <= i < ranges@.len() implies #[trigger] ranges@[i].0 + ranges@[i].1
            <= data@.len() by {
            total_is_monotone(lengths@, i);
            total_is_monotone(lengths@, i + 1);
            assert(lengths@.take(i + 1).drop_last() =~= lengths@.take(i));
        }
    }
    ranges
}

/// Whether a file of `len` bytes is read into memory before it is cut.
pub fn reads_whole(sizes: CutSizes, len: u64) -> (whole: bool)
    ensures
        whole == (len <= sizes.max),
{
    len <= sizes.max as u64
}

/// Decides how a file is cut. `len` is its size as it was looked up, `data` what was read of it
/// when that size is read whole, and nothing otherwise.
pub fn cut_file(sizes: CutSizes, len: u64, data: &[u8]) -> (cuts: FileCuts)
    requires
        accepted(sizes),
    ensures
        match cuts {
            FileCuts::Pieces(ranges) => {
                &&& len <= sizes.max && data@.len() <= sizes.max
                &&& ranges@ == ranges_of(
                    fastcdc_lengths(data@, sizes.min as int, sizes.avg as int, sizes.max as int),
                )
                &&& rejoined(data@, ranges@) == data@
                &&& forall|i: int|
                    0 <= i < ranges@.len() ==> {
                        &&& 0 < #[trigger] ranges@[i].1 <= sizes.max
                        &&& ranges@[i].0 + ranges@[i].1 <= data@.len()
                    }
                &&& ranges@.len() == 0 <==> data@.len() == 0
                &&& ranges@.len() > 0 ==> ranges@[0].0 == 0 && ranges@.last().0 + ranges@.last().1
                    == data@.len()
                &&& forall|i: int|
                    0 <= i < ranges@.len() - 1 ==> #[trigger] ranges@[i].0 + ranges@[i].1
                        == ranges@[i + 1].0
            },
            FileCuts::Stream(stream) => (len > sizes.max || data@.len() > sizes.max) && stream
                == sizes,
        },
{
    if reads_whole(sizes, len) && data.len() <= sizes.max {
        FileCuts::Pieces(split(data, sizes))
    } else {
        FileCuts::Stream(sizes)
    }
}

} // verus!
