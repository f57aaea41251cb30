//! Statistics on loading paths from the blob.
use vstd::multiset::Multiset;
use vstd::prelude::*;

verus! {

/// What one read of the blob took.
#[derive(Clone, Copy, PartialEq, Eq, Structural)]
pub struct ReadStats {
    pub pread_count: u64,
    pub bytes_read: u64,
    pub cache_hits: u64,
    pub cache_hit_bytes: u64,
    pub cache_header_misses: u64,
}

/// What loading took since the last report.
pub struct PromotionStats {
    pub count: u64,
    pub total_us: u64,
    pub total_read_us: u64,
    pub durations_us: Vec<u64>,
    pub read_durations_us: Vec<u64>,
    pub io: ReadStats,
}

/// A report on what loading took.
#[derive(Clone, Copy, PartialEq, Eq, Structural)]
pub struct PromotionSnapshot {
    pub count: u64,
    pub total_us: u64,
    pub total_read_us: u64,
    pub p50: u64,
    pub p95: u64,
    pub p99: u64,
    pub read_p50: u64,
    pub read_p95: u64,
    pub read_p99: u64,
    pub io: ReadStats,
}

/// The sum where it fits, else the largest number.
pub open spec fn capped_sum(a: u64, b: u64) -> u64 {
    if a + b <= u64::MAX {
        (a + b) as u64
    } else {
        u64::MAX
    }
}

/// Two counts of what reads took, together.
pub open spec fn both(a: ReadStats, b: ReadStats) -> ReadStats {
    ReadStats {
        pread_count: capped_sum(a.pread_count, b.pread_count),
        bytes_read: capped_sum(a.bytes_read, b.bytes_read),
        cache_hits: capped_sum(a.cache_hits, b.cache_hits),
        cache_hit_bytes: capped_sum(a.cache_hit_bytes, b.cache_hit_bytes),
        cache_header_misses: capped_sum(a.cache_header_misses, b.cache_header_misses),
    }
}

/// No reads.
pub open spec fn no_reads() -> ReadStats {
    ReadStats {
        pread_count: 0,
        bytes_read: 0,
        cache_hits: 0,
        cache_hit_bytes: 0,
        cache_header_misses: 0,
    }
}

/// Whether numbers are listed in rising order.
pub open spec fn is_sorted(s: Seq<u64>) -> bool {
    forall|i: int, j: int| 0 <= i < j < s.len() ==> #[trigger] s[i] <= #[trigger] s[j]
}

/// `[u64]::sort_unstable`: the same numbers in rising order.
#[verifier::external_body]
fn sort_numbers(v: &mut Vec<u64>)
    ensures
        is_sorted(final(v)@),
        final(v)@.to_multiset() == old(v)@.to_multiset(),
{
    v.sort_unstable();
}

/// The place of a percentile among `n` sorted numbers: the share of the way from the
/// first to the last, rounded to the nearest place, halves up.
pub open spec fn percentile_place(n: int, p: int) -> int {
    (2 * p * (n - 1) + 100) / 200
}

/// A percentile of sorted numbers; zero without any.
pub open spec fn percentile_of(sorted: Seq<u64>, p: int) -> u64 {
    if sorted.len() == 0 {
        0
    } else {
        sorted[percentile_place(sorted.len() as int, p)]
    }
}

/// Whether a number is a percentile of numbers in any order.
pub open spec fn is_percentile(s: Seq<u64>, p: int, x: u64) -> bool {
    exists|t: Seq<u64>| #[trigger]
        is_sorted(t) && t.to_multiset() == s.to_multiset() && x == percentile_of(t, p)
}

/// A percentile of sorted numbers, `p` in hundredths up to a hundred.
pub fn percentile(sorted: &Vec<u64>, p: u64) -> (r: u64)
    requires
        p <= 100,
    ensures
        r == percentile_of(sorted@, p as int),
{
    if sorted.len() == 0 {
        return 0;
    }
    let last: u128 = (sorted.len() - 1) as u128;
    assert(p as int * last as int <= 100 * last as int) by (nonlinear_arith)
        requires
            p <= 100,
    ;
    assert(0 <= p as int * last as int) by (nonlinear_arith);
    assert(2 * p as int * (sorted@.len() - 1) == 2 * (p as int * last as int)) by (nonlinear_arith)
        requires
            last == sorted@.len() - 1,
    ;
    let scaled: u128 = 2 * (p as u128 * last) + 100;
    let place: u128 = scaled / 200;
    assert(place <= last) by {
        assert(scaled <= 200 * last + 100);
    }
    sorted[place as usize]
}

impl PromotionStats {
    /// Nothing was loaded yet.
    pub fn new() -> (r: PromotionStats)
        ensures
            r.count == 0,
            r.total_us == 0,
            r.total_read_us == 0,
            r.durations_us@.len() == 0,
            r.read_durations_us@.len() == 0,
            r.io == no_reads(),
    {
        PromotionStats {
            count: 0,
            total_us: 0,
            total_read_us: 0,
            durations_us: Vec::new(),
            read_durations_us: Vec::new(),
            io: ReadStats {
                pread_count: 0,
                bytes_read: 0,
                cache_hits: 0,
                cache_hit_bytes: 0,
                cache_header_misses: 0,
            },
        }
    }

    /// Counts one path that was loaded, with the time it took in all and for reading,
    /// in microseconds.
    pub fn record(&mut self, total_us: u64, read_us: u64, io: ReadStats)
        ensures
            final(self).count == capped_sum(old(self).count, 1),
            final(self).total_us == capped_sum(old(self).total_us, total_us),
            final(self).total_read_us == capped_sum(old(self).total_read_us, read_us),
            final(self).durations_us@ == old(self).durations_us@.push(total_us),
            final(self).read_durations_us@ == old(self).read_durations_us@.push(read_us),
            final(self).io == both(old(self).io, io),
    {
        self.count = self.count.saturating_add(1);
        self.total_us = self.total_us.saturating_add(total_us);
        self.total_read_us = self.total_read_us.saturating_add(read_us);
        self.durations_us.push(total_us);
        self.read_durations_us.push(read_us);
        self.io.pread_count = self.io.pread_count.saturating_add(io.pread_count);
        self.io.bytes_read = self.io.bytes_read.saturating_add(io.bytes_read);
        self.io.cache_hits = self.io.cache_hits.saturating_add(io.cache_hits);
        self.io.cache_hit_bytes = self.io.cache_hit_bytes.saturating_add(io.cache_hit_bytes);
        self.io.cache_header_misses = self.io.cache_header_misses.saturating_add(
            io.cache_header_misses,
        );
    }

    /// Reports what was counted and starts over.
    pub fn reset(&mut self) -> (r: PromotionSnapshot)
        ensures
            r.count == old(self).count,
            r.total_us == old(self).total_us,
            r.total_read_us == old(self).total_read_us,
            r.io == old(self).io,
            is_percentile(old(self).durations_us@, 50, r.p50),
            is_percentile(old(self).durations_us@, 95, r.p95),
            is_percentile(old(self).durations_us@, 99, r.p99),
            is_percentile(old(self).read_durations_us@, 50, r.read_p50),
            is_percentile(old(self).read_durations_us@, 95, r.read_p95),
            is_percentile(old(self).read_durations_us@, 99, r.read_p99),
            final(self).count == 0,
            final(self).total_us == 0,
            final(self).total_read_us == 0,
            final(self).durations_us@.len() == 0,
            final(self).read_durations_us@.len() == 0,
            final(self).io == no_reads(),
    {
        let mut fresh = PromotionStats::new();
        std::mem::swap(self, &mut fresh);
        let PromotionStats {
            count,
            total_us,
            total_read_us,
            durations_us,
            read_durations_us,
            io,
        } = fresh;
        let mut sorted = durations_us;
        let mut read_sorted = read_durations_us;
        sort_numbers(&mut sorted);
        sort_numbers(&mut read_sorted);
        PromotionSnapshot {
            count,
            total_us,
            total_read_us,
            p50: percentile(&sorted, 50),
            p95: percentile(&sorted, 95),
            p99: percentile(&sorted, 99),
            read_p50: percentile(&read_sorted, 50),
            read_p95: percentile(&read_sorted, 95),
            read_p99: percentile(&read_sorted, 99),
            io,
        }
    }
}

/// Sorted numbers that are the same all told are the same one by one, so that a
/// percentile does not depend on the order in which the numbers came.
pub proof fn law_percentile_is_unique(s: Seq<u64>, p: int, x: u64, y: u64)
    requires
        is_percentile(s, p, x),
        is_percentile(s, p, y),
    ensures
        x == y,
{
    let a = choose|t: Seq<u64>| #[trigger]
        is_sorted(t) && t.to_multiset() == s.to_multiset() && x == percentile_of(t, p);
    let b = choose|t: Seq<u64>| #[trigger]
        is_sorted(t) && t.to_multiset() == s.to_multiset() && y == percentile_of(t, p);
    lemma_sorted_same(a, b);
}

/// Two sorted lists of the same numbers are equal.
proof fn lemma_sorted_same(a: Seq<u64>, b: Seq<u64>)
    requires
        is_sorted(a),
        is_sorted(b),
        a.to_multiset() == b.to_multiset(),
    ensures
        a == b,
{
    let leq = |x: u64, y: u64| x <= y;
    assert(vstd::relations::sorted_by(a, leq)) by {
        assert forall|i: int, j: int| 0 <= i < j < a.len() implies #[trigger] leq(a[i], a[j]) by {
            assert(a[i] <= a[j]);
        }
    }
    assert(vstd::relations::sorted_by(b, leq)) by {
        assert forall|i: int, j: int| 0 <= i < j < b.len() implies #[trigger] leq(b[i], b[j]) by {
            assert(b[i] <= b[j]);
        }
    }
    assert(vstd::relations::total_ordering(leq));
    vstd::seq_lib::lemma_sorted_unique(a, b, leq);
}

/// The lowest percentile is the smallest number, the highest the largest, and what lies
/// between is at the place nearest to its share of the way.
pub proof fn law_percentiles_lie_on_the_way(sorted: Seq<u64>, p: int)
    requires
        sorted.len() > 0,
        0 <= p <= 100,
        is_sorted(sorted),
    ensures
        percentile_of(sorted, 0) == sorted[0],
        percentile_of(sorted, 100) == sorted[sorted.len() - 1],
        exists|i: int|
            0 <= i < sorted.len() && percentile_of(sorted, p) == #[trigger] sorted[i] && -100 <= 200
                * i - 2 * p * (sorted.len() - 1) <= 100,
        percentile_of(Seq::empty(), p) == 0,
{
    let n = sorted.len() as int;
    let i = percentile_place(n, p);
    assert(2 * p * (n - 1) >= 0 && 2 * p * (n - 1) <= 200 * (n - 1)) by (nonlinear_arith)
        requires
            0 <= p <= 100,
            n >= 1,
    ;
    assert(0 <= i < n);
    assert(percentile_of(sorted, p) == sorted[i]);
    assert(2 * 0 * (n - 1) == 0) by (nonlinear_arith);
    assert(percentile_place(n, 0) == 0);
    assert(2 * 100 * (n - 1) == 200 * (n - 1));
    assert(percentile_place(n, 100) == n - 1);
}

/// Counts of reads are added one by one, and stop at the largest number.
pub proof fn law_reads_are_added(a: ReadStats, b: ReadStats)
    ensures
        a.pread_count + b.pread_count <= u64::MAX ==> both(a, b).pread_count == a.pread_count
            + b.pread_count,
        a.bytes_read + b.bytes_read <= u64::MAX ==> both(a, b).bytes_read == a.bytes_read
            + b.bytes_read,
        a.cache_hits + b.cache_hits <= u64::MAX ==> both(a, b).cache_hits == a.cache_hits
            + b.cache_hits,
        a.cache_hit_bytes + b.cache_hit_bytes <= u64::MAX ==> both(a, b).cache_hit_bytes
            == a.cache_hit_bytes + b.cache_hit_bytes,
        a.cache_header_misses + b.cache_header_misses <= u64::MAX ==> both(
            a,
            b,
        ).cache_header_misses == a.cache_header_misses + b.cache_header_misses,
        both(a, b) == both(b, a),
        both(a, no_reads()) == a,
        both(a, b).pread_count >= a.pread_count && both(a, b).bytes_read >= a.bytes_read,
{
}

} // verus!
