//! Min/max level-of-detail pyramid over mono 16-bit samples, used to draw waveforms
//! when zoomed out.
use vstd::prelude::*;

verus! {

/// One level of the pyramid: for each bin of `samples_per_bin` consecutive samples, the
/// least and the greatest sample of the bin.
#[derive(Debug, Clone)]
pub struct LodLevel {
    pub samples_per_bin: usize,
    pub min: Vec<i16>,
    pub max: Vec<i16>,
}

impl LodLevel {
    /// Number of bins that have both a minimum and a maximum.
    pub fn len(&self) -> (n: usize)
        ensures
            n == if self.min@.len() <= self.max@.len() {
                self.min@.len()
            } else {
                self.max@.len()
            },
    {
        if self.min.len() <= self.max.len() {
            self.min.len()
        } else {
            self.max.len()
        }
    }
}

/// Least sample of a run; `i16::MAX` for an empty run.
pub open spec fn run_min(s: Seq<i16>) -> i16
    decreases s.len(),
{
    if s.len() == 0 {
        i16::MAX
    } else {
        let m = run_min(s.drop_last());
        if s.last() < m {
            s.last()
        } else {
            m
        }
    }
}

/// Greatest sample of a run; `i16::MIN` for an empty run.
pub open spec fn run_max(s: Seq<i16>) -> i16
    decreases s.len(),
{
    if s.len() == 0 {
        i16::MIN
    } else {
        let m = run_max(s.drop_last());
        if s.last() > m {
            s.last()
        } else {
            m
        }
    }
}

/// `n + 1`, saturated at `usize::MAX`.
pub open spec fn saturating_inc(n: int) -> int {
    if n < usize::MAX {
        n + 1
    } else {
        usize::MAX as int
    }
}

/// `2 * n`, saturated at `usize::MAX`.
pub open spec fn saturating_double(n: int) -> int {
    if 2 * n <= usize::MAX {
        2 * n
    } else {
        usize::MAX as int
    }
}

/// Bin sizes of the pyramid over `n` samples: `bin`, then doubling (saturated), while the
/// size is at most `max_bin` and below `n + 1` (saturated).
pub open spec fn lod_bin_sizes(bin: int, max_bin: int, n: int) -> Seq<int>
    decreases usize::MAX - bin,
{
    if 0 < bin < usize::MAX && bin <= max_bin && bin < saturating_inc(n) {
        seq![bin] + lod_bin_sizes(saturating_double(bin), max_bin, n)
    } else {
        Seq::empty()
    }
}

/// Number of bins of size `bin` that cover `n` samples: `n / bin` rounded up.
pub open spec fn bin_count(n: int, bin: int) -> int {
    (n + bin - 1) / bin
}

/// End of the bin that starts at `start`: `bin` samples later, or the end of the samples.
pub open spec fn bin_end(n: int, start: int, bin: int) -> int {
    if start + bin <= n {
        start + bin
    } else {
        n
    }
}

/// Minima of the bins of size `bin` over `mono`.
pub open spec fn level_mins(mono: Seq<i16>, bin: int) -> Seq<i16> {
    Seq::new(
        bin_count(mono.len() as int, bin) as nat,
        |j: int| run_min(mono.subrange(j * bin, bin_end(mono.len() as int, j * bin, bin))),
    )
}

/// Maxima of the bins of size `bin` over `mono`.
pub open spec fn level_maxs(mono: Seq<i16>, bin: int) -> Seq<i16> {
    Seq::new(
        bin_count(mono.len() as int, bin) as nat,
        |j: int| run_max(mono.subrange(j * bin, bin_end(mono.len() as int, j * bin, bin))),
    )
}

/// The pyramid that [`build_lod_pyramid`] gives: one level per bin size.
pub open spec fn lod_pyramid_matches(
    levels: Seq<LodLevel>,
    mono: Seq<i16>,
    start_bin: int,
    max_bin: int,
) -> bool {
    if mono.len() == 0 || start_bin == 0 {
        levels.len() == 0
    } else {
        let sizes = lod_bin_sizes(start_bin, max_bin, mono.len() as int);
        &&& levels.len() == sizes.len()
        &&& forall|k: int|
            0 <= k < levels.len() ==> {
                &&& (#[trigger] levels[k]).samples_per_bin == sizes[k]
                &&& levels[k].min@ == level_mins(mono, sizes[k])
                &&& levels[k].max@ == level_maxs(mono, sizes[k])
            }
    }
}

/// Least and greatest sample of `mono[start..end]`.
fn bin_min_max(mono: &[i16], start: usize, end: usize) -> (r: (i16, i16))
    requires
        start <= end <= mono@.len(),
    ensures
        r.0 == run_min(mono@.subrange(start as int, end as int)),
        r.1 == run_max(mono@.subrange(start as int, end as int)),
{
    let mut mn: i16 = i16::MAX;
    let mut mx: i16 = i16::MIN;
    let mut i: usize = start;
    proof {
        assert(mono@.subrange(start as int, start as int) =~= Seq::<i16>::empty());
    }
    while i < end
        invariant
            start <= i <= end <= mono@.len(),
            mn == run_min(mono@.subrange(start as int, i as int)),
            mx == run_max(mono@.subrange(start as int, i as int)),
        decreases end - i,
    {
        let v = mono[i];
        proof {
            let next = mono@.subrange(start as int, i + 1);
            assert(next.drop_last() =~= mono@.subrange(start as int, i as int));
            assert(next.last() == v);
        }
        if v < mn {
            mn = v;
        }
        if v > mx {
            mx = v;
        }
        i = i + 1;
    }
    (mn, mx)
}

/// One level of the pyramid, for bins of `bin` samples.
fn build_level(mono: &[i16], bin: usize) -> (level: LodLevel)
    requires
        0 < bin,
        0 < mono@.len(),
    ensures
        level.samples_per_bin == bin,
        level.min@ == level_mins(mono@, bin as int),
        level.max@ == level_maxs(mono@, bin as int),
{
    let n = mono.len();
    let mut mins: Vec<i16> = Vec::new();
    let mut maxs: Vec<i16> = Vec::new();
    let mut start: usize = 0;
    let ghost count = bin_count(n as int, bin as int);
    proof {
        assert(count >= 1) by (nonlinear_arith)
            requires
                count == (n + bin - 1) / (bin as int),
                n >= 1,
                bin >= 1,
        ;
    }
    while start < n
        invariant
            n == mono@.len(),
            0 < bin,
            count == bin_count(n as int, bin as int),
            mins@.len() == maxs@.len(),
            start == n ==> mins@.len() == count,
            start <= n,
            start < n ==> mins@.len() < count,
            start < n ==> start == mins@.len() * bin,
            forall|j: int|
                0 <= j < mins@.len() ==> #[trigger] mins@[j] == level_mins(mono@, bin as int)[j],
            forall|j: int|
                0 <= j < maxs@.len() ==> #[trigger] maxs@[j] == level_maxs(mono@, bin as int)[j],
        decreases n - start,
    {
        let j = mins.len();
        let end = if bin <= n - start {
            start + bin
        } else {
            n
        };
        let (mn, mx) = bin_min_max(mono, start, end);
        proof {
            assert(end == bin_end(n as int, j * bin, bin as int));
        }
        mins.push(mn);
        maxs.push(mx);
        proof {
            assert(mins@[j as int] == level_mins(mono@, bin as int)[j as int]);
            assert(maxs@[j as int] == level_maxs(mono@, bin as int)[j as int]);
        }
        if bin < n - start {
            start = start + bin;
            proof {
                assert(start == mins@.len() * bin) by (nonlinear_arith)
                    requires
                        start == j * bin + bin,
                        mins@.len() == j + 1,
                ;
                assert(mins@.len() < count) by (nonlinear_arith)
                    requires
                        count == (n + bin - 1) / (bin as int),
                        mins@.len() * bin < n,
                        bin > 0,
                ;
            }
        } else {
            proof {
                assert(mins@.len() == count) by (nonlinear_arith)
                    requires
                        count == (n + bin - 1) / (bin as int),
                        j * bin < n,
                        n <= j * bin + bin,
                        mins@.len() == j + 1,
                        bin > 0,
                ;
            }
            start = n;
        }
    }
    proof {
        assert(mins@ =~= level_mins(mono@, bin as int));
        assert(maxs@ =~= level_maxs(mono@, bin as int));
    }
    LodLevel { samples_per_bin: bin, min: mins, max: maxs }
}

/// Builds a min/max pyramid from mono samples: a first level with bins of `start_bin`
/// samples, then levels whose bins double in size, up to `max_bin` samples per bin and
/// while a bin is not longer than the samples. No samples, or a zero `start_bin`, give no
/// levels.
pub fn build_lod_pyramid(mono: &[i16], start_bin: usize, max_bin: usize) -> (levels: Vec<LodLevel>)
    ensures
        lod_pyramid_matches(levels@, mono@, start_bin as int, max_bin as int),
{
    let n = mono.len();
    if n == 0 || start_bin == 0 {
        return Vec::new();
    }
    let mut levels: Vec<LodLevel> = Vec::new();
    let mut bin = start_bin;
    let ghost sizes = lod_bin_sizes(start_bin as int, max_bin as int, n as int);
    while bin <= max_bin && bin < n.saturating_add(1)
        invariant
            n == mono@.len(),
            0 < n,
            0 < bin,
            sizes == lod_bin_sizes(start_bin as int, max_bin as int, n as int),
            sizes == levels@.map_values(|l: LodLevel| l.samples_per_bin as int) + lod_bin_sizes(
                bin as int,
                max_bin as int,
                n as int,
            ),
            forall|k: int|
                0 <= k < levels@.len() ==> {
                    &&& (#[trigger] levels@[k]).min@ == level_mins(mono@, levels@[k].samples_per_bin as int)
                    &&& levels@[k].max@ == level_maxs(mono@, levels@[k].samples_per_bin as int)
                },
        decreases usize::MAX - bin,
    {
        let level = build_level(mono, bin);
        let ghost before = levels@;
        levels.push(level);
        proof {
            assert(bin < usize::MAX);
            assert(lod_bin_sizes(bin as int, max_bin as int, n as int) == seq![bin as int]
                + lod_bin_sizes(saturating_double(bin as int), max_bin as int, n as int));
            assert(levels@.map_values(|l: LodLevel| l.samples_per_bin as int) =~= before.map_values(
                |l: LodLevel| l.samples_per_bin as int,
            ).push(bin as int));
            assert(levels@.map_values(|l: LodLevel| l.samples_per_bin as int) + lod_bin_sizes(
                saturating_double(bin as int),
                max_bin as int,
                n as int,
            ) =~= before.map_values(|l: LodLevel| l.samples_per_bin as int) + lod_bin_sizes(
                bin as int,
                max_bin as int,
                n as int,
            ));
        }
        bin = if bin <= usize::MAX / 2 {
            bin * 2
        } else {
            usize::MAX
        };
    }
    proof {
        assert(lod_bin_sizes(bin as int, max_bin as int, n as int) =~= Seq::<int>::empty());
        let sv = levels@.map_values(|l: LodLevel| l.samples_per_bin as int);
        assert(sizes =~= sv);
        assert forall|k: int| 0 <= k < levels@.len() implies {
            &&& (#[trigger] levels@[k]).samples_per_bin == sizes[k]
            &&& levels@[k].min@ == level_mins(mono@, sizes[k])
            &&& levels@[k].max@ == level_maxs(mono@, sizes[k])
        } by {
            assert(sv[k] == levels@[k].samples_per_bin as int);
        }
    }
    levels
}

/// The least sample of a run is at most each of its samples, and the greatest at least.
pub proof fn lemma_run_bounds(s: Seq<i16>, i: int)
    requires
        0 <= i < s.len(),
    ensures
        run_min(s) <= s[i] <= run_max(s),
    decreases s.len(),
{
    if i < s.len() - 1 {
        lemma_run_bounds(s.drop_last(), i);
        assert(s.drop_last()[i] == s[i]);
    }
}

/// Every bin of every level of a pyramid holds at least one sample, so its minimum is at
/// most its maximum, and every sample of the bin lies between the two.
pub proof fn lemma_pyramid_bins_bound_samples(
    levels: Seq<LodLevel>,
    mono: Seq<i16>,
    start_bin: int,
    max_bin: int,
    k: int,
    j: int,
    i: int,
)
    requires
        lod_pyramid_matches(levels, mono, start_bin, max_bin),
        0 <= k < levels.len(),
        0 <= j < levels[k].min@.len(),
        j * levels[k].samples_per_bin <= i < bin_end(
            mono.len() as int,
            j * levels[k].samples_per_bin,
            levels[k].samples_per_bin as int,
        ),
    ensures
        levels[k].min@.len() == levels[k].max@.len(),
        levels[k].min@[j] <= mono[i] <= levels[k].max@[j],
        levels[k].min@[j] <= levels[k].max@[j],
{
    let bin = levels[k].samples_per_bin as int;
    let n = mono.len() as int;
    lemma_sizes_positive(start_bin, max_bin, n, k);
    let start = j * bin;
    let end = bin_end(n, start, bin);
    assert(start < n) by (nonlinear_arith)
        requires
            0 <= j < (n + bin - 1) / bin,
            bin > 0,
            start == j * bin,
    ;
    let run = mono.subrange(start, end);
    lemma_run_bounds(run, i - start);
    assert(run[i - start] == mono[i]);
}

/// The bin sizes of a pyramid are positive.
proof fn lemma_sizes_positive(bin: int, max_bin: int, n: int, k: int)
    requires
        0 <= k < lod_bin_sizes(bin, max_bin, n).len(),
    ensures
        lod_bin_sizes(bin, max_bin, n)[k] > 0,
    decreases usize::MAX - bin,
{
    if 0 < bin < usize::MAX && bin <= max_bin && bin < saturating_inc(n) {
        if k > 0 {
            lemma_sizes_positive(saturating_double(bin), max_bin, n, k - 1);
        }
    }
}

/// Each level of a pyramid has bins twice as long as the level before, unless that would
/// pass `usize::MAX`.
pub proof fn lemma_pyramid_bins_double(
    levels: Seq<LodLevel>,
    mono: Seq<i16>,
    start_bin: int,
    max_bin: int,
    k: int,
)
    requires
        lod_pyramid_matches(levels, mono, start_bin, max_bin),
        0 < k < levels.len(),
    ensures
        levels[k].samples_per_bin == saturating_double(levels[k - 1].samples_per_bin as int),
{
    lemma_sizes_double(start_bin, max_bin, mono.len() as int, k);
}

proof fn lemma_sizes_double(bin: int, max_bin: int, n: int, k: int)
    requires
        0 < k < lod_bin_sizes(bin, max_bin, n).len(),
    ensures
        lod_bin_sizes(bin, max_bin, n)[k] == saturating_double(lod_bin_sizes(bin, max_bin, n)[k - 1]),
    decreases usize::MAX - bin,
{
    let next = saturating_double(bin);
    if k > 1 {
        lemma_sizes_double(next, max_bin, n, k - 1);
    } else {
        assert(lod_bin_sizes(next, max_bin, n).len() > 0);
    }
}

/// Height of a bin for drawing: the larger of its maximum and the negated minimum.
pub open spec fn bin_height(mn: i16, mx: i16) -> int {
    if -(mn as int) > mx as int {
        -(mn as int)
    } else {
        mx as int
    }
}

/// The greatest bin height of bins `lo..hi` of a level, and at least 0.
pub open spec fn bins_peak(min: Seq<i16>, max: Seq<i16>, lo: int, hi: int) -> int
    decreases hi - lo,
{
    if hi <= lo {
        0
    } else {
        let rest = bins_peak(min, max, lo, hi - 1);
        let h = bin_height(min[hi - 1], max[hi - 1]);
        if h > rest {
            h
        } else {
            rest
        }
    }
}

/// `v` clamped into `lo..=hi`.
pub open spec fn clamp_int(v: int, lo: int, hi: int) -> int {
    if v < lo {
        lo
    } else if v > hi {
        hi
    } else {
        v
    }
}

/// The peak a drawn column shows from a level, over the bins from `b0` to `b1` (at least
/// one bin), clamped into the level.
pub open spec fn column_lod_peak(min: Seq<i16>, max: Seq<i16>, len: int, b0: int, b1: int) -> int {
    let b1 = if b1 > b0 + 1 { b1 } else { b0 + 1 };
    let lo = clamp_int(b0, 0, len - 1);
    let hi = clamp_int(b1, 0, len);
    if lo >= hi {
        0
    } else {
        bins_peak(min, max, lo, hi)
    }
}

/// The peak a drawn column shows from a pyramid level, for the bins from `b0` to `b1`:
/// at least one bin is taken, the range is clamped into the level, and the peak is the
/// greatest bin height (0 for an empty range).
pub fn lod_column_peak(level: &LodLevel, b0: isize, b1: isize) -> (peak: i32)
    requires
        1 <= level.min@.len() <= isize::MAX,
        1 <= level.max@.len() <= isize::MAX,
        b0 < isize::MAX,
    ensures
        peak == column_lod_peak(
            level.min@,
            level.max@,
            if level.min@.len() <= level.max@.len() { level.min@.len() as int } else { level.max@.len() as int },
            b0 as int,
            b1 as int,
        ),
{
    let b1 = if b1 > b0 + 1 { b1 } else { b0 + 1 };
    let len = level.len();
    proof {
        assert(len <= level.min@.len());
    }
    let len_i = len as isize;
    let lo: isize = if b0 < 0 { 0 } else if b0 > len_i - 1 { len_i - 1 } else { b0 };
    let hi: isize = if b1 < 0 { 0 } else if b1 > len_i { len_i } else { b1 };
    if lo >= hi {
        return 0;
    }
    let lo = lo as usize;
    let hi = hi as usize;
    let mut amax: i32 = 0;
    let mut j: usize = lo;
    while j < hi
        invariant
            lo <= j <= hi <= level.min@.len(),
            hi <= level.max@.len(),
            amax == bins_peak(level.min@, level.max@, lo as int, j as int),
            0 <= amax <= 32768,
        decreases hi - j,
    {
        let mn = level.min[j] as i32;
        let mx = level.max[j] as i32;
        let v = if -mn > mx { -mn } else { mx };
        if v > amax {
            amax = v;
        }
        j = j + 1;
    }
    amax
}

/// Step between the raw samples read for one drawn column spanning `span` samples: every
/// sample up to 4096, else about 1024 of them, and at least every second one.
pub open spec fn sample_stride(span: int) -> int {
    if span > 4096 {
        if span / 1024 > 2 {
            span / 1024
        } else {
            2
        }
    } else {
        1
    }
}

/// Magnitude of a sample.
pub open spec fn magnitude(v: i16) -> int {
    if v < 0 {
        -(v as int)
    } else {
        v as int
    }
}

/// The greatest magnitude among the first `count` samples read from `f0` on, `stride`
/// apart, and at least 0.
pub open spec fn strided_peak(mono: Seq<i16>, f0: int, stride: int, count: nat) -> int
    decreases count,
{
    if count == 0 {
        0
    } else {
        let rest = strided_peak(mono, f0, stride, (count - 1) as nat);
        let m = magnitude(mono[f0 + (count - 1) * stride]);
        if m > rest {
            m
        } else {
            rest
        }
    }
}

/// The peak a drawn column shows from raw samples `f0..f1`: the greatest magnitude among
/// the samples read with [`sample_stride`], from `f0` on.
pub fn raw_column_peak(mono: &[i16], f0: usize, f1: usize) -> (peak: i32)
    requires
        f0 < f1 <= mono@.len(),
    ensures
        peak == strided_peak(
            mono@,
            f0 as int,
            sample_stride(f1 - f0),
            ((f1 - f0 + sample_stride(f1 - f0) - 1) / sample_stride(f1 - f0)) as nat,
        ),
{
    let span = f1 - f0;
    let stride: usize = if span > 4096 {
        if span / 1024 > 2 {
            span / 1024
        } else {
            2
        }
    } else {
        1
    };
    let mut abs_max: i32 = 0;
    let mut i: usize = f0;
    let ghost mut k: nat = 0;
    while i < f1
        invariant
            f0 < f1 <= mono@.len(),
            stride == sample_stride(span as int),
            span == f1 - f0,
            stride >= 1,
            i == f0 + k * stride || (i == f1 && f0 + k * stride >= f1),
            k == 0 || f0 + (k - 1) * stride < f1,
            abs_max == strided_peak(mono@, f0 as int, stride as int, k),
            0 <= abs_max <= 32768,
        decreases f1 - i,
    {
        let v = mono[i] as i32;
        let av = if v < 0 { -v } else { v };
        if av > abs_max {
            abs_max = av;
        }
        proof {
            assert(f0 + ((k + 1) - 1) * stride == i);
            k = k + 1;
        }
        if stride >= f1 - i {
            i = f1;
            proof {
                assert(f0 + k * stride >= f1) by (nonlinear_arith)
                    requires
                        i == f1,
                        f0 + (k - 1) * stride + stride >= f1,
                ;
            }
        } else {
            i = i + stride;
            proof {
                assert(i == f0 + k * stride) by (nonlinear_arith)
                    requires
                        i == f0 + (k - 1) * stride + stride,
                ;
            }
        }
    }
    proof {
        let c = (span + stride - 1) / (stride as int);
        assert(k == c) by (nonlinear_arith)
            requires
                k >= 1,
                f0 + (k - 1) * stride < f1,
                f0 + k * stride >= f1,
                span == f1 - f0,
                stride >= 1,
                c == (span + stride - 1) / (stride as int),
        ;
    }
    abs_max
}

} // verus!
