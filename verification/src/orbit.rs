//! Splitting a scan of samples among threads.

use crate::cell;
use crate::cell::Cell;
use crate::chunks;
use crate::common;
use crate::common::{
    gen_count_dispatch, gen_pass_dispatch, BinOverflow, GridParams, Selection,
};
use crate::outside;
use crate::prng;
use crate::prng::{Orbit, Prng};
use crate::sampling;
use crate::sampling::Shape;
use vstd::arithmetic::div_mod::*;
use vstd::arithmetic::power2::*;
use vstd::prelude::*;

verus! {

/// `s` never decreases, and does not exceed `limit`.
pub open spec fn boundaries_within(s: Seq<usize>, limit: nat) -> bool {
    &&& forall|i: int| 0 <= i < s.len() ==> #[trigger] s[i] <= limit
    &&& forall|i: int, j: int| 0 <= i < j < s.len() ==> #[trigger] s[i] <= #[trigger] s[j]
}

/// The state of the generator at sample `n` of the orbit from `start`.
pub open spec fn at_sample<P: Orbit>(start: P, t: usize, n: nat) -> P {
    prng::advance(start, n * t as nat)
}

/// Draws the `t` outputs of one sample and drops them.
fn pass_sample<P: Prng>(p: &mut P, t: usize)
    ensures
        *final(p) == prng::advance(*old(p), t as nat),
{
    let ghost p0 = *p;
    let mut i: usize = 0;
    while i < t
        invariant
            i <= t,
            *p == prng::advance(p0, i as nat),
        decreases t - i,
    {
        p.next_u64();
        i += 1;
    }
}

/// Sequentially walks `total_cells` samples of the orbit from `start` (each sample is exactly *t*
/// draws, in every mode), and takes a copy of the generator where the walk reaches each sample
/// number in `boundaries`.
///
/// Returns one snapshot per boundary and the state at the end, from which the next walk can go
/// on. Snapshot `i` is what a jump by `boundaries[i]` · *t* gives.
pub fn prescan_checkpoints<P: Prng>(
    start: P,
    t: usize,
    total_cells: usize,
    boundaries: &[usize],
) -> (r: (Vec<P>, P))
    requires
        boundaries_within(boundaries@, total_cells as nat),
    ensures
        r.0@.len() == boundaries@.len(),
        forall|i: int|
            0 <= i < boundaries@.len() ==> #[trigger] r.0@[i] == at_sample(
                start,
                t,
                boundaries@[i] as nat,
            ),
        r.1 == at_sample(start, t, total_cells as nat),
{
    let mut p = start;
    let mut snaps: Vec<P> = Vec::with_capacity(boundaries.len());
    let mut next: usize = 0;
    let mut cell: usize = 0;
    let mut going = true;
    assert(0 * t as nat == 0);
    while going
        invariant
            going ==> cell <= total_cells,
            !going ==> cell == total_cells && next == boundaries@.len(),
            next <= boundaries@.len(),
            boundaries_within(boundaries@, total_cells as nat),
            p == at_sample(start, t, cell as nat),
            snaps@.len() == next,
            forall|i: int|
                0 <= i < next ==> #[trigger] snaps@[i] == at_sample(
                    start,
                    t,
                    boundaries@[i] as nat,
                ),
            next < boundaries@.len() ==> cell <= boundaries@[next as int],
        decreases
                total_cells - cell + (if going {
                    1nat
                } else {
                    0nat
                }),
    {
        while next < boundaries.len() && boundaries[next] == cell
            invariant
                next <= boundaries@.len(),
                boundaries_within(boundaries@, total_cells as nat),
                p == at_sample(start, t, cell as nat),
                snaps@.len() == next,
                forall|i: int|
                    0 <= i < next ==> #[trigger] snaps@[i] == at_sample(
                        start,
                        t,
                        boundaries@[i] as nat,
                    ),
                next < boundaries@.len() ==> cell <= boundaries@[next as int],
            decreases boundaries@.len() - next,
        {
            snaps.push(p);
            next += 1;
        }
        if cell == total_cells {
            going = false;
        } else {
            pass_sample(&mut p, t);
            proof {
                prng::law_advance_adds(start, cell as nat * t as nat, t as nat);
                assert(cell as nat * t as nat + t as nat == (cell + 1) as nat * t as nat)
                    by (nonlinear_arith);
            }
            cell += 1;
        }
    }
    (snaps, p)
}

/// Where part `i` starts if the first `rem` parts have `base` + 1 elements, the others `base`.
pub open spec fn even_start(base: int, rem: int, i: int) -> int {
    i * base + (if i < rem {
        i
    } else {
        rem
    })
}

/// How many elements part `i` has.
pub open spec fn even_len(base: int, rem: int, i: int) -> int {
    base + (if i < rem {
        1int
    } else {
        0int
    })
}

/// `total` elements are split evenly into `count` parts.
pub open spec fn even_split(base: int, rem: int, count: int, total: int) -> bool {
    &&& 0 <= base
    &&& 0 <= rem < count
    &&& total == count * base + rem
}

/// The parts of an even split lie one after the other, from the first element to the last one.
pub proof fn law_even_split(base: int, rem: int, count: int, total: int, i: int)
    requires
        even_split(base, rem, count, total),
        0 <= i <= count,
    ensures
        even_start(base, rem, 0) == 0,
        i < count ==> even_start(base, rem, i) + even_len(base, rem, i) == even_start(
            base,
            rem,
            i + 1,
        ),
        even_start(base, rem, count) == total,
        0 <= even_start(base, rem, i) <= total,
        forall|j: int| 0 <= j <= i ==> #[trigger] even_start(base, rem, j) <= even_start(base, rem, i),
{
    assert((i + 1) * base == i * base + base) by (nonlinear_arith);
    assert(0 * base == 0);
    assert(0 <= i * base <= count * base) by (nonlinear_arith)
        requires
            0 <= i <= count,
            0 <= base,
    ;
    assert forall|j: int| 0 <= j <= i implies #[trigger] even_start(base, rem, j) <= even_start(
        base,
        rem,
        i,
    ) by {
        assert(j * base <= i * base) by (nonlinear_arith)
            requires
                0 <= j <= i,
                0 <= base,
        ;
    }
}

/// The start of part `i` of an even split.
pub(crate) fn part_start(
    base: usize,
    rem: usize,
    i: usize,
    Ghost(count): Ghost<int>,
    Ghost(total): Ghost<int>,
) -> (start: usize)
    requires
        even_split(base as int, rem as int, count, total),
        i <= count,
        total <= usize::MAX,
    ensures
        start == even_start(base as int, rem as int, i as int),
{
    proof {
        law_even_split(base as int, rem as int, count, total, i as int);
        assert(0 <= i * base) by (nonlinear_arith);
    }
    i * base + (if i < rem {
        i
    } else {
        rem
    })
}

/// A faithful partition of a scan of `scan_total` samples into `num_cpus` contiguous ranges.
/// The start of each range is reached by jumping where the generator can jump, and else by a
/// sequential walk ([`prescan_checkpoints`]) that goes on from one repetition to the next.
pub struct OrbitPartition<P: Prng> {
    pub num_cpus: usize,
    pub scan_total: usize,
    pub base_chunk: usize,
    pub rem: usize,
    pub t: usize,
    pub skip_capable: bool,
    pub seed: u64,
    /// Where the next walk starts; used only where the generator cannot jump.
    pub prescan_start: P,
}

impl<P: Prng> OrbitPartition<P> {
    /// The ranges have equal lengths but for one more sample in each of the first `rem`.
    pub open spec fn valid(self) -> bool {
        &&& even_split(
            self.base_chunk as int,
            self.rem as int,
            self.num_cpus as int,
            self.scan_total as int,
        )
        &&& self.skip_capable == P::can_skip()
    }

    /// The first sample of range `i`; for `num_cpus`, the end of the last one.
    pub open spec fn start_of(self, i: int) -> int {
        even_start(self.base_chunk as int, self.rem as int, i)
    }

    /// The number of samples of range `i`.
    pub open spec fn chunk_of(self, i: int) -> int {
        even_len(self.base_chunk as int, self.rem as int, i)
    }

    /// The walk, if there is one, has reached sample `n`.
    pub open spec fn walked_to(self, n: nat) -> bool {
        !P::can_skip() ==> self.prescan_start == at_sample(P::seeded(self.seed), self.t, n)
    }

    /// The same partition, but for how far it was walked.
    pub open spec fn same_partition(self, other: Self) -> bool {
        &&& self.num_cpus == other.num_cpus
        &&& self.scan_total == other.scan_total
        &&& self.base_chunk == other.base_chunk
        &&& self.rem == other.rem
        &&& self.t == other.t
        &&& self.seed == other.seed
    }

    /// A partition among `num_cpus` threads, or as many as there are samples.
    pub fn new(seed: u64, num_cpus: usize, scan_total: usize, t: usize) -> (r: Self)
        ensures
            r.valid(),
            r.num_cpus == (if num_cpus == 0 || scan_total == 0 {
                1
            } else if num_cpus < scan_total {
                num_cpus
            } else {
                scan_total
            }),
            r.scan_total == scan_total,
            r.t == t,
            r.seed == seed,
            r.walked_to(0),
    {
        let mut probe: P = P::new(seed);
        let skip_capable = match probe.try_skip(0) {
            Ok(()) => true,
            Err(()) => false,
        };
        let fewer: usize = if num_cpus < scan_total {
            num_cpus
        } else {
            scan_total
        };
        let cpus: usize = if fewer < 1 {
            1
        } else {
            fewer
        };
        proof {
            lemma_fundamental_div_mod(scan_total as int, cpus as int);
            assert(0 * t as nat == 0);
        }
        OrbitPartition {
            num_cpus: cpus,
            scan_total,
            base_chunk: scan_total / cpus,
            rem: scan_total % cpus,
            t,
            skip_capable,
            seed,
            prescan_start: P::new(seed),
        }
    }

    /// Where range `i` starts.
    pub fn start_sample(&self, i: usize) -> (start: usize)
        requires
            self.valid(),
            i <= self.num_cpus,
        ensures
            start == self.start_of(i as int),
            start <= self.scan_total,
    {
        proof {
            law_ranges_partition(*self, i as int);
        }
        part_start(
            self.base_chunk,
            self.rem,
            i,
            Ghost(self.num_cpus as int),
            Ghost(self.scan_total as int),
        )
    }

    /// How long range `i` is.
    pub fn chunk(&self, i: usize) -> (len: usize)
        requires
            self.valid(),
            i < self.num_cpus,
        ensures
            len == self.chunk_of(i as int),
    {
        proof {
            law_ranges_partition(*self, i as int);
            law_ranges_partition(*self, i + 1);
        }
        self.base_chunk + (if i < self.rem {
            1
        } else {
            0
        })
    }

    /// How the starts of the ranges are reached.
    pub fn split_desc(&self) -> (desc: &'static str)
        requires
            self.valid(),
        ensures
            desc@ == (if P::can_skip() {
                "jump-ahead"@
            } else {
                "pre-scan"@
            }),
    {
        if self.skip_capable {
            "jump-ahead"
        } else {
            "pre-scan"
        }
    }

    /// The states at the samples `base + boundaries[i]` of the orbit, `base` being where the walk
    /// is, if there is one, and `scan_len` how far it goes on.
    pub fn snapshots(
        &mut self,
        base: usize,
        scan_len: usize,
        boundaries: &[usize],
    ) -> (snaps: Vec<P>)
        requires
            old(self).valid(),
            old(self).walked_to(base as nat),
            boundaries_within(boundaries@, scan_len as nat),
            P::can_skip() ==> forall|i: int|
                0 <= i < boundaries@.len() ==> base + #[trigger] boundaries@[i] <= usize::MAX && (base
                    + boundaries@[i]) * old(self).t <= u64::MAX,
        ensures
            final(self).valid(),
            final(self).same_partition(*old(self)),
            final(self).walked_to((base + scan_len) as nat),
            snaps@.len() == boundaries@.len(),
            forall|i: int|
                0 <= i < boundaries@.len() ==> #[trigger] snaps@[i] == at_sample(
                    P::seeded(old(self).seed),
                    old(self).t,
                    (base + boundaries@[i]) as nat,
                ),
    {
        if self.skip_capable {
            let mut snaps: Vec<P> = Vec::with_capacity(boundaries.len());
            let mut i: usize = 0;
            while i < boundaries.len()
                invariant
                    i <= boundaries@.len(),
                    self.skip_capable,
                    self.valid(),
                    *self == *old(self),
                    forall|j: int|
                        0 <= j < boundaries@.len() ==> base + #[trigger] boundaries@[j]
                            <= usize::MAX && (base + boundaries@[j]) * self.t <= u64::MAX,
                    snaps@.len() == i,
                    forall|j: int|
                        0 <= j < i ==> #[trigger] snaps@[j] == at_sample(
                            P::seeded(self.seed),
                            self.t,
                            (base + boundaries@[j]) as nat,
                        ),
                decreases boundaries@.len() - i,
            {
                let b: usize = boundaries[i];
                let sample: u64 = (base + b) as u64;
                let off: u64 = sample * (self.t as u64);
                let mut p: P = P::new(self.seed);
                let jumped = p.try_skip(off);
                assert(jumped is Ok);
                snaps.push(p);
                i += 1;
            }
            snaps
        } else {
            let ghost start = P::seeded(self.seed);
            let (snaps, end) = prescan_checkpoints(
                self.prescan_start,
                self.t,
                scan_len,
                boundaries,
            );
            self.prescan_start = end;
            proof {
                let t = self.t;
                lemma_at_sample_adds(start, t, base as nat, scan_len as nat);
                assert forall|i: int| 0 <= i < boundaries@.len() implies #[trigger] snaps@[i]
                    == at_sample(start, t, (base + boundaries@[i]) as nat) by {
                    lemma_at_sample_adds(start, t, base as nat, boundaries@[i] as nat);
                }
            }
            snaps
        }
    }

    /// The states at the starts of the ranges in repetition `rep`, counted from 1.
    pub fn rep_snapshots(&mut self, rep: usize) -> (snaps: Vec<P>)
        requires
            old(self).valid(),
            rep >= 1,
            old(self).walked_to(((rep - 1) * old(self).scan_total) as nat),
            (rep - 1) * old(self).scan_total <= usize::MAX,
            P::can_skip() ==> {
                let last = (rep - 1) * old(self).scan_total + old(self).start_of(
                    old(self).num_cpus - 1,
                );
                last <= usize::MAX && last * old(self).t <= u64::MAX
            },
        ensures
            final(self).valid(),
            final(self).same_partition(*old(self)),
            final(self).walked_to((rep * old(self).scan_total) as nat),
            snaps@.len() == old(self).num_cpus,
            forall|i: int|
                0 <= i < old(self).num_cpus ==> #[trigger] snaps@[i] == at_sample(
                    P::seeded(old(self).seed),
                    old(self).t,
                    ((rep - 1) * old(self).scan_total + old(self).start_of(i)) as nat,
                ),
    {
        let mut boundaries: Vec<usize> = Vec::with_capacity(self.num_cpus);
        let mut i: usize = 0;
        while i < self.num_cpus
            invariant
                i <= self.num_cpus,
                self.valid(),
                *self == *old(self),
                boundaries@.len() == i,
                forall|j: int| 0 <= j < i ==> #[trigger] boundaries@[j] == self.start_of(j),
            decreases self.num_cpus - i,
        {
            boundaries.push(self.start_sample(i));
            i += 1;
        }
        let ghost m0 = *self;
        proof {
            assert forall|a: int, b: int| 0 <= a < b < boundaries@.len() implies #[trigger] boundaries@[a]
                <= #[trigger] boundaries@[b] by {
                lemma_starts_ascend(m0, a, b);
            }
            assert forall|a: int| 0 <= a < boundaries@.len() implies #[trigger] boundaries@[a]
                <= m0.scan_total by {
                lemma_starts_ascend(m0, a, m0.num_cpus as int);
                law_ranges_partition(m0, m0.num_cpus as int);
            }
            let base = (rep - 1) * m0.scan_total;
            if P::can_skip() {
                assert forall|a: int| 0 <= a < boundaries@.len() implies base
                    + #[trigger] boundaries@[a] <= usize::MAX && (base + boundaries@[a]) * m0.t
                    <= u64::MAX by {
                    lemma_starts_ascend(m0, a, m0.num_cpus - 1);
                    assert((base + boundaries@[a]) * m0.t <= (base + m0.start_of(m0.num_cpus - 1))
                        * m0.t) by (nonlinear_arith)
                        requires
                            base + boundaries@[a] <= base + m0.start_of(m0.num_cpus - 1),
                    ;
                }
            }
            assert((rep - 1) * m0.scan_total + m0.scan_total == rep * m0.scan_total)
                by (nonlinear_arith);
        }
        self.snapshots((rep - 1) * self.scan_total, self.scan_total, boundaries.as_slice())
    }
}

/// Going on for `n` samples from sample `m` reaches sample `m + n`.
pub proof fn lemma_at_sample_adds<P: Orbit>(start: P, t: usize, m: nat, n: nat)
    ensures
        at_sample(at_sample(start, t, m), t, n) == at_sample(start, t, m + n),
{
    prng::law_advance_adds(start, m * t as nat, n * t as nat);
    assert(m * t as nat + n * t as nat == (m + n) * t as nat) by (nonlinear_arith);
}

/// The ranges of a partition lie one after the other, from the first sample to the last one.
pub proof fn law_ranges_partition<P: Prng>(part: OrbitPartition<P>, i: int)
    requires
        part.valid(),
        0 <= i <= part.num_cpus,
    ensures
        part.start_of(0) == 0,
        i < part.num_cpus ==> part.start_of(i) + part.chunk_of(i) == part.start_of(i + 1),
        part.start_of(part.num_cpus as int) == part.scan_total,
        0 <= part.start_of(i) <= part.scan_total,
{
    law_even_split(
        part.base_chunk as int,
        part.rem as int,
        part.num_cpus as int,
        part.scan_total as int,
        i,
    );
}

/// Later ranges do not start earlier.
proof fn lemma_starts_ascend<P: Prng>(part: OrbitPartition<P>, i: int, j: int)
    requires
        part.valid(),
        0 <= i <= j <= part.num_cpus,
    ensures
        part.start_of(i) <= part.start_of(j),
{
    law_even_split(
        part.base_chunk as int,
        part.rem as int,
        part.num_cpus as int,
        part.scan_total as int,
        j,
    );
}

/// The sum of the first `k` of `lens`.
pub open spec fn sum_of(lens: Seq<usize>, k: nat) -> nat
    decreases k,
{
    if k == 0 {
        0
    } else {
        sum_of(lens, (k - 1) as nat) + lens[k - 1] as nat
    }
}

/// The points that the first `k` threads select, thread by thread.
pub open spec fn unit_points<P: Orbit>(
    snapshots: Seq<P>,
    lens: Seq<usize>,
    g: Shape,
    sel: Selection,
    k: nat,
) -> Seq<nat>
    decreases k,
{
    if k == 0 {
        Seq::empty()
    } else {
        unit_points(snapshots, lens, g, sel, (k - 1) as nat) + common::selected(
            snapshots[k - 1],
            g,
            lens[k - 1] as nat,
            sel,
        )
    }
}

/// Each thread starts where the previous one ends.
pub open spec fn contiguous<P: Orbit>(snapshots: Seq<P>, lens: Seq<usize>, g: Shape) -> bool {
    forall|i: int|
        0 <= i < snapshots.len() - 1 ==> snapshots[i + 1] == sampling::sample_start(
            #[trigger] snapshots[i],
            g,
            lens[i] as nat,
        )
}

/// Threads that scan contiguous ranges select, one after the other, the points that one scan of
/// all the ranges selects.
pub proof fn law_ranges_select_all<P: Orbit>(
    snapshots: Seq<P>,
    lens: Seq<usize>,
    g: Shape,
    sel: Selection,
    k: nat,
)
    requires
        1 <= k <= snapshots.len() == lens.len(),
        contiguous(snapshots, lens, g),
    ensures
        unit_points(snapshots, lens, g, sel, k) == common::selected(
            snapshots[0],
            g,
            sum_of(lens, k),
            sel,
        ),
        k < snapshots.len() ==> snapshots[k as int] == sampling::sample_start(
            snapshots[0],
            g,
            sum_of(lens, k),
        ),
    decreases k,
{
    let j = (k - 1) as nat;
    let p = snapshots[0];
    let n = sum_of(lens, j);
    if j == 0 {
        assert(unit_points(snapshots, lens, g, sel, 1) =~= common::selected(
            p,
            g,
            lens[0] as nat,
            sel,
        )) by {
            assert(unit_points(snapshots, lens, g, sel, 0) =~= Seq::<nat>::empty());
        }
        assert(sum_of(lens, 1) == lens[0]) by {
            assert(sum_of(lens, 0) == 0);
        }
        assert(snapshots[0 as int] == p);
    } else {
        law_ranges_select_all(snapshots, lens, g, sel, j);
        common::law_selected_concat(p, g, n, lens[j as int] as nat, sel);
        prng::law_advance_adds(p, n * g.t, lens[j as int] as nat * g.t);
        assert(n * g.t + lens[j as int] as nat * g.t == (n + lens[j as int] as nat) * g.t)
            by (nonlinear_arith);
    }
    if k < snapshots.len() {
        assert(snapshots[j as int + 1] == sampling::sample_start(
            snapshots[j as int],
            g,
            lens[j as int] as nat,
        ));
    }
}

/// The points of fewer threads are no more.
pub proof fn lemma_unit_points_grow<P: Orbit>(
    snapshots: Seq<P>,
    lens: Seq<usize>,
    g: Shape,
    sel: Selection,
    j: nat,
    k: nat,
)
    requires
        j <= k,
    ensures
        unit_points(snapshots, lens, g, sel, j).len() <= unit_points(
            snapshots,
            lens,
            g,
            sel,
            k,
        ).len(),
        unit_points(snapshots, lens, g, sel, k).len() <= sum_of(lens, k),
    decreases k,
{
    if k > 0 {
        common::lemma_selected_bound(snapshots[k - 1], g, lens[k - 1] as nat, sel);
        if j < k {
            lemma_unit_points_grow(snapshots, lens, g, sel, j, (k - 1) as nat);
        } else {
            lemma_unit_points_grow(snapshots, lens, g, sel, (j - 1) as nat, (k - 1) as nat);
        }
    }
}

/// Faithfully generates one work unit's points into a single contiguous buffer, by
/// count-then-fill: every thread first scans its samples to learn how many points it keeps (in
/// plain mode that is known), and then again to write them to a region of exactly that size.
///
/// The kept points end up contiguous in `buf[..total]`, and nothing is written past them; where
/// they do not fit, that is an error.
pub fn gen_unit_contiguous<T: Cell, P: Prng>(
    buf: &mut [T],
    snapshots: &[P],
    params: &GridParams,
    lens: &[usize],
    pass: u64,
    tradeoff_b: usize,
    decimating: bool,
    full: bool,
) -> (r: Result<usize, BinOverflow>)
    requires
        snapshots@.len() == lens@.len(),
        sum_of(lens@, lens@.len()) <= usize::MAX,
        params.fits::<T>(decimating),
        params.specialized(0, full),
        common::pass_exists(params.shape(decimating), tradeoff_b > 0, tradeoff_b, pass),
    ensures
        final(buf)@.len() == old(buf)@.len(),
        ({
            let points = unit_points(
                snapshots@,
                lens@,
                params.shape(decimating),
                common::selection(tradeoff_b > 0, tradeoff_b, pass),
                lens@.len(),
            );
            match r {
                Ok(total) => {
                    &&& total == points.len() <= old(buf)@.len()
                    &&& cell::vals(final(buf)@.take(total as int)) == points
                    &&& final(buf)@.skip(total as int) == old(buf)@.skip(total as int)
                },
                Err(e) => {
                    &&& e == BinOverflow::ParallelGenerationUnit
                    &&& points.len() > old(buf)@.len()
                    &&& final(buf)@ == old(buf)@
                },
            }
        }),
{
    let ghost g = params.shape(decimating);
    let ghost sel = common::selection(tradeoff_b > 0, tradeoff_b, pass);
    let ghost snaps = snapshots@;
    let ghost n = lens@.len();
    let numbers: Vec<usize> = chunks::indices(snapshots.len());

    let counts: Vec<usize> = if !decimating && tradeoff_b == 0 {
        proof {
            assert forall|i: int| 0 <= i < n implies #[trigger] lens@[i] == common::selected(
                snaps[i],
                g,
                lens@[i] as nat,
                sel,
            ).len() by {
                sampling::lemma_all_kept(snaps[i], g, lens@[i] as nat);
            }
        }
        vstd::slice::slice_to_vec(lens)
    } else {
        let count_one = |i: &usize| -> (count: usize)
            requires
                *i < snapshots@.len(),
            ensures
                count == common::selected(
                    snapshots@[*i as int],
                    params.shape(decimating),
                    lens@[*i as int] as nat,
                    common::selection(tradeoff_b > 0, tradeoff_b, pass),
                ).len(),
            {
                gen_count_dispatch::<T, P>(
                    snapshots[*i],
                    params,
                    lens[*i],
                    pass,
                    tradeoff_b,
                    decimating,
                    full,
                )
            };
        let counted: Vec<usize> = outside::par_map(numbers.as_slice(), count_one);
        proof {
            assert forall|i: int| 0 <= i < n implies #[trigger] counted@[i] == common::selected(
                snaps[i],
                g,
                lens@[i] as nat,
                sel,
            ).len() by {
                assert(numbers@[i] == i);
            }
        }
        counted
    };

    let mut total: usize = 0;
    let mut i: usize = 0;
    while i < counts.len()
        invariant
            i <= counts@.len() == n,
            n == lens@.len(),
            snaps.len() == n,
            sum_of(lens@, n) <= usize::MAX,
            forall|j: int|
                0 <= j < n ==> #[trigger] counts@[j] == common::selected(
                    snaps[j],
                    g,
                    lens@[j] as nat,
                    sel,
                ).len(),
            total == unit_points(snaps, lens@, g, sel, i as nat).len(),
        decreases counts@.len() - i,
    {
        proof {
            lemma_unit_points_grow(snaps, lens@, g, sel, (i + 1) as nat, n);
            assert(counts@[i as int] == common::selected(
                snaps[i as int],
                g,
                lens@[i as int] as nat,
                sel,
            ).len());
        }
        total += counts[i];
        i += 1;
    }
    if total > buf.len() {
        return Err(BinOverflow::ParallelGenerationUnit);
    }
    let fill_one = |i: &usize| -> (region: Vec<T>)
        requires
            *i < snapshots@.len(),
        ensures
            cell::vals(region@) == common::selected(
                snapshots@[*i as int],
                params.shape(decimating),
                lens@[*i as int] as nat,
                common::selection(tradeoff_b > 0, tradeoff_b, pass),
            ),
        {
            let mut region: Vec<T> = vec![T::zero(); counts[*i]];
            assert(counts@[*i as int] == common::selected(
                snapshots@[*i as int],
                params.shape(decimating),
                lens@[*i as int] as nat,
                common::selection(tradeoff_b > 0, tradeoff_b, pass),
            ).len());
            let filled = gen_pass_dispatch::<T, P>(
                snapshots[*i],
                params,
                region.as_mut_slice(),
                lens[*i],
                pass,
                tradeoff_b,
                decimating,
                full,
            );
            assert(filled is Ok);
            assert(region@.take(region@.len() as int) =~= region@);
            region
        };
    let regions: Vec<Vec<T>> = outside::par_map(numbers.as_slice(), fill_one);
    let mut at: usize = 0;
    let mut k: usize = 0;
    proof {
        assert forall|j: int| 0 <= j < n implies cell::vals((#[trigger] regions@[j])@)
            == common::selected(snaps[j], g, lens@[j] as nat, sel) by {
            assert(numbers@[j] == j);
        }
        assert(cell::vals(buf@.take(0)) =~= Seq::<nat>::empty());
    }
    while k < regions.len()
        invariant
            k <= regions@.len() == n,
            n == lens@.len(),
            snaps.len() == n,
            total == unit_points(snaps, lens@, g, sel, n).len(),
            total <= buf@.len(),
            buf@.len() == old(buf)@.len(),
            forall|j: int|
                0 <= j < n ==> cell::vals((#[trigger] regions@[j])@) == common::selected(
                    snaps[j],
                    g,
                    lens@[j] as nat,
                    sel,
                ),
            at == unit_points(snaps, lens@, g, sel, k as nat).len(),
            cell::vals(buf@.take(at as int)) == unit_points(snaps, lens@, g, sel, k as nat),
            common::untouched_past(old(buf)@, buf@, at - 1),
        decreases regions@.len() - k,
    {
        let ghost before = buf@;
        proof {
            lemma_unit_points_grow(snaps, lens@, g, sel, (k + 1) as nat, n);
            assert(cell::vals(regions@[k as int]@).len() == regions@[k as int]@.len());
        }
        copy_cells(&regions[k], buf, at);
        proof {
            let len = regions@[k as int]@.len();
            assert(cell::vals(buf@.take(at + len)) =~= cell::vals(before.take(at as int))
                + cell::vals(regions@[k as int]@));
        }
        at += regions[k].len();
        k += 1;
    }
    assert(buf@.skip(total as int) =~= old(buf)@.skip(total as int));
    Ok(total)
}

/// Writes `from` to the places of `to` that start at `at`.
fn copy_cells<T: Cell>(from: &Vec<T>, to: &mut [T], at: usize)
    requires
        at + from@.len() <= old(to)@.len(),
    ensures
        final(to)@.len() == old(to)@.len(),
        forall|k: int| 0 <= k < at ==> #[trigger] final(to)@[k] == old(to)@[k],
        forall|k: int| at <= k < at + from@.len() ==> #[trigger] final(to)@[k] == from@[k - at],
        common::untouched_past(old(to)@, final(to)@, at + from@.len() - 1),
{
    let ghost t0 = to@;
    assert(t0.len() == to.len());
    let mut i: usize = 0;
    while i < from.len()
        invariant
            i <= from@.len(),
            at + from@.len() <= t0.len() <= usize::MAX,
            to@.len() == t0.len(),
            forall|k: int| 0 <= k < at ==> #[trigger] to@[k] == t0[k],
            forall|k: int| at <= k < at + i ==> #[trigger] to@[k] == from@[k - at],
            common::untouched_past(t0, to@, at + i - 1),
        decreases from@.len() - i,
    {
        to[at + i] = from[i];
        i += 1;
    }
}

/// The parts of an even split are equally long but for one element more in the first ones.
pub proof fn law_even_split_is_even(base: int, rem: int, count: int, total: int, i: int, j: int)
    requires
        even_split(base, rem, count, total),
        0 <= i <= j < count,
    ensures
        even_len(base, rem, j) <= even_len(base, rem, i) <= even_len(base, rem, j) + 1,
        even_len(base, rem, j) * count <= total < (even_len(base, rem, j) + 1) * count
            || even_len(base, rem, j) == total / count + 1,
{
    assert(count * base == base * count) by (nonlinear_arith);
    lemma_fundamental_div_mod_converse(total, count, base, rem);
    assert((base + 1) * count == base * count + count) by (nonlinear_arith);
}

/// Sample `n` comes after the draws of the `n` samples before it.
pub proof fn law_at_sample<P: Orbit>(start: P, t: usize, n: nat)
    ensures
        at_sample(start, t, 0) == start,
        at_sample(start, t, n + 1) == prng::advance(at_sample(start, t, n), t as nat),
{
    assert(0 * t as nat == 0);
    prng::law_advance_adds(start, n * t as nat, t as nat);
    assert(n * t as nat + t as nat == (n + 1) * t as nat) by (nonlinear_arith);
}

/// The ranges of a partition are equally long but for one sample more in the first ones, and there
/// are as many as CPUs are asked for, but no more than samples and at least one.
pub proof fn law_partition_is_even<P: Prng>(
    seed: u64,
    num_cpus: usize,
    scan_total: usize,
    t: usize,
    part: OrbitPartition<P>,
    i: int,
    j: int,
)
    requires
        call_ensures(OrbitPartition::<P>::new, (seed, num_cpus, scan_total, t), part),
        0 <= i <= j < part.num_cpus,
    ensures
        part.num_cpus == num_cpus || part.num_cpus == scan_total || part.num_cpus == 1,
        num_cpus >= 1 && scan_total >= 1 ==> part.num_cpus <= num_cpus && part.num_cpus
            <= scan_total && (part.num_cpus == num_cpus || part.num_cpus == scan_total),
        part.start_of(0) == 0,
        part.start_of(i) + part.chunk_of(i) == part.start_of(i + 1),
        part.start_of(part.num_cpus as int) == scan_total,
        part.chunk_of(j) <= part.chunk_of(i) <= part.chunk_of(j) + 1,
        part.t == t,
        part.seed == seed,
{
    law_ranges_partition(part, i);
    law_even_split_is_even(
        part.base_chunk as int,
        part.rem as int,
        part.num_cpus as int,
        part.scan_total as int,
        i,
        j,
    );
}

/// What is asked of a partition is where its ranges start, and how long they are.
pub proof fn law_ranges_are_told<P: Prng>(
    part: &OrbitPartition<P>,
    i: usize,
    start: usize,
    len: usize,
)
    requires
        call_ensures(OrbitPartition::<P>::start_sample, (part, i), start),
        call_ensures(OrbitPartition::<P>::chunk, (part, i), len),
    ensures
        start == part.start_of(i as int),
        len == part.chunk_of(i as int),
{
}

/// In repetition `rep`, counted from 1, a range starts after the draws of all the repetitions
/// before and of the ranges before it, whether the generator jumps there or walks.
pub proof fn law_rep_snapshots<P: Prng>(
    part: &mut OrbitPartition<P>,
    rep: usize,
    snaps: Vec<P>,
    i: int,
)
    requires
        0 <= i < old(part).num_cpus,
        call_ensures(OrbitPartition::<P>::rep_snapshots, (part, rep), snaps),
    ensures
        snaps@.len() == old(part).num_cpus,
        snaps@[i] == prng::advance(
            P::seeded(old(part).seed),
            ((rep - 1) * old(part).scan_total + old(part).start_of(i)) as nat * old(part).t as nat,
        ),
{
    let snap = snaps@[i];
}

/// A walk takes its snapshots after the draws of the samples before each boundary.
pub proof fn law_prescan<P: Prng>(
    start: P,
    t: usize,
    total_cells: usize,
    boundaries: &[usize],
    r: (Vec<P>, P),
    i: int,
)
    requires
        0 <= i < boundaries@.len(),
        call_ensures(prescan_checkpoints::<P>, (start, t, total_cells, boundaries), r),
    ensures
        r.0@.len() == boundaries@.len(),
        r.0@[i] == prng::advance(start, boundaries@[i] as nat * t as nat),
        r.1 == prng::advance(start, total_cells as nat * t as nat),
{
    let snap = r.0@[i];
}

/// Threads that scan contiguous ranges generate together the points that one scan of all the ranges
/// selects, in its order; they fail if and only if there are more of them than places.
pub proof fn law_gen_unit_contiguous<T: Cell, P: Prng>(
    buf: &mut [T],
    snapshots: &[P],
    params: &GridParams,
    lens: &[usize],
    pass: u64,
    tradeoff_b: usize,
    decimating: bool,
    full: bool,
    r: Result<usize, BinOverflow>,
    g: Shape,
    n: nat,
)
    requires
        params.d < params.u,
        g == (Shape {
            u: params.u as nat,
            t: params.t as nat,
            s: params.s as nat,
            d: if decimating {
                params.d as nat
            } else {
                0
            },
        }),
        tradeoff_b <= g.t * (g.u - g.d),
        snapshots@.len() == lens@.len() > 0,
        contiguous(snapshots@, lens@, g),
        n == sum_of(lens@, lens@.len()),
        call_ensures(
            gen_unit_contiguous::<T, P>,
            (buf, snapshots, params, lens, pass, tradeoff_b, decimating, full),
            r,
        ),
    ensures
        ({
            let all = sampling::kept(snapshots@[0], g, n);
            let width = pow2((g.t * (g.u - g.d) - tradeoff_b) as nat);
            let points = if tradeoff_b > 0 {
                all.filter(|x: nat| pass * width <= x && x < (pass + 1) * width)
            } else {
                all
            };
            match r {
                Ok(total) => {
                    &&& total == points.len() <= old(buf)@.len()
                    &&& cell::vals(final(buf)@.take(total as int)) == points
                    &&& final(buf)@.skip(total as int) == old(buf)@.skip(total as int)
                },
                Err(e) => points.len() > old(buf)@.len() && final(buf)@ == old(buf)@,
            }
        }),
{
    assert(g == params.shape(decimating));
    let sel = common::selection(tradeoff_b > 0, tradeoff_b, pass);
    law_ranges_select_all(snapshots@, lens@, g, sel, lens@.len());
    common::law_pass_keeps_its_interval(snapshots@[0], g, n, tradeoff_b, pass);
}

/// The sum of some lengths grows by the next one.
pub proof fn law_sum_of(lens: Seq<usize>, k: nat)
    requires
        k < lens.len(),
    ensures
        sum_of(lens, 0) == 0,
        sum_of(lens, k + 1) == sum_of(lens, k) + lens[k as int],
{
}

/// Each thread starts where the one before it ends if and only if that many draws lie between them.
pub proof fn law_contiguous<P: Orbit>(snapshots: Seq<P>, lens: Seq<usize>, g: Shape, i: int)
    requires
        contiguous(snapshots, lens, g),
        0 <= i < snapshots.len() - 1,
    ensures
        snapshots[i + 1] == prng::advance(snapshots[i], lens[i] as nat * g.t),
{
}

} // verus!
