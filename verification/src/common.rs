//! What the collision and birthday-spacings tests share: the grid of cells, and the scans of
//! samples.

use crate::cell;
use crate::cell::{Cell, Value};
use crate::counting;
use crate::prng;
use crate::prng::{Orbit, Prng};
use crate::sampling;
use crate::sampling::{cell_index, decimate_candidate, decimate_once, Shape};
use crate::text;
use vstd::arithmetic::div_mod::*;
use vstd::arithmetic::power2::*;
use vstd::prelude::*;

verus! {

broadcast use {vstd::multiset::group_multiset_axioms, vstd::seq_lib::group_to_multiset_ensures};

/// A number of cells, from 1 to 2^128.
#[derive(Clone, Copy)]
pub struct CellCount {
    /// The greatest cell index, which fits 128 bits where the count itself may not.
    pub last: u128,
}

impl View for CellCount {
    type V = nat;

    open spec fn view(&self) -> nat {
        self.last as nat + 1
    }
}

impl CellCount {
    /// 2^`bits` cells.
    pub fn power_of_two(bits: usize) -> (cells: CellCount)
        requires
            bits <= 128,
        ensures
            cells@ == pow2(bits as nat),
    {
        proof {
            cell::lemma_pow2_128();
            lemma_pow2_pos(bits as nat);
        }
        if bits == 128 {
            CellCount { last: u128::MAX }
        } else {
            let k: u128 = bits as u128;
            proof {
                lemma_pow2_strictly_increases(bits as nat, 128);
                cell::lemma_u128_shl_is_mul(1, k);
            }
            CellCount { last: (1u128 << k) - 1 }
        }
    }

    /// `n` cells.
    pub fn from_u128(n: u128) -> (cells: CellCount)
        requires
            n >= 1,
        ensures
            cells@ == n,
    {
        CellCount { last: n - 1 }
    }

    /// The number in decimal.
    pub fn decimal(&self) -> (s: String)
        ensures
            s@ == text::decimal_of(self@),
    {
        text::decimal_after(self.last)
    }
}

/// The bin that received more points than its buffer holds.
///
/// Buffers have so much headroom that this does not happen with a uniform generator.
#[derive(Clone, Copy, PartialEq, Eq, Structural, Debug)]
pub enum BinOverflow {
    CollisionTradeoffPass,
    DecimatedCollisionRun,
    DecimationCheckpointStage,
    DecimationCheckpointAccumulator,
    DecimatedBirthdayRun,
    BirthdayValueInterval,
    BirthdaySpacingsClass,
    ParallelGenerationUnit,
    ParallelDecimationChunk,
    TradeoffBin,
    CheckpointAccumulator,
}

impl BinOverflow {
    /// What overflowed, in words.
    pub open spec fn text(self) -> Seq<char> {
        match self {
            BinOverflow::CollisionTradeoffPass => "a collision tradeoff pass"@,
            BinOverflow::DecimatedCollisionRun => "a decimated collision run"@,
            BinOverflow::DecimationCheckpointStage => "a decimation checkpoint stage"@,
            BinOverflow::DecimationCheckpointAccumulator =>
                "the decimation checkpoint accumulator"@,
            BinOverflow::DecimatedBirthdayRun => "a decimated birthday run"@,
            BinOverflow::BirthdayValueInterval => "a birthday value interval"@,
            BinOverflow::BirthdaySpacingsClass => "a birthday-spacings class"@,
            BinOverflow::ParallelGenerationUnit => "a parallel generation unit"@,
            BinOverflow::ParallelDecimationChunk => "a parallel decimation chunk"@,
            BinOverflow::TradeoffBin => "a tradeoff bin"@,
            BinOverflow::CheckpointAccumulator => "the checkpoint accumulator"@,
        }
    }

    /// What overflowed, in words.
    pub fn what(self) -> (s: &'static str)
        ensures
            s@ == self.text(),
    {
        match self {
            BinOverflow::CollisionTradeoffPass => "a collision tradeoff pass",
            BinOverflow::DecimatedCollisionRun => "a decimated collision run",
            BinOverflow::DecimationCheckpointStage => "a decimation checkpoint stage",
            BinOverflow::DecimationCheckpointAccumulator => "the decimation checkpoint accumulator",
            BinOverflow::DecimatedBirthdayRun => "a decimated birthday run",
            BinOverflow::BirthdayValueInterval => "a birthday value interval",
            BinOverflow::BirthdaySpacingsClass => "a birthday-spacings class",
            BinOverflow::ParallelGenerationUnit => "a parallel generation unit",
            BinOverflow::ParallelDecimationChunk => "a parallel decimation chunk",
            BinOverflow::TradeoffBin => "a tradeoff bin",
            BinOverflow::CheckpointAccumulator => "the checkpoint accumulator",
        }
    }
}

/// Geometric parameters of a test grid.
#[derive(Clone, Copy)]
pub struct GridParams<'a> {
    /// log2 of the number of subdivisions per dimension (the *u* value).
    pub u: usize,
    /// Number of dimensions.
    pub t: usize,
    /// Left shift applied to each generator output before extracting cell bits.
    pub s: usize,
    /// Decimation bits: low *d* bits of each element forced to zero (0 = none).
    pub d: usize,
    /// Total cell count; needed by the birthday-spacings wrap-around.
    pub cells: &'a CellCount,
}

impl GridParams<'_> {
    /// How samples are made, with or without decimation.
    pub open spec fn shape(self, decimate: bool) -> Shape {
        Shape {
            u: self.u as nat,
            t: self.t as nat,
            s: self.s as nat,
            d: if decimate {
                self.d as nat
            } else {
                0
            },
        }
    }

    /// The parameters describe a grid.
    pub open spec fn valid(self) -> bool {
        &&& self.t >= 1
        &&& self.d < self.u
        &&& self.u + self.s <= 64
    }

    /// The parameters describe a grid whose cell indices fit `T`.
    pub open spec fn fits<T: Value>(self, decimate: bool) -> bool {
        &&& self.valid()
        &&& self.shape(decimate).index_bits() <= T::bits()
    }

    /// The compile-time parameters of a scan agree with the grid.
    pub open spec fn specialized(self, dim: usize, full: bool) -> bool {
        &&& dim == 0 || dim == self.t
        &&& full ==> self.u == 64 && self.s == 0
    }

    /// The cell index of the next sample.
    pub fn draw<T: Cell, P: Prng, const DIM: usize, const FULL: bool>(&self, prng: &mut P) -> (x: T)
        requires
            self.fits::<T>(false),
            self.specialized(DIM, FULL),
        ensures
            x.val() == sampling::index(*old(prng), self.shape(false), self.t as nat),
            *final(prng) == prng::advance(*old(prng), self.t as nat),
    {
        cell_index::<T, P, DIM, FULL>(prng, self.t, self.u, self.s)
    }

    /// One decimating attempt (exactly *t* draws): the compacted dense index of the sample where it
    /// is accepted, `None` where it is rejected.
    pub fn draw_decimate_once<T: Cell, P: Prng, const DIM: usize, const FULL: bool>(
        &self,
        prng: &mut P,
    ) -> (r: Option<T>)
        requires
            self.fits::<T>(true),
            self.specialized(DIM, FULL),
        ensures
            r is Some <==> sampling::accepted(*old(prng), self.shape(true), self.t as nat),
            r is Some ==> r->0.val() == sampling::index(
                *old(prng),
                self.shape(true),
                self.t as nat,
            ),
            *final(prng) == prng::advance(*old(prng), self.t as nat),
    {
        decimate_once::<T, P, DIM, FULL>(prng, self.t, self.u, self.s, self.d)
    }

    /// One candidate sample (exactly *t* draws) with a *keep* flag: with `DECIMATE` the flag is the
    /// decimation acceptance, otherwise it is always true.
    pub fn draw_candidate<
        T: Cell,
        P: Prng,
        const DIM: usize,
        const DECIMATE: bool,
        const FULL: bool,
    >(&self, prng: &mut P) -> (r: (T, bool))
        requires
            self.fits::<T>(DECIMATE),
            self.specialized(DIM, FULL),
        ensures
            r.0.val() == sampling::index(*old(prng), self.shape(DECIMATE), self.t as nat),
            r.1 == sampling::accepted(*old(prng), self.shape(DECIMATE), self.t as nat),
            *final(prng) == prng::advance(*old(prng), self.t as nat),
    {
        if DECIMATE {
            decimate_candidate::<T, P, DIM, FULL>(prng, self.t, self.u, self.s, self.d)
        } else {
            proof {
                sampling::lemma_all_accepted(*prng, self.shape(false), self.t as nat);
            }
            (cell_index::<T, P, DIM, FULL>(prng, self.t, self.u, self.s), true)
        }
    }
}

/// The samples of a scan: `points` times 2^(*t* · *d*), or `None` where that overflows.
pub fn scan_samples(points: usize, t: usize, d: usize) -> (r: Option<usize>)
    ensures
        r is Some <==> points * pow2((t * d) as nat) <= usize::MAX && t * d < usize::BITS,
        r is Some ==> r->0 == points * pow2((t * d) as nat),
{
    match t.checked_mul(d) {
        None => None,
        Some(bits) => {
            if bits >= usize::BITS as usize {
                None
            } else {
                proof {
                    vstd::bits::lemma_usize_pow2_no_overflow(bits as nat);
                    vstd::bits::lemma_usize_shl_is_mul(1, bits);
                }
                points.checked_mul(1usize << bits)
            }
        },
    }
}

/// Which points of a scan a pass keeps: all, or those in one of the 2^*b* intervals of cell
/// indices that have the same top *b* bits.
pub enum Selection {
    All,
    Interval { b: nat, k: nat },
}

/// The top `b` bits of a cell index.
pub open spec fn interval_of(g: Shape, b: nat) -> spec_fn(nat) -> nat {
    |x: nat| x / pow2((g.index_bits() - b) as nat)
}

/// The points that a pass keeps of the first `n` samples from `p`, in the order of the scan.
pub open spec fn selected<P: Orbit>(p: P, g: Shape, n: nat, sel: Selection) -> Seq<nat> {
    match sel {
        Selection::All => sampling::kept(p, g, n),
        Selection::Interval { b, k } => sampling::kept(p, g, n).filter(
            counting::has_key(interval_of(g, b), k),
        ),
    }
}

/// What a pass with the given parameters selects.
pub open spec fn selection(tradeoff: bool, b: usize, pass: u64) -> Selection {
    if tradeoff {
        Selection::Interval { b: b as nat, k: pass as nat }
    } else {
        Selection::All
    }
}

/// The interval exists.
pub open spec fn pass_exists(g: Shape, tradeoff: bool, b: usize, pass: u64) -> bool {
    tradeoff ==> 1 <= b <= g.index_bits() && pass < pow2(b as nat)
}

/// One more sample adds at most one point.
proof fn lemma_selected_step<P: Orbit>(p: P, g: Shape, n: nat, sel: Selection)
    ensures
        ({
            let start = sampling::sample_start(p, g, n);
            let x = sampling::index(start, g, g.t);
            let keep = sampling::accepted(start, g, g.t) && match sel {
                Selection::All => true,
                Selection::Interval { b, k } => interval_of(g, b)(x) == k,
            };
            selected(p, g, n + 1, sel) == if keep {
                selected(p, g, n, sel).push(x)
            } else {
                selected(p, g, n, sel)
            }
        }),
{
    let start = sampling::sample_start(p, g, n);
    let x = sampling::index(start, g, g.t);
    match sel {
        Selection::All => {},
        Selection::Interval { b, k } => {
            sampling::kept(p, g, n).lemma_filter_push(x, counting::has_key(interval_of(g, b), k));
        },
    }
}

/// The next candidate of a scan, and whether the pass keeps it.
fn draw_selected<
    T: Cell,
    P: Prng,
    const DIM: usize,
    const DECIMATE: bool,
    const FULL: bool,
    const TRADEOFF: bool,
>(
    prng: &mut P,
    params: &GridParams,
    key_shift: usize,
    target: T,
    Ghost(p): Ghost<P>,
    Ghost(n): Ghost<nat>,
    Ghost(sel): Ghost<Selection>,
) -> (r: (T, bool))
    requires
        params.fits::<T>(DECIMATE),
        params.specialized(DIM, FULL),
        *old(prng) == sampling::sample_start(p, params.shape(DECIMATE), n),
        TRADEOFF <==> sel is Interval,
        sel matches Selection::Interval { b, k } ==> {
            &&& 1 <= b <= params.shape(DECIMATE).index_bits()
            &&& key_shift == params.shape(DECIMATE).index_bits() - b
            &&& target.val() == k
        },
    ensures
        *final(prng) == sampling::sample_start(p, params.shape(DECIMATE), n + 1),
        selected(p, params.shape(DECIMATE), n + 1, sel) == if r.1 {
            selected(p, params.shape(DECIMATE), n, sel).push(r.0.val())
        } else {
            selected(p, params.shape(DECIMATE), n, sel)
        },
{
    let ghost g = params.shape(DECIMATE);
    proof {
        lemma_selected_step(p, g, n, sel);
        prng::law_advance_adds(p, n * g.t, g.t);
        assert(n * g.t + g.t == (n + 1) * g.t) by (nonlinear_arith);
    }
    let (x, accepted) = params.draw_candidate::<T, P, DIM, DECIMATE, FULL>(prng);
    if TRADEOFF {
        let keep = accepted && x.high_bits(key_shift).equals(target);
        (x, keep)
    } else {
        (x, accepted)
    }
}

/// How far the top bits that select a pass are shifted down.
fn pass_key_shift(params: &GridParams, decimate: bool, tradeoff: bool, b: usize) -> (shift: usize)
    requires
        params.valid(),
        params.shape(decimate).index_bits() <= 128,
        tradeoff ==> 1 <= b <= params.shape(decimate).index_bits(),
    ensures
        tradeoff ==> shift == params.shape(decimate).index_bits() - b,
{
    let width: usize = if decimate {
        params.u - params.d
    } else {
        params.u
    };
    if tradeoff {
        assert(params.t * width == params.shape(decimate).index_bits());
        params.t * width - b
    } else {
        0
    }
}

/// Behind place `k` nothing has changed.
pub open spec fn untouched_past<T>(before: Seq<T>, after: Seq<T>, k: int) -> bool {
    forall|i: int| k < i < before.len() ==> #[trigger] after[i] == before[i]
}

/// The samples that are scanned before the room that is left is looked at again.
const SCAN_BLOCK: usize = 4096;

/// Candidate scan shared by every generate loop: draws `scan_len` candidate samples (exactly *t*
/// draws each), keeping the decimation survivors and, when `TRADEOFF`, only those whose top *b*
/// bits equal `pass`. What is kept is written densely to the front of `buf`, and its count is
/// returned; `prng` is advanced in place by exactly `scan_len` samples.
///
/// The scan runs in blocks: where a whole block fits the room that is left in `buf`, every
/// candidate is stored at the cursor and the cursor advances only past those that are kept;
/// otherwise only the kept ones are stored, and the first one that finds no room ends the scan
/// with an overflow.
pub fn scan_keep<
    T: Cell,
    P: Prng,
    const DIM: usize,
    const DECIMATE: bool,
    const FULL: bool,
    const TRADEOFF: bool,
>(
    prng: &mut P,
    params: &GridParams,
    buf: &mut [T],
    scan_len: usize,
    pass: u64,
    tradeoff_b: usize,
    overflow: BinOverflow,
) -> (r: Result<usize, BinOverflow>)
    requires
        params.fits::<T>(DECIMATE),
        params.specialized(DIM, FULL),
        pass_exists(params.shape(DECIMATE), TRADEOFF, tradeoff_b, pass),
    ensures
        final(buf)@.len() == old(buf)@.len(),
        ({
            let g = params.shape(DECIMATE);
            let points = selected(
                *old(prng),
                g,
                scan_len as nat,
                selection(TRADEOFF, tradeoff_b, pass),
            );
            match r {
                Ok(len) => {
                    &&& len == points.len() <= old(buf)@.len()
                    &&& cell::vals(final(buf)@.take(len as int)) == points
                    &&& untouched_past(old(buf)@, final(buf)@, len as int)
                    &&& *final(prng) == sampling::sample_start(*old(prng), g, scan_len as nat)
                },
                Err(e) => {
                    &&& e == overflow
                    &&& points.len() > old(buf)@.len()
                    &&& exists|m: nat|
                        m <= scan_len && *final(prng) == #[trigger] sampling::sample_start(
                            *old(prng),
                            g,
                            m,
                        )
                },
            }
        }),
{
    let ghost p = *prng;
    let ghost g = params.shape(DECIMATE);
    let ghost sel = selection(TRADEOFF, tradeoff_b, pass);
    proof {
        T::lemma_bits();
        if TRADEOFF {
            lemma_pass_fits(tradeoff_b as nat, T::bits());
        } else {
            lemma_pow2_pos(T::bits());
        }
    }
    let key_shift: usize = pass_key_shift(params, DECIMATE, TRADEOFF, tradeoff_b);
    let target: T = if TRADEOFF {
        T::from_u64(pass)
    } else {
        T::zero()
    };
    let cap: usize = buf.len();
    let mut len: usize = 0;
    let mut scanned: usize = 0;
    assert(0 * g.t == 0);
    assert(cell::vals(buf@.take(0)) =~= selected(p, g, 0, sel)) by {
        reveal(Seq::filter);
    }
    while scanned < scan_len
        invariant
            scanned <= scan_len,
            cap == buf@.len(),
            len <= cap,
            g == params.shape(DECIMATE),
            sel == selection(TRADEOFF, tradeoff_b, pass),
            params.fits::<T>(DECIMATE),
            params.specialized(DIM, FULL),
            pass_exists(g, TRADEOFF, tradeoff_b, pass),
            TRADEOFF ==> key_shift == g.index_bits() - tradeoff_b && target.val() == pass,
            buf@.len() == old(buf)@.len(),
            p == *old(prng),
            *prng == sampling::sample_start(p, g, scanned as nat),
            cell::vals(buf@.take(len as int)) == selected(p, g, scanned as nat, sel),
            untouched_past(old(buf)@, buf@, len as int),
        decreases scan_len - scanned,
    {
        let block: usize = if scan_len - scanned < SCAN_BLOCK {
            scan_len - scanned
        } else {
            SCAN_BLOCK
        };
        let end: usize = scanned + block;
        let fast = block <= cap - len;
        while scanned < end
            invariant
                scanned <= end <= scan_len,
                cap == buf@.len(),
                len <= cap,
                fast ==> end - scanned <= cap - len,
                g == params.shape(DECIMATE),
                sel == selection(TRADEOFF, tradeoff_b, pass),
                params.fits::<T>(DECIMATE),
                params.specialized(DIM, FULL),
                pass_exists(g, TRADEOFF, tradeoff_b, pass),
                TRADEOFF ==> key_shift == g.index_bits() - tradeoff_b && target.val() == pass,
                buf@.len() == old(buf)@.len(),
                p == *old(prng),
                *prng == sampling::sample_start(p, g, scanned as nat),
                cell::vals(buf@.take(len as int)) == selected(p, g, scanned as nat, sel),
                untouched_past(old(buf)@, buf@, len as int),
            decreases end - scanned,
        {
            let ghost before = buf@;
            let (x, keep) = draw_selected::<T, P, DIM, DECIMATE, FULL, TRADEOFF>(
                prng,
                params,
                key_shift,
                target,
                Ghost(p),
                Ghost(scanned as nat),
                Ghost(sel),
            );
            if fast {
                buf[len] = x;
                assert(buf@.take(len as int) =~= before.take(len as int));
                if keep {
                    assert(cell::vals(buf@.take(len + 1)) =~= cell::vals(
                        before.take(len as int),
                    ).push(x.val()));
                    len += 1;
                }
            } else if keep {
                if len >= cap {
                    proof {
                        lemma_selected_monotone(p, g, (scanned + 1) as nat, scan_len as nat, sel);
                        assert(*prng == sampling::sample_start(p, g, (scanned + 1) as nat));
                    }
                    return Err(overflow);
                }
                buf[len] = x;
                assert(cell::vals(buf@.take(len + 1)) =~= cell::vals(before.take(len as int)).push(
                    x.val(),
                ));
                len += 1;
            }
            scanned += 1;
        }
    }
    Ok(len)
}

/// [`scan_keep`] for a buffer that is the caller's: nothing but what is kept is ever stored, so
/// that behind it the buffer stays as it was.
pub fn scan_store<
    T: Cell,
    P: Prng,
    const DIM: usize,
    const DECIMATE: bool,
    const FULL: bool,
    const TRADEOFF: bool,
>(
    prng: &mut P,
    params: &GridParams,
    buf: &mut [T],
    scan_len: usize,
    pass: u64,
    tradeoff_b: usize,
    overflow: BinOverflow,
) -> (r: Result<usize, BinOverflow>)
    requires
        params.fits::<T>(DECIMATE),
        params.specialized(DIM, FULL),
        pass_exists(params.shape(DECIMATE), TRADEOFF, tradeoff_b, pass),
    ensures
        final(buf)@.len() == old(buf)@.len(),
        ({
            let g = params.shape(DECIMATE);
            let points = selected(
                *old(prng),
                g,
                scan_len as nat,
                selection(TRADEOFF, tradeoff_b, pass),
            );
            match r {
                Ok(len) => {
                    &&& len == points.len() <= old(buf)@.len()
                    &&& cell::vals(final(buf)@.take(len as int)) == points
                    &&& final(buf)@.skip(len as int) == old(buf)@.skip(len as int)
                    &&& *final(prng) == sampling::sample_start(*old(prng), g, scan_len as nat)
                },
                Err(e) => {
                    &&& e == overflow
                    &&& points.len() > old(buf)@.len()
                    &&& exists|m: nat|
                        m <= scan_len && *final(prng) == #[trigger] sampling::sample_start(
                            *old(prng),
                            g,
                            m,
                        )
                },
            }
        }),
{
    let ghost p = *prng;
    let ghost g = params.shape(DECIMATE);
    let ghost sel = selection(TRADEOFF, tradeoff_b, pass);
    proof {
        T::lemma_bits();
        if TRADEOFF {
            lemma_pass_fits(tradeoff_b as nat, T::bits());
        } else {
            lemma_pow2_pos(T::bits());
        }
    }
    let key_shift: usize = pass_key_shift(params, DECIMATE, TRADEOFF, tradeoff_b);
    let target: T = if TRADEOFF {
        T::from_u64(pass)
    } else {
        T::zero()
    };
    let mut len: usize = 0;
    let mut scanned: usize = 0;
    assert(0 * g.t == 0);
    assert(cell::vals(buf@.take(0)) =~= selected(p, g, 0, sel)) by {
        reveal(Seq::filter);
    }
    while scanned < scan_len
        invariant
            scanned <= scan_len,
            len <= buf@.len(),
            g == params.shape(DECIMATE),
            sel == selection(TRADEOFF, tradeoff_b, pass),
            params.fits::<T>(DECIMATE),
            params.specialized(DIM, FULL),
            pass_exists(g, TRADEOFF, tradeoff_b, pass),
            TRADEOFF ==> key_shift == g.index_bits() - tradeoff_b && target.val() == pass,
            buf@.len() == old(buf)@.len(),
            p == *old(prng),
            *prng == sampling::sample_start(p, g, scanned as nat),
            cell::vals(buf@.take(len as int)) == selected(p, g, scanned as nat, sel),
            untouched_past(old(buf)@, buf@, len - 1),
        decreases scan_len - scanned,
    {
        let ghost before = buf@;
        let (x, keep) = draw_selected::<T, P, DIM, DECIMATE, FULL, TRADEOFF>(
            prng,
            params,
            key_shift,
            target,
            Ghost(p),
            Ghost(scanned as nat),
            Ghost(sel),
        );
        if keep {
            if len >= buf.len() {
                proof {
                    lemma_selected_monotone(p, g, (scanned + 1) as nat, scan_len as nat, sel);
                    assert(*prng == sampling::sample_start(p, g, (scanned + 1) as nat));
                }
                return Err(overflow);
            }
            buf[len] = x;
            assert(cell::vals(buf@.take(len + 1)) =~= cell::vals(before.take(len as int)).push(
                x.val(),
            ));
            len += 1;
        }
        scanned += 1;
    }
    assert(buf@.skip(len as int) =~= old(buf)@.skip(len as int));
    Ok(len)
}

/// The number of a pass fits the storage type.
proof fn lemma_pass_fits(b: nat, bits: nat)
    requires
        b <= bits,
    ensures
        pow2(b) <= pow2(bits),
{
    if b < bits {
        lemma_pow2_strictly_increases(b, bits);
    }
}

/// A longer scan keeps no fewer points.
proof fn lemma_selected_monotone<P: Orbit>(p: P, g: Shape, m: nat, n: nat, sel: Selection)
    requires
        m <= n,
    ensures
        selected(p, g, m, sel).len() <= selected(p, g, n, sel).len(),
    decreases n - m,
{
    if m < n {
        lemma_selected_monotone(p, g, m, (n - 1) as nat, sel);
        lemma_selected_step(p, g, (n - 1) as nat, sel);
    }
}

/// No more points are selected than samples are scanned.
pub proof fn lemma_selected_bound<P: Orbit>(p: P, g: Shape, n: nat, sel: Selection)
    ensures
        selected(p, g, n, sel).len() <= n,
    decreases n,
{
    if n > 0 {
        lemma_selected_bound(p, g, (n - 1) as nat, sel);
        lemma_selected_step(p, g, (n - 1) as nat, sel);
    } else {
        reveal(Seq::filter);
    }
}

/// Store-free twin of [`scan_keep`]: scans the same samples and returns only how many are kept.
pub fn scan_count<
    T: Cell,
    P: Prng,
    const DIM: usize,
    const DECIMATE: bool,
    const FULL: bool,
    const TRADEOFF: bool,
>(prng: P, params: &GridParams, scan_len: usize, pass: u64, tradeoff_b: usize) -> (count: usize)
    requires
        params.fits::<T>(DECIMATE),
        params.specialized(DIM, FULL),
        pass_exists(params.shape(DECIMATE), TRADEOFF, tradeoff_b, pass),
    ensures
        count == selected(
            prng,
            params.shape(DECIMATE),
            scan_len as nat,
            selection(TRADEOFF, tradeoff_b, pass),
        ).len(),
{
    let ghost p = prng;
    let ghost g = params.shape(DECIMATE);
    let ghost sel = selection(TRADEOFF, tradeoff_b, pass);
    proof {
        T::lemma_bits();
        if TRADEOFF {
            lemma_pass_fits(tradeoff_b as nat, T::bits());
        }
        reveal(Seq::filter);
    }
    let key_shift: usize = pass_key_shift(params, DECIMATE, TRADEOFF, tradeoff_b);
    let target: T = if TRADEOFF {
        T::from_u64(pass)
    } else {
        T::zero()
    };
    let mut local = prng;
    let mut count: usize = 0;
    let mut scanned: usize = 0;
    assert(0 * g.t == 0);
    while scanned < scan_len
        invariant
            scanned <= scan_len,
            count <= scanned,
            g == params.shape(DECIMATE),
            sel == selection(TRADEOFF, tradeoff_b, pass),
            params.fits::<T>(DECIMATE),
            params.specialized(DIM, FULL),
            pass_exists(g, TRADEOFF, tradeoff_b, pass),
            TRADEOFF ==> key_shift == g.index_bits() - tradeoff_b && target.val() == pass,
            local == sampling::sample_start(p, g, scanned as nat),
            count == selected(p, g, scanned as nat, sel).len(),
        decreases scan_len - scanned,
    {
        let (_, keep) = draw_selected::<T, P, DIM, DECIMATE, FULL, TRADEOFF>(
            &mut local,
            params,
            key_shift,
            target,
            Ghost(p),
            Ghost(scanned as nat),
            Ghost(sel),
        );
        if keep {
            count += 1;
        }
        scanned += 1;
    }
    count
}

/// The count of one pass for a dimension that is known at compile time, or 0.
fn gen_count_dim<T: Cell, P: Prng, const DIM: usize>(
    snapshot: P,
    params: &GridParams,
    stream_len: usize,
    pass: u64,
    tradeoff_b: usize,
    decimating: bool,
    full: bool,
) -> (count: usize)
    requires
        params.fits::<T>(decimating),
        params.specialized(DIM, full),
        pass_exists(params.shape(decimating), tradeoff_b > 0, tradeoff_b, pass),
    ensures
        count == selected(
            snapshot,
            params.shape(decimating),
            stream_len as nat,
            selection(tradeoff_b > 0, tradeoff_b, pass),
        ).len(),
{
    if tradeoff_b > 0 {
        match (decimating, full) {
            (true, true) => scan_count::<T, P, DIM, true, true, true>(
                snapshot,
                params,
                stream_len,
                pass,
                tradeoff_b,
            ),
            (true, false) => scan_count::<T, P, DIM, true, false, true>(
                snapshot,
                params,
                stream_len,
                pass,
                tradeoff_b,
            ),
            (false, true) => scan_count::<T, P, DIM, false, true, true>(
                snapshot,
                params,
                stream_len,
                pass,
                tradeoff_b,
            ),
            (false, false) => scan_count::<T, P, DIM, false, false, true>(
                snapshot,
                params,
                stream_len,
                pass,
                tradeoff_b,
            ),
        }
    } else {
        match (decimating, full) {
            (true, true) => scan_count::<T, P, DIM, true, true, false>(
                snapshot,
                params,
                stream_len,
                0,
                0,
            ),
            (true, false) => scan_count::<T, P, DIM, true, false, false>(
                snapshot,
                params,
                stream_len,
                0,
                0,
            ),
            (false, true) => scan_count::<T, P, DIM, false, true, false>(
                snapshot,
                params,
                stream_len,
                0,
                0,
            ),
            (false, false) => scan_count::<T, P, DIM, false, false, false>(
                snapshot,
                params,
                stream_len,
                0,
                0,
            ),
        }
    }
}

/// How many points one pass keeps of the samples of one thread: the counting counterpart of
/// [`gen_pass_dispatch`], specialized in the same way.
pub fn gen_count_dispatch<T: Cell, P: Prng>(
    snapshot: P,
    params: &GridParams,
    stream_len: usize,
    pass: u64,
    tradeoff_b: usize,
    decimating: bool,
    full: bool,
) -> (count: usize)
    requires
        params.fits::<T>(decimating),
        params.specialized(0, full),
        pass_exists(params.shape(decimating), tradeoff_b > 0, tradeoff_b, pass),
    ensures
        count == selected(
            snapshot,
            params.shape(decimating),
            stream_len as nat,
            selection(tradeoff_b > 0, tradeoff_b, pass),
        ).len(),
{
    match params.t {
        1 => gen_count_dim::<T, P, 1>(snapshot, params, stream_len, pass, tradeoff_b, decimating, full),
        2 => gen_count_dim::<T, P, 2>(snapshot, params, stream_len, pass, tradeoff_b, decimating, full),
        3 => gen_count_dim::<T, P, 3>(snapshot, params, stream_len, pass, tradeoff_b, decimating, full),
        4 => gen_count_dim::<T, P, 4>(snapshot, params, stream_len, pass, tradeoff_b, decimating, full),
        5 => gen_count_dim::<T, P, 5>(snapshot, params, stream_len, pass, tradeoff_b, decimating, full),
        6 => gen_count_dim::<T, P, 6>(snapshot, params, stream_len, pass, tradeoff_b, decimating, full),
        7 => gen_count_dim::<T, P, 7>(snapshot, params, stream_len, pass, tradeoff_b, decimating, full),
        8 => gen_count_dim::<T, P, 8>(snapshot, params, stream_len, pass, tradeoff_b, decimating, full),
        _ => gen_count_dim::<T, P, 0>(snapshot, params, stream_len, pass, tradeoff_b, decimating, full),
    }
}

/// Generates (no sort) one plain pass into `buf`: all the samples, or with `DECIMATE` the accepted
/// ones of them. Returns the number written; `prng` is advanced in place to where the next pass
/// starts.
pub fn gen_plain<
    T: Cell,
    P: Prng,
    const DIM: usize,
    const DECIMATE: bool,
    const FULL: bool,
>(prng: &mut P, params: &GridParams, buf: &mut [T], scan_len: usize) -> (r: Result<
    usize,
    BinOverflow,
>)
    requires
        params.fits::<T>(DECIMATE),
        params.specialized(DIM, FULL),
        !DECIMATE ==> scan_len <= old(buf)@.len(),
    ensures
        final(buf)@.len() == old(buf)@.len(),
        !DECIMATE ==> r is Ok,
        ({
            let g = params.shape(DECIMATE);
            let points = sampling::kept(*old(prng), g, scan_len as nat);
            match r {
                Ok(len) => {
                    &&& len == points.len() <= old(buf)@.len()
                    &&& cell::vals(final(buf)@.take(len as int)) == points
                    &&& untouched_past(old(buf)@, final(buf)@, len as int)
                    &&& !DECIMATE ==> final(buf)@.skip(len as int) == old(buf)@.skip(len as int)
                    &&& *final(prng) == sampling::sample_start(*old(prng), g, scan_len as nat)
                },
                Err(e) => {
                    &&& e == BinOverflow::ParallelDecimationChunk
                    &&& points.len() > old(buf)@.len()
                    &&& exists|m: nat|
                        m <= scan_len && *final(prng) == #[trigger] sampling::sample_start(
                            *old(prng),
                            g,
                            m,
                        )
                },
            }
        }),
{
    if DECIMATE {
        scan_keep::<T, P, DIM, true, FULL, false>(
            prng,
            params,
            buf,
            scan_len,
            0,
            0,
            BinOverflow::ParallelDecimationChunk,
        )
    } else {
        let ghost before = buf@;
        fill::<T, P, DIM, FULL>(prng, params, buf, scan_len);
        assert forall|i: int| scan_len < i < before.len() implies #[trigger] buf@[i]
            == before[i] by {
            assert(buf@.skip(scan_len as int)[i - scan_len] == before.skip(scan_len as int)[i
                - scan_len]);
        }
        Ok(scan_len)
    }
}

/// Fills the front of `buf` with the cell indices of the next `points` samples.
pub fn fill<T: Cell, P: Prng, const DIM: usize, const FULL: bool>(
    prng: &mut P,
    params: &GridParams,
    buf: &mut [T],
    points: usize,
)
    requires
        params.fits::<T>(false),
        params.specialized(DIM, FULL),
        points <= old(buf)@.len(),
    ensures
        final(buf)@.len() == old(buf)@.len(),
        cell::vals(final(buf)@.take(points as int)) == sampling::kept(
            *old(prng),
            params.shape(false),
            points as nat,
        ),
        sampling::kept(*old(prng), params.shape(false), points as nat).len() == points,
        final(buf)@.skip(points as int) == old(buf)@.skip(points as int),
        *final(prng) == sampling::sample_start(*old(prng), params.shape(false), points as nat),
{
    let ghost p = *prng;
    let ghost g = params.shape(false);
    let mut i: usize = 0;
    assert(0 * g.t == 0);
    assert(cell::vals(buf@.take(0)) =~= sampling::kept(p, g, 0));
    while i < points
        invariant
            i <= points <= buf@.len(),
            g == params.shape(false),
            params.fits::<T>(false),
            params.specialized(DIM, FULL),
            buf@.len() == old(buf)@.len(),
            *prng == sampling::sample_start(p, g, i as nat),
            cell::vals(buf@.take(i as int)) == sampling::kept(p, g, i as nat),
            untouched_past(old(buf)@, buf@, i - 1),
        decreases points - i,
    {
        let ghost before = buf@;
        proof {
            sampling::lemma_all_accepted(*prng, g, g.t);
            prng::law_advance_adds(p, i as nat * g.t, g.t);
            assert(i as nat * g.t + g.t == (i + 1) as nat * g.t) by (nonlinear_arith);
        }
        let x: T = params.draw::<T, P, DIM, FULL>(prng);
        buf[i] = x;
        assert(cell::vals(buf@.take(i + 1)) =~= cell::vals(before.take(i as int)).push(x.val()));
        i += 1;
    }
    proof {
        sampling::lemma_all_kept(p, g, points as nat);
        assert(buf@.skip(points as int) =~= old(buf)@.skip(points as int));
    }
}

/// Tradeoff, one pass (generate only, no sort): replays `snapshot` for `stream_len` samples and
/// keeps only the points whose top *b* bits equal `pass`. Returns the number kept and the state
/// reached, from which the next repetition continues.
pub fn gen_pass_tradeoff<
    T: Cell,
    P: Prng,
    const DIM: usize,
    const DECIMATE: bool,
    const FULL: bool,
>(
    snapshot: P,
    params: &GridParams,
    buf: &mut [T],
    stream_len: usize,
    pass: u64,
    b: usize,
) -> (r: Result<(usize, P), BinOverflow>)
    requires
        params.fits::<T>(DECIMATE),
        params.specialized(DIM, FULL),
        pass_exists(params.shape(DECIMATE), true, b, pass),
    ensures
        final(buf)@.len() == old(buf)@.len(),
        ({
            let g = params.shape(DECIMATE);
            let points = selected(snapshot, g, stream_len as nat, selection(true, b, pass));
            match r {
                Ok((len, end)) => {
                    &&& len == points.len() <= old(buf)@.len()
                    &&& cell::vals(final(buf)@.take(len as int)) == points
                    &&& untouched_past(old(buf)@, final(buf)@, len as int)
                    &&& end == sampling::sample_start(snapshot, g, stream_len as nat)
                },
                Err(e) => e == BinOverflow::TradeoffBin && points.len() > old(buf)@.len(),
            }
        }),
{
    let mut local = snapshot;
    match scan_keep::<T, P, DIM, DECIMATE, FULL, true>(
        &mut local,
        params,
        buf,
        stream_len,
        pass,
        b,
        BinOverflow::TradeoffBin,
    ) {
        Ok(len) => Ok((len, local)),
        Err(e) => Err(e),
    }
}

/// One pass for a dimension that is known at compile time, or 0.
fn gen_pass_dim<T: Cell, P: Prng, const DIM: usize>(
    snapshot: P,
    params: &GridParams,
    buf: &mut [T],
    stream_len: usize,
    pass: u64,
    tradeoff_b: usize,
    decimating: bool,
    full: bool,
) -> (r: Result<(usize, P), BinOverflow>)
    requires
        params.fits::<T>(decimating),
        params.specialized(DIM, full),
        pass_exists(params.shape(decimating), tradeoff_b > 0, tradeoff_b, pass),
        tradeoff_b == 0 && !decimating ==> stream_len <= old(buf)@.len(),
    ensures
        final(buf)@.len() == old(buf)@.len(),
        generated(
            r,
            old(buf)@,
            final(buf)@,
            snapshot,
            params.shape(decimating),
            stream_len as nat,
            selection(tradeoff_b > 0, tradeoff_b, pass),
        ),
        tradeoff_b == 0 && !decimating ==> (r matches Ok((len, _)) && final(buf)@.skip(len as int)
            == old(buf)@.skip(len as int)),
        r matches Err(e) ==> e == pass_bin(tradeoff_b),
{
    if tradeoff_b > 0 {
        match (decimating, full) {
            (true, true) => gen_pass_tradeoff::<T, P, DIM, true, true>(
                snapshot,
                params,
                buf,
                stream_len,
                pass,
                tradeoff_b,
            ),
            (true, false) => gen_pass_tradeoff::<T, P, DIM, true, false>(
                snapshot,
                params,
                buf,
                stream_len,
                pass,
                tradeoff_b,
            ),
            (false, true) => gen_pass_tradeoff::<T, P, DIM, false, true>(
                snapshot,
                params,
                buf,
                stream_len,
                pass,
                tradeoff_b,
            ),
            (false, false) => gen_pass_tradeoff::<T, P, DIM, false, false>(
                snapshot,
                params,
                buf,
                stream_len,
                pass,
                tradeoff_b,
            ),
        }
    } else {
        let mut prng = snapshot;
        let used = match (decimating, full) {
            (true, true) => gen_plain::<T, P, DIM, true, true>(&mut prng, params, buf, stream_len),
            (true, false) => gen_plain::<T, P, DIM, true, false>(
                &mut prng,
                params,
                buf,
                stream_len,
            ),
            (false, true) => gen_plain::<T, P, DIM, false, true>(
                &mut prng,
                params,
                buf,
                stream_len,
            ),
            (false, false) => gen_plain::<T, P, DIM, false, false>(
                &mut prng,
                params,
                buf,
                stream_len,
            ),
        };
        match used {
            Ok(len) => Ok((len, prng)),
            Err(e) => Err(e),
        }
    }
}

/// What the generation of one pass gives: the selected points at the front of the buffer, their
/// number and the state reached, or an error where there are more of them than places. Behind the
/// place that follows the points, the buffer is as it was before.
pub open spec fn generated<T: Cell, P: Prng>(
    r: Result<(usize, P), BinOverflow>,
    before: Seq<T>,
    buf: Seq<T>,
    snapshot: P,
    g: Shape,
    n: nat,
    sel: Selection,
) -> bool {
    let points = selected(snapshot, g, n, sel);
    match r {
        Ok((len, end)) => {
            &&& len == points.len() <= buf.len()
            &&& cell::vals(buf.take(len as int)) == points
            &&& untouched_past(before, buf, len as int)
            &&& end == sampling::sample_start(snapshot, g, n)
        },
        Err(_) => points.len() > buf.len(),
    }
}

/// The bin that overflows where the generation of one pass does.
pub open spec fn pass_bin(tradeoff_b: usize) -> BinOverflow {
    if tradeoff_b > 0 {
        BinOverflow::TradeoffBin
    } else {
        BinOverflow::ParallelDecimationChunk
    }
}

/// Generates (no sort) one pass of one thread. Returns the number of points written to `buf`, and
/// the state reached after `stream_len` samples, from which the thread continues.
///
/// `snapshot` is where the thread starts; in tradeoff mode every pass replays it.
pub fn gen_pass_dispatch<T: Cell, P: Prng>(
    snapshot: P,
    params: &GridParams,
    buf: &mut [T],
    stream_len: usize,
    pass: u64,
    tradeoff_b: usize,
    decimating: bool,
    full: bool,
) -> (r: Result<(usize, P), BinOverflow>)
    requires
        params.fits::<T>(decimating),
        params.specialized(0, full),
        pass_exists(params.shape(decimating), tradeoff_b > 0, tradeoff_b, pass),
        tradeoff_b == 0 && !decimating ==> stream_len <= old(buf)@.len(),
    ensures
        final(buf)@.len() == old(buf)@.len(),
        generated(
            r,
            old(buf)@,
            final(buf)@,
            snapshot,
            params.shape(decimating),
            stream_len as nat,
            selection(tradeoff_b > 0, tradeoff_b, pass),
        ),
        tradeoff_b == 0 && !decimating ==> (r matches Ok((len, _)) && final(buf)@.skip(len as int)
            == old(buf)@.skip(len as int)),
        r matches Err(e) ==> e == pass_bin(tradeoff_b),
{
    match params.t {
        1 => gen_pass_dim::<T, P, 1>(snapshot, params, buf, stream_len, pass, tradeoff_b, decimating, full),
        2 => gen_pass_dim::<T, P, 2>(snapshot, params, buf, stream_len, pass, tradeoff_b, decimating, full),
        3 => gen_pass_dim::<T, P, 3>(snapshot, params, buf, stream_len, pass, tradeoff_b, decimating, full),
        4 => gen_pass_dim::<T, P, 4>(snapshot, params, buf, stream_len, pass, tradeoff_b, decimating, full),
        5 => gen_pass_dim::<T, P, 5>(snapshot, params, buf, stream_len, pass, tradeoff_b, decimating, full),
        6 => gen_pass_dim::<T, P, 6>(snapshot, params, buf, stream_len, pass, tradeoff_b, decimating, full),
        7 => gen_pass_dim::<T, P, 7>(snapshot, params, buf, stream_len, pass, tradeoff_b, decimating, full),
        8 => gen_pass_dim::<T, P, 8>(snapshot, params, buf, stream_len, pass, tradeoff_b, decimating, full),
        _ => gen_pass_dim::<T, P, 0>(snapshot, params, buf, stream_len, pass, tradeoff_b, decimating, full),
    }
}

/// What a pass keeps of `m` samples, then of `n` more from where those ended, is what it keeps of
/// `m + n` samples.
pub proof fn law_selected_concat<P: Orbit>(p: P, g: Shape, m: nat, n: nat, sel: Selection)
    ensures
        selected(p, g, m + n, sel) == selected(p, g, m, sel) + selected(
            sampling::sample_start(p, g, m),
            g,
            n,
            sel,
        ),
{
    sampling::law_kept_concat(p, g, m, n);
    match sel {
        Selection::All => {},
        Selection::Interval { b, k } => {
            Seq::filter_distributes_over_add(
                sampling::kept(p, g, m),
                sampling::kept(sampling::sample_start(p, g, m), g, n),
                counting::has_key(interval_of(g, b), k),
            );
        },
    }
}

/// The points from `k` · `width` up to (`k` + 1) · `width`.
pub open spec fn between(points: Seq<nat>, width: nat, k: nat) -> Seq<nat> {
    points.filter(|x: nat| k * width <= x && x < (k + 1) * width)
}

/// The intervals are contiguous and equally wide: of the *w* bits of a cell index, interval `k` of
/// the 2^`b` has the indices from `k` · 2^(*w* − `b`) up to the next interval.
pub proof fn law_interval_bounds(g: Shape, b: nat, x: nat, k: nat)
    requires
        g.d <= g.u,
        b <= g.t * (g.u - g.d),
    ensures
        ({
            let width = pow2((g.t * (g.u - g.d) - b) as nat);
            interval_of(g, b)(x) == k <==> k * width <= x && x < (k + 1) * width
        }),
{
    let width = pow2((g.t * (g.u - g.d) - b) as nat) as int;
    lemma_pow2_pos((g.t * (g.u - g.d) - b) as nat);
    lemma_fundamental_div_mod(x as int, width);
    lemma_mod_bound(x as int, width);
    let q = x as int / width;
    assert(interval_of(g, b)(x) == q);
    assert(q * width <= x && x < (q + 1) * width) by (nonlinear_arith)
        requires
            x == width * q + x as int % width,
            0 <= x as int % width < width,
    ;
    if k < q {
        assert((k + 1) * width <= q * width) by (nonlinear_arith)
            requires
                k + 1 <= q,
                width > 0,
        ;
    } else if q < k {
        assert((q + 1) * width <= k * width) by (nonlinear_arith)
            requires
                q + 1 <= k,
                width > 0,
        ;
    }
}

/// Pass `k` of a tradeoff on the top `b` bits keeps the points of a scan that lie in interval `k`,
/// in the order of the scan; without a tradeoff all points are kept.
pub proof fn law_pass_keeps_its_interval<P: Orbit>(p: P, g: Shape, n: nat, b: usize, k: u64)
    requires
        g.d <= g.u,
        b <= g.t * (g.u - g.d),
    ensures
        ({
            let width = pow2((g.t * (g.u - g.d) - b) as nat);
            selected(p, g, n, selection(true, b, k)) == sampling::kept(p, g, n).filter(
                |x: nat| k * width <= x && x < (k + 1) * width,
            )
        }),
        selected(p, g, n, selection(false, b, k)) == sampling::kept(p, g, n),
{
    let width = pow2((g.t * (g.u - g.d) - b) as nat);
    let inside = |x: nat| k * width <= x && x < (k + 1) * width;
    let key = counting::has_key(interval_of(g, b as nat), k as nat);
    assert forall|x: nat| #[trigger] key(x) == inside(x) by {
        law_interval_bounds(g, b as nat, x, k as nat);
    }
    assert(key =~= inside);
}

/// A scan is `points` · 2^(*t* · *d*) samples long, if that can be counted.
pub proof fn law_scan_samples(points: usize, t: usize, d: usize, n: Option<usize>)
    requires
        call_ensures(scan_samples, (points, t, d), n),
    ensures
        n matches Some(len) ==> len == points * pow2((t * d) as nat),
        n is None ==> points * pow2((t * d) as nat) > usize::MAX || points == 0,
{
    if n is None && points > 0 {
        let m = points as nat;
        let k = (t * d) as nat;
        assert(0 <= t * d) by (nonlinear_arith);
        if k >= usize::BITS {
            lemma_usize_bits_power();
            lemma_pow2_pos(k);
            if k > usize::BITS {
                lemma_pow2_strictly_increases(usize::BITS as nat, k);
            }
            assert(m * pow2(k) >= pow2(k)) by (nonlinear_arith)
                requires
                    m >= 1,
            ;
        }
    }
}

/// 2 to the width of `usize` does not fit it.
proof fn lemma_usize_bits_power()
    ensures
        pow2(usize::BITS as nat) > usize::MAX,
{
    lemma2_to64();
    lemma2_to64_rest();
}

/// A scan writes the points of its pass to the front of the buffer, in their order, and makes all
/// its draws; it overflows if and only if the pass has more points than the buffer has places.
pub proof fn law_scan_keep<
    T: Cell,
    P: Prng,
    const DIM: usize,
    const DECIMATE: bool,
    const FULL: bool,
    const TRADEOFF: bool,
>(
    prng: &mut P,
    params: &GridParams,
    buf: &mut [T],
    scan_len: usize,
    pass: u64,
    tradeoff_b: usize,
    overflow: BinOverflow,
    r: Result<usize, BinOverflow>,
)
    requires
        params.d < params.u,
        tradeoff_b <= params.t * (params.u - (if DECIMATE {
            params.d
        } else {
            0
        })),
        call_ensures(
            scan_keep::<T, P, DIM, DECIMATE, FULL, TRADEOFF>,
            (prng, params, buf, scan_len, pass, tradeoff_b, overflow),
            r,
        ),
    ensures
        ({
            let g = Shape {
                u: params.u as nat,
                t: params.t as nat,
                s: params.s as nat,
                d: if DECIMATE {
                    params.d as nat
                } else {
                    0
                },
            };
            let all = sampling::kept(*old(prng), g, scan_len as nat);
            let width = pow2((g.t * (g.u - g.d) - tradeoff_b) as nat);
            let points = if TRADEOFF {
                all.filter(|x: nat| pass * width <= x && x < (pass + 1) * width)
            } else {
                all
            };
            match r {
                Ok(len) => {
                    &&& len == points.len() <= old(buf)@.len()
                    &&& cell::vals(final(buf)@.take(len as int)) == points
                    &&& untouched_past(old(buf)@, final(buf)@, len as int)
                    &&& *final(prng) == prng::advance(*old(prng), scan_len as nat * g.t)
                },
                Err(e) => e == overflow && points.len() > old(buf)@.len(),
            }
        }),
{
    law_pass_keeps_its_interval(
        *prng,
        params.shape(DECIMATE),
        scan_len as nat,
        tradeoff_b,
        pass,
    );
}

/// A scan into the buffer of the caller writes the points of its pass to the front of the buffer,
/// in their order, and makes all its draws; it overflows if and only if the pass has more points
/// than the buffer has places.
pub proof fn law_scan_store<
    T: Cell,
    P: Prng,
    const DIM: usize,
    const DECIMATE: bool,
    const FULL: bool,
    const TRADEOFF: bool,
>(
    prng: &mut P,
    params: &GridParams,
    buf: &mut [T],
    scan_len: usize,
    pass: u64,
    tradeoff_b: usize,
    overflow: BinOverflow,
    r: Result<usize, BinOverflow>,
)
    requires
        params.d < params.u,
        tradeoff_b <= params.t * (params.u - (if DECIMATE {
            params.d
        } else {
            0
        })),
        call_ensures(
            scan_store::<T, P, DIM, DECIMATE, FULL, TRADEOFF>,
            (prng, params, buf, scan_len, pass, tradeoff_b, overflow),
            r,
        ),
    ensures
        ({
            let g = Shape {
                u: params.u as nat,
                t: params.t as nat,
                s: params.s as nat,
                d: if DECIMATE {
                    params.d as nat
                } else {
                    0
                },
            };
            let all = sampling::kept(*old(prng), g, scan_len as nat);
            let width = pow2((g.t * (g.u - g.d) - tradeoff_b) as nat);
            let points = if TRADEOFF {
                all.filter(|x: nat| pass * width <= x && x < (pass + 1) * width)
            } else {
                all
            };
            match r {
                Ok(len) => {
                    &&& len == points.len() <= old(buf)@.len()
                    &&& cell::vals(final(buf)@.take(len as int)) == points
                    &&& final(buf)@.skip(len as int) == old(buf)@.skip(len as int)
                    &&& *final(prng) == prng::advance(*old(prng), scan_len as nat * g.t)
                },
                Err(e) => e == overflow && points.len() > old(buf)@.len(),
            }
        }),
{
    law_pass_keeps_its_interval(
        *prng,
        params.shape(DECIMATE),
        scan_len as nat,
        tradeoff_b,
        pass,
    );
}

/// A counting scan counts the points of its pass.
pub proof fn law_scan_count<
    T: Cell,
    P: Prng,
    const DIM: usize,
    const DECIMATE: bool,
    const FULL: bool,
    const TRADEOFF: bool,
>(prng: P, params: &GridParams, scan_len: usize, pass: u64, tradeoff_b: usize, count: usize)
    requires
        params.d < params.u,
        tradeoff_b <= params.t * (params.u - (if DECIMATE {
            params.d
        } else {
            0
        })),
        call_ensures(
            scan_count::<T, P, DIM, DECIMATE, FULL, TRADEOFF>,
            (prng, params, scan_len, pass, tradeoff_b),
            count,
        ),
    ensures
        ({
            let g = Shape {
                u: params.u as nat,
                t: params.t as nat,
                s: params.s as nat,
                d: if DECIMATE {
                    params.d as nat
                } else {
                    0
                },
            };
            let all = sampling::kept(prng, g, scan_len as nat);
            let width = pow2((g.t * (g.u - g.d) - tradeoff_b) as nat);
            let points = if TRADEOFF {
                all.filter(|x: nat| pass * width <= x && x < (pass + 1) * width)
            } else {
                all
            };
            count == points.len()
        }),
{
    law_pass_keeps_its_interval(prng, params.shape(DECIMATE), scan_len as nat, tradeoff_b, pass);
}

/// One pass of one thread gives the points of the pass among the samples of the thread, in their
/// order, and counting it counts as many; it overflows if and only if there are more of them than
/// places.
pub proof fn law_gen_pass<T: Cell, P: Prng>(
    snapshot: P,
    params: &GridParams,
    buf: &mut [T],
    stream_len: usize,
    pass: u64,
    tradeoff_b: usize,
    decimating: bool,
    full: bool,
    r: Result<(usize, P), BinOverflow>,
    count: usize,
)
    requires
        params.d < params.u,
        tradeoff_b <= params.t * (params.u - (if decimating {
            params.d
        } else {
            0
        })),
        call_ensures(
            gen_pass_dispatch::<T, P>,
            (snapshot, params, buf, stream_len, pass, tradeoff_b, decimating, full),
            r,
        ),
        call_ensures(
            gen_count_dispatch::<T, P>,
            (snapshot, params, stream_len, pass, tradeoff_b, decimating, full),
            count,
        ),
    ensures
        ({
            let g = Shape {
                u: params.u as nat,
                t: params.t as nat,
                s: params.s as nat,
                d: if decimating {
                    params.d as nat
                } else {
                    0
                },
            };
            let all = sampling::kept(snapshot, g, stream_len as nat);
            let width = pow2((g.t * (g.u - g.d) - tradeoff_b) as nat);
            let points = if tradeoff_b > 0 {
                all.filter(|x: nat| pass * width <= x && x < (pass + 1) * width)
            } else {
                all
            };
            &&& count == points.len()
            &&& match r {
                Ok((len, end)) => {
                    &&& len == points.len() <= old(buf)@.len()
                    &&& cell::vals(final(buf)@.take(len as int)) == points
                    &&& end == prng::advance(snapshot, stream_len as nat * g.t)
                },
                Err(e) => {
                    &&& points.len() > old(buf)@.len()
                    &&& e == (if tradeoff_b > 0 {
                        BinOverflow::TradeoffBin
                    } else {
                        BinOverflow::ParallelDecimationChunk
                    })
                },
            }
        }),
{
    law_pass_keeps_its_interval(
        snapshot,
        params.shape(decimating),
        stream_len as nat,
        tradeoff_b,
        pass,
    );
}

/// The parameters of a grid are those for which the bits that are read exist and the index fits the
/// storage type; the compile-time parameters of a scan are the dimension or 0, and whether whole
/// outputs are read; a pass is one of 2^`b`.
pub proof fn law_grid_params<T: Value>(
    params: GridParams,
    decimate: bool,
    dim: usize,
    full: bool,
    tradeoff: bool,
    b: usize,
    pass: u64,
    d: nat,
)
    requires
        d == (if decimate {
            params.d as nat
        } else {
            0
        }),
    ensures
        params.fits::<T>(decimate) <==> {
            &&& params.t >= 1
            &&& params.d < params.u
            &&& params.u + params.s <= 64
            &&& params.t * (params.u - d) <= T::bits()
        },
        params.specialized(dim, full) <==> {
            &&& dim == 0 || dim == params.t
            &&& full ==> params.u == 64 && params.s == 0
        },
        d <= params.u ==> (pass_exists(params.shape(decimate), tradeoff, b, pass) <==> (tradeoff
            ==> 1 <= b <= params.t * (params.u - d) && pass < pow2(b as nat))),
{
}

/// The cell of the next sample of a grid is that of `t` elements of `u` bits.
pub proof fn law_grid_draw<T: Cell, P: Prng, const DIM: usize, const FULL: bool>(
    params: &GridParams,
    prng: &mut P,
    x: T,
)
    requires
        call_ensures(GridParams::draw::<T, P, DIM, FULL>, (params, prng), x),
    ensures
        x.val() == sampling::index(
            *old(prng),
            (Shape { u: params.u as nat, t: params.t as nat, s: params.s as nat, d: 0 }),
            params.t as nat,
        ),
        *final(prng) == prng::advance(*old(prng), params.t as nat),
{
}

/// With decimation, the cell of the next sample of a grid is that of its elements without their
/// lower `d` bits, if those are all zero; else there is none.
pub proof fn law_grid_draw_decimate_once<T: Cell, P: Prng, const DIM: usize, const FULL: bool>(
    params: &GridParams,
    prng: &mut P,
    r: Option<T>,
    g: Shape,
)
    requires
        g == (Shape {
            u: params.u as nat,
            t: params.t as nat,
            s: params.s as nat,
            d: params.d as nat,
        }),
        call_ensures(GridParams::draw_decimate_once::<T, P, DIM, FULL>, (params, prng), r),
    ensures
        r is Some <==> sampling::accepted(*old(prng), g, params.t as nat),
        r matches Some(x) ==> x.val() == sampling::index(*old(prng), g, params.t as nat),
        *final(prng) == prng::advance(*old(prng), params.t as nat),
{
}

/// A candidate is the next sample of a grid, with or without decimation, and whether it is kept.
pub proof fn law_grid_draw_candidate<
    T: Cell,
    P: Prng,
    const DIM: usize,
    const DECIMATE: bool,
    const FULL: bool,
>(params: &GridParams, prng: &mut P, r: (T, bool), g: Shape)
    requires
        g == (Shape {
            u: params.u as nat,
            t: params.t as nat,
            s: params.s as nat,
            d: if DECIMATE {
                params.d as nat
            } else {
                0
            },
        }),
        call_ensures(GridParams::draw_candidate::<T, P, DIM, DECIMATE, FULL>, (params, prng), r),
    ensures
        r.1 == sampling::accepted(*old(prng), g, params.t as nat),
        r.0.val() == sampling::index(*old(prng), g, params.t as nat),
        *final(prng) == prng::advance(*old(prng), params.t as nat),
{
}

/// Filling a buffer writes the cells of the next samples to its front, and changes nothing else.
pub proof fn law_fill<T: Cell, P: Prng, const DIM: usize, const FULL: bool>(
    prng: &mut P,
    params: &GridParams,
    buf: &mut [T],
    points: usize,
    i: nat,
)
    requires
        i < points <= old(buf)@.len(),
        call_ensures(fill::<T, P, DIM, FULL>, (prng, params, buf, points), ()),
    ensures
        ({
            let g = Shape { u: params.u as nat, t: params.t as nat, s: params.s as nat, d: 0 };
            &&& final(buf)@[i as int].val() == sampling::index(
                prng::advance(*old(prng), i * g.t),
                g,
                g.t,
            )
            &&& final(buf)@.skip(points as int) == old(buf)@.skip(points as int)
            &&& *final(prng) == prng::advance(*old(prng), points as nat * g.t)
        }),
{
    let g = Shape { u: params.u as nat, t: params.t as nat, s: params.s as nat, d: 0 };
    assert(g == params.shape(false));
    lemma_kept_at(*prng, g, points as nat, i);
    let front = final(buf)@.take(points as int);
    assert(cell::vals(front)[i as int] == front[i as int].val());
}

/// Without decimation the point of sample `i` is in place `i`.
proof fn lemma_kept_at<P: Orbit>(p: P, g: Shape, n: nat, i: nat)
    requires
        g.d == 0,
        i < n,
    ensures
        sampling::kept(p, g, n)[i as int] == sampling::index(prng::advance(p, i * g.t), g, g.t),
    decreases n,
{
    let m = (n - 1) as nat;
    sampling::lemma_all_kept(p, g, m);
    sampling::lemma_all_accepted(sampling::sample_start(p, g, m), g, g.t);
    if i < m {
        lemma_kept_at(p, g, m, i);
    }
}

/// A plain pass gives all the accepted points of its samples, in their order.
pub proof fn law_gen_plain<
    T: Cell,
    P: Prng,
    const DIM: usize,
    const DECIMATE: bool,
    const FULL: bool,
>(
    prng: &mut P,
    params: &GridParams,
    buf: &mut [T],
    scan_len: usize,
    r: Result<usize, BinOverflow>,
    g: Shape,
)
    requires
        g == (Shape {
            u: params.u as nat,
            t: params.t as nat,
            s: params.s as nat,
            d: if DECIMATE {
                params.d as nat
            } else {
                0
            },
        }),
        call_ensures(
            gen_plain::<T, P, DIM, DECIMATE, FULL>,
            (prng, params, buf, scan_len),
            r,
        ),
    ensures
        ({
            let points = sampling::kept(*old(prng), g, scan_len as nat);
            match r {
                Ok(len) => {
                    &&& len == points.len() <= old(buf)@.len()
                    &&& cell::vals(final(buf)@.take(len as int)) == points
                    &&& *final(prng) == prng::advance(*old(prng), scan_len as nat * g.t)
                },
                Err(e) => DECIMATE && points.len() > old(buf)@.len(),
            }
        }),
{
}

/// One pass of a tradeoff gives the points in its interval, in their order, from the same state as
/// every other pass.
pub proof fn law_gen_pass_tradeoff<
    T: Cell,
    P: Prng,
    const DIM: usize,
    const DECIMATE: bool,
    const FULL: bool,
>(
    snapshot: P,
    params: &GridParams,
    buf: &mut [T],
    stream_len: usize,
    pass: u64,
    b: usize,
    r: Result<(usize, P), BinOverflow>,
    g: Shape,
)
    requires
        params.d < params.u,
        g == (Shape {
            u: params.u as nat,
            t: params.t as nat,
            s: params.s as nat,
            d: if DECIMATE {
                params.d as nat
            } else {
                0
            },
        }),
        b <= g.t * (g.u - g.d),
        call_ensures(
            gen_pass_tradeoff::<T, P, DIM, DECIMATE, FULL>,
            (snapshot, params, buf, stream_len, pass, b),
            r,
        ),
    ensures
        ({
            let width = pow2((g.t * (g.u - g.d) - b) as nat);
            let points = sampling::kept(snapshot, g, stream_len as nat).filter(
                |x: nat| pass * width <= x && x < (pass + 1) * width,
            );
            match r {
                Ok((len, end)) => {
                    &&& len == points.len() <= old(buf)@.len()
                    &&& cell::vals(final(buf)@.take(len as int)) == points
                    &&& end == prng::advance(snapshot, stream_len as nat * g.t)
                },
                Err(e) => points.len() > old(buf)@.len(),
            }
        }),
{
    assert(g == params.shape(DECIMATE));
    law_pass_keeps_its_interval(snapshot, g, stream_len as nat, b, pass);
}

/// A number of cells is one more than the last cell.
pub proof fn law_cell_counts(cells: CellCount, bits: usize, n: u128, a: CellCount, b: CellCount)
    requires
        call_ensures(CellCount::power_of_two, (bits,), a),
        call_ensures(CellCount::from_u128, (n,), b),
    ensures
        cells@ == cells.last + 1,
        a.last + 1 == pow2(bits as nat),
        b.last + 1 == n,
{
}

/// Nothing has changed behind a place if and only if what follows the place after it is the same.
pub proof fn law_untouched_past<T>(before: Seq<T>, after: Seq<T>, k: int)
    requires
        before.len() == after.len(),
        0 <= k < before.len(),
    ensures
        untouched_past(before, after, k) <==> after.skip(k + 1) == before.skip(k + 1),
{
    if untouched_past(before, after, k) {
        assert(after.skip(k + 1) =~= before.skip(k + 1));
    }
    if after.skip(k + 1) == before.skip(k + 1) {
        assert forall|i: int| k < i < before.len() implies #[trigger] after[i] == before[i] by {
            assert(after.skip(k + 1)[i - k - 1] == before.skip(k + 1)[i - k - 1]);
        }
    }
}

} // verus!
