//! The birthday-spacings test: the sequential runners (plain, tradeoff).

use crate::cell;
use crate::cell::{Cell, Value};
use crate::chunks;
use crate::cli::passes_of;
use crate::collision;
use crate::collision::Tally;
use crate::common;
use crate::common::{fill, scan_samples, scan_store, BinOverflow, CellCount, GridParams};
use crate::counting;
use crate::merging::count_adjacent_equals;
use crate::outside;
use crate::prng;
use crate::prng::{Orbit, Prng};
use crate::progress;
use crate::progress::Reporter;
use crate::sampling;
use crate::sampling::Shape;
use crate::seqs;
use vstd::arithmetic::div_mod::*;
use vstd::arithmetic::mul::*;
use vstd::arithmetic::power2::*;
use vstd::multiset::Multiset;
use vstd::prelude::*;

verus! {

broadcast use {vstd::multiset::group_multiset_axioms, vstd::seq_lib::group_to_multiset_ensures};

/// The differences between neighbours among the first `n` elements of `s`.
pub open spec fn gaps(s: Seq<nat>, n: nat) -> Seq<nat> {
    Seq::new(
        if n == 0 {
            0
        } else {
            (n - 1) as nat
        },
        |i: int| (s[i + 1] - s[i]) as nat,
    )
}

/// The distance from the last of some points to the first one, around a circle of `cells` cells.
pub open spec fn wrap_around(s: Seq<nat>, cells: nat) -> nat {
    (cells - s.last() + s.first()) as nat
}

/// The spacings of sorted points on a circle of `cells` cells: the distance of each point from the
/// one before it.
pub open spec fn spacings(s: Seq<nat>, cells: nat) -> Seq<nat> {
    Seq::new(
        s.len(),
        |i: int|
            if i == 0 {
                wrap_around(s, cells)
            } else {
                (s[i] - s[i - 1]) as nat
            },
    )
}

/// The collisions among the spacings of some points on a circle of `cells` cells.
pub open spec fn birthday_collisions(points: Seq<nat>, cells: nat) -> nat {
    counting::collisions(spacings(counting::in_ascending_order(points), cells).to_multiset())
}

/// The spacings that are stored: all, but for the wrap-around where all points coincide, which is
/// the number of cells and may not fit the storage type.
pub open spec fn stored_spacings(s: Seq<nat>, cells: nat) -> Seq<nat> {
    if s.len() > 0 && s.first() != s.last() {
        gaps(s, s.len()).push(wrap_around(s, cells))
    } else {
        gaps(s, s.len())
    }
}

/// The spacings as they are written in the place of the points: where all points coincide, 1 stands
/// for the wrap-around.
pub open spec fn written_spacings(s: Seq<nat>, cells: nat) -> Seq<nat> {
    if s.len() > 0 && s.first() == s.last() {
        spacings(s, cells).update(0, 1)
    } else {
        spacings(s, cells)
    }
}

/// The points are below the number of cells.
pub open spec fn within(s: Seq<nat>, cells: nat) -> bool {
    forall|i: int| 0 <= i < s.len() ==> #[trigger] s[i] < cells
}

/// The spacings are the wrap-around and the gaps.
proof fn lemma_spacings_parts(s: Seq<nat>, cells: nat)
    requires
        s.len() > 0,
    ensures
        spacings(s, cells).to_multiset() == gaps(s, s.len()).to_multiset().insert(
            wrap_around(s, cells),
        ),
{
    let w = wrap_around(s, cells);
    let g = gaps(s, s.len());
    assert(spacings(s, cells) =~= seq![w] + g);
    vstd::seq_lib::lemma_multiset_commutative(seq![w], g);
    assert(seq![w] =~= Seq::<nat>::empty().push(w));
    assert(spacings(s, cells).to_multiset() =~= g.to_multiset().insert(w));
}

/// Where all points coincide, all gaps are zero.
proof fn lemma_no_gaps(s: Seq<nat>)
    requires
        counting::ascending(s),
        s.len() > 0,
        s.first() == s.last(),
    ensures
        forall|x: nat| x > 0 ==> gaps(s, s.len()).to_multiset().count(x) == 0,
{
    let g = gaps(s, s.len());
    assert forall|x: nat| x > 0 implies g.to_multiset().count(x) == 0 by {
        if g.to_multiset().count(x) > 0 {
            let i = choose|i: int| 0 <= i < g.len() && g[i] == x;
            if i > 0 {
                assert(s[0] <= s[i]);
            }
            if i + 1 < s.len() - 1 {
                assert(s[i + 1] <= s[s.len() - 1]);
            }
            assert(s[i] <= s[i + 1]);
        }
    }
}

/// Leaving out the wrap-around where all points coincide, or putting another positive number in its
/// place, does not change the collisions.
pub proof fn law_stand_in_is_exact(s: Seq<nat>, cells: nat, stand_in: nat)
    requires
        counting::ascending(s),
        within(s, cells),
        stand_in > 0,
    ensures
        counting::collisions(stored_spacings(s, cells).to_multiset()) == counting::collisions(
            spacings(s, cells).to_multiset(),
        ),
        s.len() > 0 && s.first() == s.last() ==> counting::collisions(
            gaps(s, s.len()).to_multiset().insert(stand_in),
        ) == counting::collisions(spacings(s, cells).to_multiset()),
{
    if s.len() == 0 {
        assert(stored_spacings(s, cells) =~= spacings(s, cells));
    } else {
        lemma_spacings_parts(s, cells);
        let g = gaps(s, s.len()).to_multiset();
        if s.first() == s.last() {
            lemma_no_gaps(s);
            assert(s[0] < cells);
            counting::lemma_collisions_insert(g, wrap_around(s, cells));
            counting::lemma_collisions_insert(g, stand_in);
        } else {
            assert(stored_spacings(s, cells).to_multiset() =~= spacings(s, cells).to_multiset());
        }
    }
}

/// The spacings that are stored are below the number of cells, as the points are: a type that holds
/// every cell index holds every spacing.
pub proof fn law_stored_spacings_fit(s: Seq<nat>, cells: nat)
    requires
        counting::ascending(s),
        within(s, cells),
    ensures
        within(stored_spacings(s, cells), cells),
{
    let stored = stored_spacings(s, cells);
    assert forall|i: int| 0 <= i < stored.len() implies #[trigger] stored[i] < cells by {
        if i < s.len() - 1 {
            assert(s[i] <= s[i + 1]);
            assert(s[i + 1] < cells);
        } else {
            assert(s[0] <= s[s.len() - 1]);
        }
    }
}

/// The differences of the elements `from..to` of a sorted slice from their predecessors; the first
/// of all elements has none and stays.
fn differences<T: Cell>(v: &[T], from: usize, to: usize) -> (r: Vec<T>)
    requires
        counting::ascending(cell::vals(v@)),
        from <= to <= v@.len(),
    ensures
        r@.len() == to - from,
        forall|i: int|
            0 <= i < r@.len() ==> (#[trigger] r@[i]).val() == (if from + i == 0 {
                v@[0].val() as int
            } else {
                v@[from + i].val() - v@[from + i - 1].val()
            }),
{
    let ghost vs = cell::vals(v@);
    let mut r: Vec<T> = Vec::with_capacity(to - from);
    let mut i: usize = from;
    while i < to
        invariant
            from <= i <= to <= v@.len(),
            vs == cell::vals(v@),
            counting::ascending(vs),
            r@.len() == i - from,
            forall|k: int|
                0 <= k < r@.len() ==> (#[trigger] r@[k]).val() == (if from + k == 0 {
                    v@[0].val() as int
                } else {
                    v@[from + k].val() - v@[from + k - 1].val()
                }),
        decreases to - i,
    {
        if i == 0 {
            r.push(v[0]);
        } else {
            assert(vs[i - 1] <= vs[i as int]);
            r.push(v[i].minus(v[i - 1]));
        }
        i += 1;
    }
    r
}

/// Parallel in-place spacings of a sorted slice: each element is replaced by its difference from its
/// predecessor.
///
/// `predecessor` is the largest value below this slice, from which the first element is at that
/// distance; without one the first element is left untouched.
pub fn compute_spacings_with_predecessor<T: Cell>(v: &mut [T], predecessor: Option<T>)
    requires
        counting::ascending(cell::vals(old(v)@)),
        predecessor matches Some(p) ==> old(v)@.len() > 0 ==> p.val() <= old(v)@[0].val(),
    ensures
        final(v)@.len() == old(v)@.len(),
        forall|i: int|
            1 <= i < final(v)@.len() ==> (#[trigger] final(v)@[i]).val() == old(v)@[i].val() - old(
                v,
            )@[i - 1].val(),
        final(v)@.len() > 0 ==> final(v)@[0].val() == (match predecessor {
            Some(p) => old(v)@[0].val() - p.val(),
            None => old(v)@[0].val() as int,
        }),
{
    if v.len() == 0 {
        return;
    }
    let ghost v0 = v@;
    let len: usize = v.len();
    let threads: usize = outside::pool_threads();
    let even: usize = if threads == 0 {
        len / 10
    } else {
        len / threads / 10
    };
    let size: usize = if even < 1024 {
        1024
    } else {
        even
    };
    let bounds: Vec<(usize, usize)> = chunks::chunk_bounds(len, size);
    let shared: &[T] = v;
    proof {
        assert forall|i: int| 0 <= i < bounds@.len() implies (#[trigger] bounds@[i]).0
            <= bounds@[i].1 <= shared@.len() by {
            chunks::lemma_covers_end(bounds@, len as int, i);
        }
    }
    let one_chunk = |c: &(usize, usize)| -> (r: Vec<T>)
        requires
            c.0 <= c.1 <= shared@.len(),
        ensures
            r@.len() == c.1 - c.0,
            forall|i: int|
                0 <= i < r@.len() ==> (#[trigger] r@[i]).val() == (if c.0 + i == 0 {
                    shared@[0].val() as int
                } else {
                    shared@[c.0 + i].val() - shared@[c.0 + i - 1].val()
                }),
        { differences(shared, c.0, c.1) };
    let parts: Vec<Vec<T>> = outside::par_map(bounds.as_slice(), one_chunk);
    proof {
        assert forall|j: int| 0 <= j < parts@.len() implies chunk_done(
            #[trigger] parts@[j],
            v0,
            bounds@[j],
        ) by {}
    }
    let mut k: usize = 0;
    while k < parts.len()
        invariant
            k <= parts@.len() == bounds@.len(),
            chunks::covers(bounds@, v0.len() as int),
            v@.len() == v0.len(),
            v0.len() > 0,
            forall|j: int|
                0 <= j < parts@.len() ==> chunk_done(#[trigger] parts@[j], v0, bounds@[j]),
            forall|i: int|
                0 <= i < chunks::chunk_start(bounds@, k as int) ==> (#[trigger] v@[i]).val() == (if i
                    == 0 {
                    v0[0].val() as int
                } else {
                    v0[i].val() - v0[i - 1].val()
                }),
        decreases parts@.len() - k,
    {
        let part: &Vec<T> = &parts[k];
        let start: usize = bounds[k].0;
        proof {
            assert(chunk_done(parts@[k as int], v0, bounds@[k as int]));
            chunks::lemma_covers_end(bounds@, v0.len() as int, k as int);
            assert(bounds@[k as int].0 == chunks::chunk_start(bounds@, k as int));
        }
        let mut i: usize = 0;
        while i < part.len()
            invariant
                i <= part@.len(),
                start + part@.len() <= v0.len() <= usize::MAX,
                v@.len() == v0.len(),
                forall|m: int|
                    0 <= m < part@.len() ==> (#[trigger] part@[m]).val() == (if start + m == 0 {
                        v0[0].val() as int
                    } else {
                        v0[start + m].val() - v0[start + m - 1].val()
                    }),
                forall|m: int|
                    0 <= m < start + i ==> (#[trigger] v@[m]).val() == (if m == 0 {
                        v0[0].val() as int
                    } else {
                        v0[m].val() - v0[m - 1].val()
                    }),
            decreases part@.len() - i,
        {
            v[start + i] = part[i];
            i += 1;
        }
        k += 1;
    }
    if let Some(p) = predecessor {
        v[0] = v[0].minus(p);
    }
}

/// A chunk holds the differences that belong to it.
spec fn chunk_done<T: Cell>(part: Vec<T>, v: Seq<T>, c: (usize, usize)) -> bool {
    &&& part@.len() == c.1 - c.0
    &&& forall|i: int|
        0 <= i < part@.len() ==> (#[trigger] part@[i]).val() == (if c.0 + i == 0 {
            v[0].val() as int
        } else {
            v[c.0 + i].val() - v[c.0 + i - 1].val()
        })
}

/// Parallel in-place computation of the spacings of all points in ascending order: like
/// [`compute_spacings_with_predecessor`] with no predecessor, but the first element receives the
/// circular wrap-around.
///
/// The wrap-around is evaluated through the greatest cell index, since the number of cells itself
/// may not fit the storage type; where all points coincide it would be that number, and 1 is put in
/// its place, which does not change the collisions.
pub fn compute_spacings<T: Cell>(v: &mut [T], cells: &CellCount)
    requires
        counting::ascending(cell::vals(old(v)@)),
        within(cell::vals(old(v)@), cells@),
        cells@ <= pow2(T::bits()),
    ensures
        final(v)@.len() == old(v)@.len(),
        ({
            let s = cell::vals(old(v)@);
            let r = cell::vals(final(v)@);
            &&& r == written_spacings(s, cells@)
            &&& counting::collisions(r.to_multiset()) == counting::collisions(
                spacings(s, cells@).to_multiset(),
            )
        }),
{
    let ghost s = cell::vals(v@);
    if v.len() == 0 {
        proof {
            assert(spacings(s, cells@) =~= s);
        }
        return;
    }
    let global_min: T = v[0];
    let global_max: T = v[v.len() - 1];
    proof {
        law_stand_in_is_exact(s, cells@, 1);
        T::lemma_bits();
        lemma_pow2_pos(T::bits());
        lemma2_to64();
        lemma_pow2_strictly_increases(0, T::bits());
        assert(s.first() == global_min.val() && s.last() == global_max.val());
        assert(s[s.len() - 1] < cells@);
        if s.len() > 1 {
            assert(s[0] <= s[s.len() - 1]);
        }
    }
    compute_spacings_with_predecessor(v, None);
    if global_min.equals(global_max) {
        v[0] = T::from_u64(1);
        proof {
            let r = cell::vals(v@);
            let g = gaps(s, s.len());
            assert(r =~= spacings(s, cells@).update(0, 1));
            assert(r =~= seq![1nat] + g);
            vstd::seq_lib::lemma_multiset_commutative(seq![1nat], g);
            assert(seq![1nat] =~= Seq::<nat>::empty().push(1));
            assert(r.to_multiset() =~= g.to_multiset().insert(1));
        }
    } else {
        let cells_m1: T = T::from_u128(cells.last);
        let rest: T = cells_m1.minus(global_max);
        v[0] = v[0].plus(rest);
        v[0] = v[0].plus(T::from_u64(1));
        assert(cell::vals(v@) =~= spacings(s, cells@));
    }
}

/// All cell indices are below the number of cells, which is at most one more than the greatest
/// number of the storage type.
pub open spec fn cells_fit<T: Value>(params: GridParams, decimate: bool) -> bool {
    pow2(params.shape(decimate).index_bits()) <= params.cells@ <= pow2(T::bits())
}

/// The points of a scan are below the number of cells, in any order.
pub proof fn lemma_points_within<P: Orbit>(p: P, g: Shape, n: nat, s: Seq<nat>, cells: nat)
    requires
        g.valid(),
        pow2(g.index_bits()) <= cells,
        s.to_multiset() == sampling::kept(p, g, n).to_multiset(),
    ensures
        within(s, cells),
{
    let all = sampling::kept(p, g, n);
    sampling::lemma_kept_bound(p, g, n);
    assert forall|i: int| 0 <= i < s.len() implies #[trigger] s[i] < cells by {
        assert(s.to_multiset().count(s[i]) > 0);
        assert(all.to_multiset().count(s[i]) > 0);
        let j = choose|j: int| 0 <= j < all.len() && all[j] == s[i];
        assert(all[j] < pow2(g.index_bits()));
    }
}

/// The counts of a birthday-spacings test on some points: the collisions of their spacings, and how
/// many points there are.
pub open spec fn birthday_counted(r: (usize, usize), points: Seq<nat>, cells: nat) -> bool {
    r.0 == birthday_collisions(points, cells) && r.1 == points.len()
}

/// The type in which the cells are stored does not change the counts, not even where the number of
/// cells is one more than the greatest number of the type: tests on the same points have the same
/// counts.
pub proof fn law_storage_changes_nothing(
    a: (usize, usize),
    b: (usize, usize),
    points: Seq<nat>,
    cells: nat,
)
    requires
        birthday_counted(a, points, cells),
        birthday_counted(b, points, cells),
    ensures
        a == b,
{
}

/// Runs a birthday-spacings test.
///
/// With decimation (`DECIMATE`), `points` · 2^(*t* · *d*) samples are scanned and the accepted ones
/// kept; without decimation exactly `points` cells are filled.
///
/// Returns the spacing-collision count and the number of points kept, or an error where decimation
/// keeps more points than `buf` holds. The spacings are left at the front of `buf`, in ascending
/// order.
pub fn run_birthday<
    T: Cell,
    P: Prng,
    const DIM: usize,
    const DECIMATE: bool,
    const FULL: bool,
>(prng: &mut P, params: &GridParams, buf: &mut [T], points: usize) -> (r: Result<
    (usize, usize),
    BinOverflow,
>)
    requires
        params.fits::<T>(DECIMATE),
        params.specialized(DIM, FULL),
        cells_fit::<T>(*params, DECIMATE),
        DECIMATE ==> collision::scan_fits(points, params.t, params.d),
        !DECIMATE ==> points <= old(buf)@.len(),
    ensures
        final(buf)@.len() == old(buf)@.len(),
        ({
            let g = params.shape(DECIMATE);
            let n = if DECIMATE {
                collision::scan_of(points, params.t, params.d)
            } else {
                points as nat
            };
            let all = sampling::kept(*old(prng), g, n);
            match r {
                Ok((collisions, kept)) => {
                    &&& birthday_counted((collisions, kept), all, params.cells@)
                    &&& kept <= old(buf)@.len()
                    &&& cell::vals(final(buf)@.take(kept as int)) == counting::in_ascending_order(
                        written_spacings(counting::in_ascending_order(all), params.cells@),
                    )
                    &&& final(buf)@.skip(kept as int) == old(buf)@.skip(kept as int)
                    &&& *final(prng) == sampling::sample_start(*old(prng), g, n)
                },
                Err(e) => {
                    &&& e == BinOverflow::DecimatedBirthdayRun
                    &&& DECIMATE
                    &&& all.len() > old(buf)@.len()
                    &&& exists|i: nat|
                        i <= n && *final(prng) == #[trigger] sampling::sample_start(
                            *old(prng),
                            g,
                            i,
                        )
                },
            }
        }),
{
    let ghost p = *prng;
    let ghost g = params.shape(DECIMATE);
    let ghost n = if DECIMATE {
        collision::scan_of(points, params.t, params.d)
    } else {
        points as nat
    };
    let ghost all = sampling::kept(p, g, n);
    let len: usize = if DECIMATE {
        let scan_len: usize = match scan_samples(points, params.t, params.d) {
            Some(len) => len,
            None => 0,
        };
        match scan_store::<T, P, DIM, DECIMATE, FULL, false>(
            prng,
            params,
            buf,
            scan_len,
            0,
            0,
            BinOverflow::DecimatedBirthdayRun,
        ) {
            Err(e) => {
                return Err(e);
            },
            Ok(len) => len,
        }
    } else {
        fill::<T, P, DIM, FULL>(prng, params, buf, points);
        points
    };
    let ghost filled = buf@;
    assert(filled.skip(len as int) == old(buf)@.skip(len as int));
    let (pts, rest) = buf.split_at_mut(len);
    T::sort_mt(pts);
    let ghost s = cell::vals(pts@);
    proof {
        assert(cell::vals(filled.take(len as int)) == all);
        counting::lemma_ascending_unique(s, all);
        lemma_points_within(p, g, n, s, params.cells@);
    }
    compute_spacings(pts, params.cells);
    let ghost written = cell::vals(pts@);
    T::sort_mt(pts);
    let c: usize = count_adjacent_equals(pts);
    proof {
        counting::lemma_ascending_unique(cell::vals(pts@), written);
        assert(buf@.take(len as int) =~= pts@);
        assert(buf@.skip(len as int) =~= filled.skip(len as int));
    }
    Ok((c, len))
}

/// Ascending elements are cut by a key that grows with them.
proof fn lemma_key_cuts(s: Seq<nat>, key: spec_fn(nat) -> nat, k: nat)
    requires
        counting::ascending(s),
        forall|x: nat, y: nat| x <= y ==> #[trigger] key(x) <= #[trigger] key(y),
    ensures
        ({
            let below = s.filter(|x: nat| key(x) < k).len();
            &&& below <= s.len()
            &&& forall|i: int| 0 <= i < s.len() ==> (key(#[trigger] s[i]) < k <==> i < below)
        }),
    decreases s.len(),
{
    reveal(Seq::filter);
    let p = |x: nat| key(x) < k;
    if s.len() > 0 {
        let init = s.drop_last();
        assert(counting::ascending(init)) by {
            assert forall|i: int, j: int| 0 <= i < j < init.len() implies #[trigger] init[i]
                <= #[trigger] init[j] by {
                assert(init[i] == s[i] && init[j] == s[j]);
            }
        }
        lemma_key_cuts(init, key, k);
        let below = init.filter(p).len();
        assert forall|i: int| 0 <= i < init.len() implies (key(#[trigger] s[i]) < k <==> i
            < below) by {
            assert(init[i] == s[i]);
        }
        if key(s.last()) < k {
            assert forall|i: int| 0 <= i < init.len() implies key(#[trigger] s[i]) < k by {
                assert(s[i] <= s[s.len() - 1]);
            }
            if below < init.len() {
                assert(key(s[below as int]) < k);
            }
        }
    }
}

/// The number of points in the intervals below `k`.
pub open spec fn below(all: Seq<nat>, key: spec_fn(nat) -> nat, k: nat) -> nat {
    counting::in_ascending_order(all).filter(|x: nat| key(x) < k).len()
}

/// The points of one interval, sorted, are a range of all the points, sorted.
pub proof fn lemma_interval_range(all: Seq<nat>, g: Shape, b: nat, k: nat)
    requires
        b <= g.index_bits(),
    ensures
        ({
            let key = common::interval_of(g, b);
            let s = counting::in_ascending_order(all);
            let this = all.filter(counting::has_key(key, k));
            &&& below(all, key, k) + this.len() == below(all, key, k + 1) <= s.len()
            &&& counting::in_ascending_order(this) == s.subrange(
                below(all, key, k) as int,
                below(all, key, k + 1) as int,
            )
        }),
{
    let key = common::interval_of(g, b);
    let s = counting::in_ascending_order(all);
    let this = all.filter(counting::has_key(key, k));
    let w = (g.index_bits() - b) as nat;
    lemma_pow2_pos(w);
    counting::lemma_in_ascending_order(all);
    assert forall|x: nat, y: nat| x <= y implies #[trigger] key(x) <= #[trigger] key(y) by {
        lemma_div_is_ordered(x as int, y as int, pow2(w) as int);
    }
    lemma_key_cuts(s, key, k);
    lemma_key_cuts(s, key, k + 1);
    let lo = below(all, key, k) as int;
    let hi = below(all, key, k + 1) as int;
    if lo > hi {
        assert(key(s[hi]) < k);
    }
    let p = counting::has_key(key, k);
    seqs::lemma_filter_range(s, p, lo, hi);
    seqs::lemma_filter_multiset(all, p);
    seqs::lemma_filter_multiset(s, p);
    seqs::lemma_filter_len_perm(all, s, p);
    let part = s.subrange(lo, hi);
    assert(counting::ascending(part)) by {
        assert forall|i: int, j: int| 0 <= i < j < part.len() implies #[trigger] part[i]
            <= #[trigger] part[j] by {
            assert(s[lo + i] <= s[lo + j]);
        }
    }
    counting::lemma_ascending_unique(part, this);
}

/// The same points, in whatever order, are sorted alike.
pub proof fn lemma_same_order(a: Seq<nat>, b: Seq<nat>)
    requires
        a.to_multiset() == b.to_multiset(),
    ensures
        counting::in_ascending_order(a) == counting::in_ascending_order(b),
        a.len() == b.len(),
{
    counting::lemma_in_ascending_order(a);
    counting::lemma_ascending_unique(counting::in_ascending_order(a), b);
    assert(a.len() == a.to_multiset().len());
    assert(b.len() == b.to_multiset().len());
}

/// The low `b` bits of a spacing: its class.
pub open spec fn class_of(b: nat) -> spec_fn(nat) -> nat {
    |x: nat| x % pow2(b)
}

/// The gaps of more points extend those of fewer.
proof fn lemma_gaps_step(s: Seq<nat>, n: nat)
    requires
        1 <= n < s.len(),
    ensures
        gaps(s, n + 1) == gaps(s, n).push((s[n as int] - s[n - 1]) as nat),
{
    assert(gaps(s, n + 1) =~= gaps(s, n).push((s[n as int] - s[n - 1]) as nat));
}

/// The spacings of class `j` among some.
pub open spec fn class_part(s: Seq<nat>, b: nat, j: nat) -> Seq<nat> {
    s.filter(counting::has_key(class_of(b), j))
}

/// Appends `x` to the spacings of class `j` if it belongs there; `None` where there is no room.
fn push_class<T: Cell>(
    class_buf: &mut [T],
    class_len: usize,
    x: T,
    b: usize,
    target: T,
    Ghost(so_far): Ghost<Seq<nat>>,
) -> (r: Option<usize>)
    requires
        b <= T::bits(),
        class_len <= old(class_buf)@.len(),
        cell::vals(old(class_buf)@.take(class_len as int)) == class_part(
            so_far,
            b as nat,
            target.val(),
        ),
    ensures
        final(class_buf)@.len() == old(class_buf)@.len(),
        ({
            let part = class_part(so_far.push(x.val()), b as nat, target.val());
            match r {
                Some(len) => {
                    &&& len == part.len() <= old(class_buf)@.len()
                    &&& cell::vals(final(class_buf)@.take(len as int)) == part
                    &&& class_len <= len
                    &&& final(class_buf)@.skip(len as int) == old(class_buf)@.skip(len as int)
                },
                None => part.len() > old(class_buf)@.len(),
            }
        }),
{
    let ghost before = class_buf@;
    proof {
        so_far.lemma_filter_push(
            x.val(),
            counting::has_key(class_of(b as nat), target.val()),
        );
        assert(cell::vals(before.take(class_len as int)).len() == class_len);
    }
    if x.low_bits(b).equals(target) {
        if class_len >= class_buf.len() {
            None
        } else {
            class_buf[class_len] = x;
            assert(class_buf@.skip(class_len + 1) =~= before.skip(class_len + 1));
            assert(cell::vals(class_buf@.take(class_len + 1)) =~= cell::vals(
                before.take(class_len as int),
            ).push(x.val()));
            Some(class_len + 1)
        }
    } else {
        Some(class_len)
    }
}

/// More spacings leave no fewer in a class.
proof fn lemma_class_part_grows(s: Seq<nat>, b: nat, j: nat, k: int)
    requires
        0 <= k <= s.len(),
    ensures
        class_part(s.take(k), b, j).len() <= class_part(s, b, j).len(),
{
    seqs::lemma_filter_take_len(s, counting::has_key(class_of(b), j), k);
}

/// A sweep of class `j` meets an interval that is too large before the class itself is: the
/// intervals before it fit, and so do the spacings of the class among the points in them.
pub open spec fn interval_overflows_first(
    all: Seq<nat>,
    key: spec_fn(nat) -> nat,
    b: nat,
    j: nat,
    interval_cap: nat,
    class_cap: nat,
) -> bool {
    let m = all.to_multiset();
    let s = counting::in_ascending_order(all);
    exists|k: nat|
        {
            &&& k < pow2(b)
            &&& (#[trigger] counting::class(m, key, k)).len() > interval_cap
            &&& collision::passes_fit(m, key, 0, k, interval_cap)
            &&& class_part(gaps(s, below(all, key, k)), b, j).len() <= class_cap
        }
}

/// More intervals hold no fewer points.
proof fn lemma_below_grows(all: Seq<nat>, g: Shape, b: nat, k: nat, l: nat)
    requires
        b <= g.index_bits(),
        1 <= k <= l,
    ensures
        ({
            let key = common::interval_of(g, b);
            below(all, key, k) <= below(all, key, l) <= counting::in_ascending_order(all).len()
        }),
    decreases l,
{
    lemma_interval_range(all, g, b, (l - 1) as nat);
    if k < l {
        lemma_below_grows(all, g, b, k, (l - 1) as nat);
    }
}

/// Where the class does not fit after interval `k`, and the intervals up to it do, no interval
/// overflows first.
pub(crate) proof fn lemma_class_overflows_first(
    all: Seq<nat>,
    g: Shape,
    b: nat,
    j: nat,
    k: nat,
    interval_cap: nat,
    class_cap: nat,
)
    requires
        b <= g.index_bits(),
        collision::passes_fit(
            all.to_multiset(),
            common::interval_of(g, b),
            0,
            k + 1,
            interval_cap,
        ),
        class_part(
            gaps(
                counting::in_ascending_order(all),
                below(all, common::interval_of(g, b), k + 1),
            ),
            b,
            j,
        ).len() > class_cap,
    ensures
        !interval_overflows_first(
            all,
            common::interval_of(g, b),
            b,
            j,
            interval_cap,
            class_cap,
        ),
{
    let key = common::interval_of(g, b);
    let s = counting::in_ascending_order(all);
    let m = all.to_multiset();
    assert forall|l: nat|
        k < l && (#[trigger] counting::class(m, key, l)).len() > interval_cap implies class_part(
        gaps(s, below(all, key, l)),
        b,
        j,
    ).len() > class_cap by {
        lemma_below_grows(all, g, b, k + 1, l);
        let few = gaps(s, below(all, key, k + 1));
        let many = gaps(s, below(all, key, l));
        assert(many.take(few.len() as int) =~= few);
        lemma_class_part_grows(many, b, j, few.len() as int);
    }
}

/// Appends the spacings of class `j` among those that end in one interval: `points` are its points,
/// sorted, `prev_max` is the last point before them, and what precedes is in `class_buf`.
fn append_interval<T: Cell>(
    points: &[T],
    prev_max: Option<T>,
    class_buf: &mut [T],
    class_len: usize,
    b: usize,
    target: T,
    Ghost(s): Ghost<Seq<nat>>,
    Ghost(from): Ghost<nat>,
) -> (r: Option<usize>)
    requires
        b <= T::bits(),
        counting::ascending(s),
        from + points@.len() <= s.len(),
        cell::vals(points@) == s.subrange(from as int, (from + points@.len()) as int),
        prev_max is None <==> from == 0,
        prev_max matches Some(x) ==> x.val() == s[from - 1],
        class_len <= old(class_buf)@.len(),
        cell::vals(old(class_buf)@.take(class_len as int)) == class_part(
            gaps(s, from),
            b as nat,
            target.val(),
        ),
    ensures
        final(class_buf)@.len() == old(class_buf)@.len(),
        ({
            let part = class_part(gaps(s, from + points@.len()), b as nat, target.val());
            match r {
                Some(len) => {
                    &&& len == part.len() <= old(class_buf)@.len()
                    &&& cell::vals(final(class_buf)@.take(len as int)) == part
                    &&& class_len <= len
                    &&& final(class_buf)@.skip(len as int) == old(class_buf)@.skip(len as int)
                },
                None => part.len() > old(class_buf)@.len(),
            }
        }),
{
    let mut len: usize = class_len;
    let mut i: usize = 0;
    let ghost total = from + points@.len();
    assert(cell::vals(class_buf@.take(class_len as int)).len() == class_len);
    while i < points.len()
        invariant
            i <= points@.len(),
            b <= T::bits(),
            counting::ascending(s),
            total == from + points@.len() <= s.len(),
            cell::vals(points@) == s.subrange(from as int, total as int),
            prev_max is None <==> from == 0,
            prev_max matches Some(x) ==> x.val() == s[from - 1],
            len <= class_buf@.len(),
            class_buf@.len() == old(class_buf)@.len(),
            class_len <= len,
            class_buf@.skip(len as int) == old(class_buf)@.skip(len as int),
            len == class_part(gaps(s, from + i as nat), b as nat, target.val()).len(),
            cell::vals(class_buf@.take(len as int)) == class_part(
                gaps(s, from + i as nat),
                b as nat,
                target.val(),
            ),
        decreases points@.len() - i,
    {
        let ghost n = from + i as nat;
        proof {
            assert(cell::vals(points@)[i as int] == s[n as int]);
            if i > 0 {
                assert(cell::vals(points@)[i - 1] == s[n - 1]);
            }
            if n > 0 {
                assert(s[n - 1] <= s[n as int]);
                lemma_gaps_step(s, n);
            } else {
                assert(gaps(s, 1) =~= gaps(s, 0));
            }
        }
        let spacing: Option<T> = if i > 0 {
            Some(points[i].minus(points[i - 1]))
        } else {
            match prev_max {
                Some(pm) => Some(points[0].minus(pm)),
                None => None,
            }
        };
        let ghost before = class_buf@;
        if let Some(x) = spacing {
            match push_class(class_buf, len, x, b, target, Ghost(gaps(s, n))) {
                None => {
                    proof {
                        let g = gaps(s, total);
                        assert(g.take(n as int) =~= gaps(s, n + 1));
                        lemma_class_part_grows(g, b as nat, target.val(), n as int);
                    }
                    return None;
                },
                Some(longer) => {
                    proof {
                        lemma_skip_more(before, old(class_buf)@, len as int, longer as int);
                    }
                    len = longer;
                },
            }
        }
        i += 1;
    }
    Some(len)
}

/// Where two sequences agree from one place on, they agree from a later one on.
proof fn lemma_skip_more<A>(a: Seq<A>, b: Seq<A>, k: int, l: int)
    requires
        a.skip(k) == b.skip(k),
        0 <= k <= l <= a.len() == b.len(),
    ensures
        a.skip(l) == b.skip(l),
{
    assert(a.skip(l) =~= a.skip(k).skip(l - k));
    assert(b.skip(l) =~= b.skip(k).skip(l - k));
}

/// Sorts the front of a buffer, with all threads or on this one.
fn sort_front<T: Cell>(buf: &mut [T], len: usize, all_threads: bool)
    requires
        len <= old(buf)@.len(),
    ensures
        final(buf)@.len() == old(buf)@.len(),
        cell::vals(final(buf)@.take(len as int)) == counting::in_ascending_order(
            cell::vals(old(buf)@.take(len as int)),
        ),
        final(buf)@.skip(len as int) == old(buf)@.skip(len as int),
{
    let ghost b0 = buf@;
    let (front, back) = buf.split_at_mut(len);
    if all_threads {
        T::sort_mt(front);
    } else {
        T::sort_st(front);
    }
    proof {
        counting::lemma_ascending_unique(cell::vals(front@), cell::vals(b0.take(len as int)));
        assert(buf@.take(len as int) =~= front@);
        assert(buf@.skip(len as int) =~= b0.skip(len as int));
    }
}

/// Sorts the front of a buffer and counts the collisions in it.
pub(crate) fn sort_and_count_front<T: Cell>(buf: &mut [T], len: usize, all_threads: bool) -> (count:
    usize)
    requires
        len <= old(buf)@.len(),
    ensures
        final(buf)@.len() == old(buf)@.len(),
        cell::vals(final(buf)@.take(len as int)) == counting::in_ascending_order(
            cell::vals(old(buf)@.take(len as int)),
        ),
        final(buf)@.skip(len as int) == old(buf)@.skip(len as int),
        count == counting::collisions(cell::vals(old(buf)@.take(len as int)).to_multiset()),
{
    proof {
        counting::lemma_in_ascending_order(cell::vals(buf@.take(len as int)));
    }
    sort_front(buf, len, all_threads);
    let front: &[T] = vstd::slice::slice_subrange(&*buf, 0, len);
    assert(front@ =~= buf@.take(len as int));
    count_adjacent_equals(front)
}

/// How far a distance sweep has come.
pub(crate) struct Sweep<T: Cell> {
    /// The spacings of the class so far.
    pub class_len: usize,
    /// The points so far.
    pub points: usize,
    /// The first of them, in ascending order.
    pub min: Option<T>,
    /// The last of them.
    pub max: Option<T>,
}

impl<T: Cell> Sweep<T> {
    /// The points so far are the first ones of `s`, and `class_buf` holds their spacings of class
    /// `j`.
    pub(crate) open spec fn holds(
        self,
        s: Seq<nat>,
        class_buf: Seq<T>,
        b: nat,
        j: nat,
    ) -> bool {
        let part = class_part(gaps(s, self.points as nat), b, j);
        &&& self.points <= s.len()
        &&& self.min is None <==> self.points == 0
        &&& self.max is None <==> self.points == 0
        &&& self.min matches Some(x) ==> x.val() == s[0]
        &&& self.max matches Some(x) ==> x.val() == s[self.points - 1]
        &&& self.class_len == part.len() <= class_buf.len()
        &&& cell::vals(class_buf.take(self.class_len as int)) == part
    }

    /// A sweep that has not begun.
    pub(crate) fn new(
        class_buf: &[T],
        Ghost(s): Ghost<Seq<nat>>,
        Ghost(b): Ghost<nat>,
        Ghost(j): Ghost<nat>,
    ) -> (sweep: Self)
        ensures
            sweep.holds(s, class_buf@, b, j),
            sweep.points == 0,
    {
        proof {
            reveal(Seq::filter);
            assert(gaps(s, 0) =~= Seq::<nat>::empty());
            assert(class_part(gaps(s, 0), b, j) =~= Seq::<nat>::empty());
            assert(cell::vals(class_buf@.take(0)) =~= Seq::<nat>::empty());
        }
        Sweep { class_len: 0, points: 0, min: None, max: None }
    }

    /// Takes in the points of the next interval, which are at the front of `scratch` and are sorted
    /// there. Returns whether the class still fits its buffer.
    pub(crate) fn add_interval(
        &mut self,
        scratch: &mut [T],
        len: usize,
        all_threads: bool,
        class_buf: &mut [T],
        b: usize,
        target: T,
        Ghost(s): Ghost<Seq<nat>>,
        Ghost(cells): Ghost<nat>,
    ) -> (fits: bool)
        requires
            b <= T::bits(),
            counting::ascending(s),
            s.len() <= usize::MAX,
            len <= old(scratch)@.len(),
            old(self).points + len <= s.len(),
            counting::in_ascending_order(cell::vals(old(scratch)@.take(len as int))) == s.subrange(
                old(self).points as int,
                old(self).points + len,
            ),
            old(self).holds(s, old(class_buf)@, b as nat, target.val()),
        ensures
            final(scratch)@.len() == old(scratch)@.len(),
            final(class_buf)@.len() == old(class_buf)@.len(),
            fits ==> final(self).holds(s, final(class_buf)@, b as nat, target.val()),
            fits ==> final(self).points == old(self).points + len,
            fits ==> old(self).class_len <= final(self).class_len,
            fits ==> final(class_buf)@.skip(final(self).class_len as int) == old(
                class_buf,
            )@.skip(final(self).class_len as int),
            !fits ==> class_part(stored_spacings(s, cells), b as nat, target.val()).len()
                > old(class_buf)@.len(),
            !fits ==> class_part(
                gaps(s, (old(self).points + len) as nat),
                b as nat,
                target.val(),
            ).len() > old(class_buf)@.len(),
    {
        if len == 0 {
            return true;
        }
        let ghost from = self.points;
        sort_front(scratch, len, all_threads);
        let interval: &[T] = vstd::slice::slice_subrange(&*scratch, 0, len);
        assert(interval@ =~= scratch@.take(len as int));
        let interval_min: T = interval[0];
        let interval_max: T = interval[len - 1];
        proof {
            let part = cell::vals(interval@);
            assert(part == s.subrange(from as int, from + len));
            assert(part[0] == s[from as int]);
            assert(part[len - 1] == s[from + len - 1]);
        }
        match append_interval(
            interval,
            self.max,
            class_buf,
            self.class_len,
            b,
            target,
            Ghost(s),
            Ghost(from as nat),
        ) {
            None => {
                proof {
                    let seen = gaps(s, (from + len) as nat);
                    let stored = stored_spacings(s, cells);
                    lemma_gaps_of_stored(s, cells, (from + len) as nat);
                    lemma_class_part_grows(stored, b as nat, target.val(), seen.len() as int);
                }
                false
            },
            Some(longer) => {
                self.class_len = longer;
                if self.min.is_none() {
                    self.min = Some(interval_min);
                }
                self.max = Some(interval_max);
                self.points = self.points + len;
                true
            },
        }
    }

    /// Takes in the wrap-around after all points: the number of spacings of the class, or `None`
    /// where they do not fit its buffer.
    pub(crate) fn finish(
        &self,
        class_buf: &mut [T],
        cells: &CellCount,
        b: usize,
        target: T,
        Ghost(s): Ghost<Seq<nat>>,
    ) -> (r: Option<usize>)
        requires
            b <= T::bits(),
            counting::ascending(s),
            within(s, cells@),
            cells@ <= pow2(T::bits()),
            self.points == s.len(),
            self.holds(s, old(class_buf)@, b as nat, target.val()),
        ensures
            final(class_buf)@.len() == old(class_buf)@.len(),
            ({
                let part = class_part(stored_spacings(s, cells@), b as nat, target.val());
                match r {
                    Some(len) => {
                        &&& len == part.len() <= old(class_buf)@.len()
                        &&& cell::vals(final(class_buf)@.take(len as int)) == part
                        &&& self.class_len <= len
                        &&& final(class_buf)@.skip(len as int) == old(class_buf)@.skip(len as int)
                    },
                    None => part.len() > old(class_buf)@.len(),
                }
            }),
    {
        if let (Some(gmin), Some(gmax)) = (self.min, self.max) {
            if !gmin.equals(gmax) {
                proof {
                    T::lemma_bits();
                    lemma2_to64();
                    lemma_pow2_strictly_increases(0, T::bits());
                    assert(s[0] <= s[s.len() - 1]);
                    assert(s[s.len() - 1] < cells@);
                }
                let cells_m1: T = T::from_u128(cells.last);
                let wrap: T = cells_m1.minus(gmax).plus(gmin).plus(T::from_u64(1));
                return push_class(
                    class_buf,
                    self.class_len,
                    wrap,
                    b,
                    target,
                    Ghost(gaps(s, s.len())),
                );
            }
        }
        Some(self.class_len)
    }
}

/// One distance sweep: walks the value intervals in increasing order and collects the spacings of
/// class `j` in `class_buf`, while `scratch` holds the points of one interval at a time.
///
/// Returns how many spacings the class has, how many points there are, and where the scan ends.
fn sweep_class<T: Cell, P: Prng, const DIM: usize, const DECIMATE: bool, const FULL: bool>(
    snapshot: P,
    params: &GridParams,
    class_buf: &mut [T],
    scratch: &mut [T],
    scan_len: usize,
    b: usize,
    j: u64,
) -> (r: Result<(usize, usize, P), BinOverflow>)
    requires
        params.fits::<T>(DECIMATE),
        params.specialized(DIM, FULL),
        cells_fit::<T>(*params, DECIMATE),
        1 <= b <= params.shape(DECIMATE).index_bits(),
        b < 64,
        j < pow2(b as nat),
    ensures
        final(class_buf)@.len() == old(class_buf)@.len(),
        final(scratch)@.len() == old(scratch)@.len(),
        ({
            let g = params.shape(DECIMATE);
            let all = sampling::kept(snapshot, g, scan_len as nat);
            let s = counting::in_ascending_order(all);
            let key = common::interval_of(g, b as nat);
            let m = all.to_multiset();
            let part = class_part(stored_spacings(s, params.cells@), b as nat, j as nat);
            let interval_first = interval_overflows_first(
                all,
                key,
                b as nat,
                j as nat,
                old(scratch)@.len(),
                old(class_buf)@.len(),
            );
            match r {
                Ok((len, points, end)) => {
                    &&& len == part.len() <= old(class_buf)@.len()
                    &&& cell::vals(final(class_buf)@.take(len as int)) == part
                    &&& final(class_buf)@.skip(len as int) == old(class_buf)@.skip(len as int)
                    &&& points == all.len()
                    &&& collision::passes_fit(m, key, 0, pow2(b as nat), old(scratch)@.len())
                    &&& end == sampling::sample_start(snapshot, g, scan_len as nat)
                },
                Err(BinOverflow::BirthdayValueInterval) => interval_first,
                Err(e) => {
                    &&& e == BinOverflow::BirthdaySpacingsClass
                    &&& part.len() > old(class_buf)@.len()
                    &&& !interval_first
                },
            }
        }),
{
    let ghost g = params.shape(DECIMATE);
    let ghost n = scan_len as nat;
    let ghost all = sampling::kept(snapshot, g, n);
    let ghost s = counting::in_ascending_order(all);
    let ghost key = common::interval_of(g, b as nat);
    let ghost m = all.to_multiset();
    let ghost cells = params.cells@;
    let ghost bn = b as nat;
    let ghost jn = j as nat;
    let ghost cap = class_buf@.len();
    let ghost scap = scratch@.len();
    proof {
        counting::lemma_in_ascending_order(all);
        sampling::lemma_kept_bound(snapshot, g, n);
        lemma_points_within(snapshot, g, n, s, cells);
        T::lemma_bits();
        if b < T::bits() {
            lemma_pow2_strictly_increases(bn, T::bits());
        }
        lemma_none_below(all, key);
    }
    let num_passes: u64 = passes_of(b);
    let target: T = T::from_u64(j);
    let mut sweep: Sweep<T> = Sweep::new(&*class_buf, Ghost(s), Ghost(bn), Ghost(jn));
    let mut end_state = snapshot;
    let mut k: u64 = 0;
    while k < num_passes
        invariant
            k <= num_passes,
            num_passes == pow2(bn),
            bn == b,
            jn == j,
            params.fits::<T>(DECIMATE),
            params.specialized(DIM, FULL),
            1 <= b <= g.index_bits(),
            g.index_bits() <= T::bits(),
            target.val() == jn,
            g == params.shape(DECIMATE),
            n == scan_len,
            all == sampling::kept(snapshot, g, n),
            s == counting::in_ascending_order(all),
            s.len() == all.len(),
            all.len() <= n,
            counting::ascending(s),
            key == common::interval_of(g, bn),
            m == all.to_multiset(),
            cells == params.cells@,
            cap == class_buf@.len(),
            cap == old(class_buf)@.len(),
            scap == scratch@.len(),
            scap == old(scratch)@.len(),
            sweep.points == below(all, key, k as nat),
            sweep.holds(s, class_buf@, bn, jn),
            class_buf@.skip(sweep.class_len as int) == old(class_buf)@.skip(
                sweep.class_len as int,
            ),
            collision::passes_fit(m, key, 0, k as nat, scap),
            k > 0 ==> end_state == sampling::sample_start(snapshot, g, n),
        decreases num_passes - k,
    {
        let ghost kn = k as nat;
        proof {
            lemma_interval_range(all, g, bn, kn);
            counting::lemma_filter_is_class(all, key, kn);
        }
        let mut local = snapshot;
        let len: usize = match scan_store::<T, P, DIM, DECIMATE, FULL, true>(
            &mut local,
            params,
            scratch,
            scan_len,
            k,
            b,
            BinOverflow::BirthdayValueInterval,
        ) {
            Err(e) => {
                assert(counting::class(m, key, kn).len() > scap);
                return Err(e);
            },
            Ok(len) => len,
        };
        end_state = local;
        proof {
            assert forall|i: nat| 0 <= i < kn + 1 implies (#[trigger] counting::class(
                m,
                key,
                i,
            )).len() <= scap by {}
        }
        let ghost held = class_buf@;
        let ghost held_len = sweep.class_len as int;
        if !sweep.add_interval(scratch, len, false, class_buf, b, target, Ghost(s), Ghost(cells)) {
            proof {
                lemma_class_overflows_first(all, g, bn, jn, kn, scap, cap);
            }
            return Err(BinOverflow::BirthdaySpacingsClass);
        }
        proof {
            lemma_skip_more(held, old(class_buf)@, held_len, sweep.class_len as int);
        }
        k += 1;
    }
    let ghost held = class_buf@;
    proof {
        lemma_all_below(all, snapshot, g, n, bn);
    }
    match sweep.finish(class_buf, params.cells, b, target, Ghost(s)) {
        None => Err(BinOverflow::BirthdaySpacingsClass),
        Some(class_len) => {
            proof {
                lemma_skip_more(held, old(class_buf)@, sweep.class_len as int, class_len as int);
            }
            Ok((class_len, sweep.points, end_state))
        },
    }
}

/// No points lie in the intervals below the first one.
pub proof fn lemma_none_below(all: Seq<nat>, key: spec_fn(nat) -> nat)
    ensures
        below(all, key, 0) == 0,
{
    let s = counting::in_ascending_order(all);
    let none = s.filter(|x: nat| key(x) < 0);
    seqs::lemma_filter_multiset(s, |x: nat| key(x) < 0);
    assert(none.to_multiset() =~= Multiset::<nat>::empty());
    assert(none.len() == none.to_multiset().len());
}

/// The gaps of the first points are a prefix of the stored spacings.
proof fn lemma_gaps_of_stored(s: Seq<nat>, cells: nat, n: nat)
    requires
        n <= s.len(),
    ensures
        gaps(s, n).len() <= stored_spacings(s, cells).len(),
        stored_spacings(s, cells).take(gaps(s, n).len() as int) == gaps(s, n),
{
    assert(stored_spacings(s, cells).take(gaps(s, n).len() as int) =~= gaps(s, n));
}

/// All points lie in the intervals below 2^`b`.
pub proof fn lemma_all_below<P: Orbit>(all: Seq<nat>, p: P, g: Shape, n: nat, b: nat)
    requires
        g.valid(),
        b <= g.index_bits(),
        all == sampling::kept(p, g, n),
    ensures
        below(all, common::interval_of(g, b), pow2(b)) == all.len(),
{
    let key = common::interval_of(g, b);
    let s = counting::in_ascending_order(all);
    let q = |x: nat| key(x) < pow2(b);
    counting::lemma_in_ascending_order(all);
    lemma_points_within(p, g, n, s, pow2(g.index_bits()));
    assert forall|i: int| 0 <= i < s.len() implies (q(#[trigger] s[i]) <==> 0 <= i < s.len()) by {
        collision::lemma_interval_exists(g, b, s[i]);
    }
    seqs::lemma_filter_range(s, q, 0, s.len() as int);
}

/// Every spacing is in one of the 2^`b` classes: over all of them, the collisions of the classes
/// add up to those of the plain test on the same points.
pub proof fn law_birthday_tradeoff_exact(points: Seq<nat>, cells: nat, b: nat)
    requires
        within(points, cells),
    ensures
        ({
            let s = counting::in_ascending_order(points);
            counting::class_collisions(
                stored_spacings(s, cells).to_multiset(),
                class_of(b),
                0,
                pow2(b),
            ) == birthday_collisions(points, cells)
        }),
{
    let s = counting::in_ascending_order(points);
    let m = stored_spacings(s, cells).to_multiset();
    counting::lemma_in_ascending_order(points);
    assert forall|i: int| 0 <= i < s.len() implies #[trigger] s[i] < cells by {
        assert(s.to_multiset().count(s[i]) > 0);
        let j = choose|j: int| 0 <= j < points.len() && points[j] == s[i];
        assert(points[j] < cells);
    }
    lemma_pow2_pos(b);
    assert forall|x: nat| #[trigger] m.count(x) > 0 implies class_of(b)(x) < pow2(b) by {
        lemma_mod_bound(x as int, pow2(b) as int);
    }
    counting::law_classes_add_up(m, class_of(b), pow2(b));
    law_stand_in_is_exact(s, cells, 1);
}

/// There are no more stored spacings than points.
pub proof fn lemma_stored_bound(s: Seq<nat>, cells: nat, b: nat, lo: nat, hi: nat)
    requires
        lo <= hi <= pow2(b),
    ensures
        ({
            let m = stored_spacings(s, cells).to_multiset();
            counting::class_collisions(m, class_of(b), lo, hi) <= s.len()
        }),
{
    let m = stored_spacings(s, cells).to_multiset();
    lemma_pow2_pos(b);
    assert forall|x: nat| #[trigger] m.count(x) > 0 implies class_of(b)(x) < pow2(b) by {
        lemma_mod_bound(x as int, pow2(b) as int);
    }
    counting::law_classes_add_up(m, class_of(b), pow2(b));
    counting::lemma_classes_cut(m, class_of(b), 0, lo, pow2(b));
    counting::lemma_classes_cut(m, class_of(b), lo, hi, pow2(b));
    counting::lemma_distinct_bound(m);
    assert(stored_spacings(s, cells).len() == m.len());
}

/// Runs a birthday-spacings test using a space/time tradeoff, with two nested levels of 2^*b* passes
/// each.
///
/// - **Inner (distance) level:** the cell index is split into 2^*b* contiguous value intervals by its
///   top *b* bits, walked in increasing order. Within an interval the points are generated and
///   sorted, and their spacings taken; the maximum of the intervals before is carried as the border
///   predecessor, and the wrap-around is applied once. These are exactly the spacings of all points.
/// - **Outer (counting) level:** spacings are classified by their *low* *b* bits, which are balanced
///   though spacings cluster near zero. Only the spacings of one class are kept, sorted, and
///   counted; equal spacings share all bits hence the class, so the counts sum to the exact total.
///
/// Only one class, in `class_buf`, and the points of one interval, in a buffer of `interval_cap`
/// places, are ever resident.
///
/// Returns the spacing-collision count, over all classes or the one that is asked for, and the number
/// of points kept; the tally of each class is appended to `progress`, and the spacings of the last
/// class are left at the front of `class_buf`, in ascending order. Where an interval or a class does
/// not fit its buffer, that is an error, and the generator is left as it was.
pub fn run_birthday_tradeoff<
    T: Cell,
    P: Prng,
    const DIM: usize,
    const DECIMATE: bool,
    const FULL: bool,
>(
    prng: &mut P,
    params: &GridParams,
    class_buf: &mut [T],
    interval_cap: usize,
    points: usize,
    b: usize,
    pass: Option<u64>,
    progress: &mut impl Reporter,
) -> (r: Result<(usize, usize), BinOverflow>)
    requires
        params.fits::<T>(DECIMATE),
        params.specialized(DIM, FULL),
        cells_fit::<T>(*params, DECIMATE),
        collision::scan_fits(points, params.t, params.d),
        1 <= b <= params.shape(DECIMATE).index_bits(),
        b < 64,
        pass matches Some(k) ==> k < pow2(b as nat),
    ensures
        final(class_buf)@.len() == old(class_buf)@.len(),
        ({
            let g = params.shape(DECIMATE);
            let n = collision::scan_of(points, params.t, params.d);
            let all = sampling::kept(*old(prng), g, n);
            let spaced = stored_spacings(counting::in_ascending_order(all), params.cells@);
            let stored = spaced.to_multiset();
            let (lo, hi) = collision::pass_range(b, pass);
            let cap = old(class_buf)@.len();
            let intervals_fit = collision::passes_fit(
                all.to_multiset(),
                common::interval_of(g, b as nat),
                0,
                pow2(b as nat),
                interval_cap as nat,
            );
            let interval_first = interval_overflows_first(
                all,
                common::interval_of(g, b as nat),
                b as nat,
                lo,
                interval_cap as nat,
                cap,
            );
            match r {
                Ok((collisions, kept)) => {
                    &&& collisions == counting::class_collisions(
                        stored,
                        class_of(b as nat),
                        lo,
                        hi,
                    )
                    &&& kept == all.len()
                    &&& intervals_fit
                    &&& collision::passes_fit(stored, class_of(b as nat), lo, hi, cap)
                    &&& final(progress).told() == old(progress).told() + progress::parts(
                        collision::pass_tallies(
                            stored,
                            class_of(b as nat),
                            lo,
                            hi,
                        ),
                    )
                    &&& cell::vals(final(class_buf)@) == collision::left_by_passes(
                        cell::vals(old(class_buf)@),
                        spaced,
                        class_of(b as nat),
                        lo,
                        hi,
                    )
                    &&& ({
                        let last = class_part(spaced, b as nat, (hi - 1) as nat);
                        cell::vals(final(class_buf)@.take(last.len() as int))
                            == counting::in_ascending_order(last)
                    })
                    &&& *final(prng) == sampling::sample_start(*old(prng), g, n)
                },
                Err(e) => {
                    &&& e == (if interval_first {
                        BinOverflow::BirthdayValueInterval
                    } else {
                        BinOverflow::BirthdaySpacingsClass
                    })
                    &&& interval_first ==> final(progress).told() == old(progress).told()
                    &&& !interval_first ==> collision::stops_at_pass(
                        stored,
                        class_of(b as nat),
                        lo,
                        hi,
                        cap,
                        old(progress).told(),
                        final(progress).told(),
                    )
                    &&& *final(prng) == *old(prng)
                },
            }
        }),
{
    let ghost p = *prng;
    let ghost g = params.shape(DECIMATE);
    let ghost n = collision::scan_of(points, params.t, params.d);
    let ghost all = sampling::kept(p, g, n);
    let ghost s = counting::in_ascending_order(all);
    let ghost spaced = stored_spacings(s, params.cells@);
    let ghost stored = spaced.to_multiset();
    let ghost low = class_of(b as nat);
    let ghost cap = class_buf@.len();
    let ghost log0 = progress.told();
    let ghost vals0 = cell::vals(class_buf@);
    let ghost intervals_fit = collision::passes_fit(
        all.to_multiset(),
        common::interval_of(g, b as nat),
        0,
        pow2(b as nat),
        interval_cap as nat,
    );
    let num_passes: u64 = passes_of(b);
    let (pass_lo, pass_hi): (u64, u64) = match pass {
        Some(k) => (k, k + 1),
        None => (0, num_passes),
    };
    let ghost lo = pass_lo as nat;
    let ghost hi = pass_hi as nat;
    let scan_len: usize = match scan_samples(points, params.t, params.d) {
        Some(len) => len,
        None => 0,
    };
    let mut scratch: Vec<T> = vec![T::zero(); interval_cap];
    let mut end_state = *prng;
    let mut total_coll: usize = 0;
    let mut total_points: usize = 0;
    let mut j: u64 = pass_lo;
    proof {
        counting::lemma_in_ascending_order(all);
        sampling::lemma_kept_bound(p, g, n);
        assert(collision::pass_tallies(stored, low, lo, lo) =~= Seq::<Tally>::empty());
    }
    while j < pass_hi
        invariant
            pass_lo <= j <= pass_hi,
            pass_hi <= pow2(b as nat),
            lo == pass_lo,
            hi == pass_hi,
            (lo, hi) == collision::pass_range(b, pass),
            params.fits::<T>(DECIMATE),
            params.specialized(DIM, FULL),
            cells_fit::<T>(*params, DECIMATE),
            1 <= b <= g.index_bits(),
            b < 64,
            p == *old(prng),
            *prng == p,
            g == params.shape(DECIMATE),
            n == collision::scan_of(points, params.t, params.d),
            n == scan_len,
            all == sampling::kept(p, g, n),
            all.len() <= n,
            s == counting::in_ascending_order(all),
            s.len() == all.len(),
            spaced == stored_spacings(s, params.cells@),
            stored == spaced.to_multiset(),
            low == class_of(b as nat),
            cap == class_buf@.len(),
            cap == old(class_buf)@.len(),
            scratch@.len() == interval_cap,
            log0 == old(progress).told(),
            intervals_fit == collision::passes_fit(
                all.to_multiset(),
                common::interval_of(g, b as nat),
                0,
                pow2(b as nat),
                interval_cap as nat,
            ),
            collision::passes_fit(stored, low, lo, j as nat, cap),
            total_coll == counting::class_collisions(stored, low, lo, j as nat),
            progress.told() == log0 + progress::parts(
                collision::pass_tallies(stored, low, lo, j as nat),
            ),
            vals0 == cell::vals(old(class_buf)@),
            cell::vals(class_buf@) == collision::left_by_passes(vals0, spaced, low, lo, j as nat),
            j > pass_lo ==> ({
                let last = class_part(spaced, b as nat, (j - 1) as nat);
                cell::vals(class_buf@.take(last.len() as int)) == counting::in_ascending_order(last)
            }),
            j > pass_lo ==> {
                &&& intervals_fit
                &&& total_points == all.len()
                &&& end_state == sampling::sample_start(p, g, n)
            },
        decreases pass_hi - j,
    {
        let ghost jn = j as nat;
        let ghost this = counting::class(stored, low, jn);
        let ghost before = class_buf@;
        proof {
            lemma_pow2_pos(b as nat);
            counting::lemma_filter_is_class(spaced, low, jn);
            lemma_stored_bound(s, params.cells@, b as nat, lo, jn + 1);
        }
        match sweep_class::<T, P, DIM, DECIMATE, FULL>(
            *prng,
            params,
            class_buf,
            scratch.as_mut_slice(),
            scan_len,
            b,
            j,
        ) {
            Err(e) => {
                proof {
                    assert(progress.told() =~= log0 + progress::parts(
                        collision::pass_tallies(stored, low, lo, jn),
                    ));
                    if j == pass_lo {
                        assert(progress.told() =~= log0);
                    }
                }
                return Err(e);
            },
            Ok((class_len, kept, end)) => {
                let c: usize = sort_and_count_front(class_buf, class_len, false);
                assert(c == counting::collisions(this));
                total_coll += c;
                progress.part_done(Tally { points: class_len, collisions: c });
                total_points = kept;
                end_state = end;
                proof {
                    assert(collision::pass_tallies(stored, low, lo, jn + 1)
                        =~= collision::pass_tallies(stored, low, lo, jn).push(
                        collision::tally_of(this),
                    ));
                    assert(progress.told() =~= log0 + progress::parts(
                        collision::pass_tallies(stored, low, lo, jn + 1),
                    ));
                    collision::lemma_overlaid(before, class_buf@, class_len as int);
                    counting::lemma_in_ascending_order(class_part(spaced, b as nat, jn));
                    assert forall|i: nat| lo <= i < jn + 1 implies (#[trigger] counting::class(
                        stored,
                        low,
                        i,
                    )).len() <= cap by {}
                }
            },
        }
        j += 1;
    }
    *prng = end_state;
    Ok((total_coll, total_points))
}

/// The class of a spacing is its lower `b` bits: the 2^`b` classes are those of the remainders
/// below 2^`b`, each of them is the class of some spacing, and two spacings share a class if and
/// only if their lower `b` bits agree.
pub proof fn law_class_is_the_low_bits(b: nat, q: nat, x: nat)
    requires
        x < pow2(b),
    ensures
        class_of(b)(q * pow2(b) + x) == x,
        class_of(b)(x) == x,
{
    lemma_pow2_pos(b);
    lemma_fundamental_div_mod_converse_mod(
        (q * pow2(b) + x) as int,
        pow2(b) as int,
        q as int,
        x as int,
    );
    lemma_small_mod(x, pow2(b));
}

/// Class `j` of some spacings has those with remainder `j` modulo 2^`b`, in their order.
pub proof fn law_class_part_has_the_remainder(s: Seq<nat>, b: nat, j: nat)
    ensures
        class_part(s, b, j) == s.filter(|x: nat| x % pow2(b) == j),
        class_part(s, b, j).to_multiset() == counting::class(s.to_multiset(), class_of(b), j),
{
    let low = |x: nat| x % pow2(b) == j;
    let has = counting::has_key(class_of(b), j);
    assert forall|x: nat| #[trigger] has(x) == low(x) by {
        lemma_pow2_pos(b);
        lemma_mod_bound(x as int, pow2(b) as int);
        lemma_fundamental_div_mod(x as int, pow2(b) as int);
        lemma_mul_is_commutative(pow2(b) as int, x as int / pow2(b) as int);
        law_class_is_the_low_bits(b, x / pow2(b), x % pow2(b));
    }
    assert(has =~= low);
    counting::lemma_filter_is_class(s, class_of(b), j);
}

/// Going on from a point by the spacing after it reaches the next point, and from the last one the
/// first, after a round of the circle.
pub proof fn law_spacings_lead_around(s: Seq<nat>, cells: nat, i: int)
    requires
        counting::ascending(s),
        within(s, cells),
        0 <= i < s.len(),
    ensures
        spacings(s, cells).len() == s.len(),
        i > 0 ==> s[i - 1] + spacings(s, cells)[i] == s[i],
        s.last() + spacings(s, cells)[0] == cells + s.first(),
{
    if i > 0 {
        assert(s[i - 1] <= s[i]);
    }
    assert(s[s.len() - 1] < cells);
}

/// The spacings that are stored are the distances between neighbours, then the way from the last
/// point around to the first one, unless all points coincide.
pub proof fn law_stored_spacings(s: Seq<nat>, cells: nat, i: int)
    requires
        counting::ascending(s),
        within(s, cells),
        s.len() > 0,
    ensures
        s.first() == s.last() ==> stored_spacings(s, cells).len() == s.len() - 1,
        s.first() != s.last() ==> {
            &&& stored_spacings(s, cells).len() == s.len()
            &&& s.last() + stored_spacings(s, cells).last() == cells + s.first()
        },
        0 <= i < s.len() - 1 ==> s[i] + stored_spacings(s, cells)[i] == s[i + 1],
{
    if 0 <= i < s.len() - 1 {
        assert(s[i] <= s[i + 1]);
    }
    assert(s[s.len() - 1] < cells);
}

/// The gaps are the distances between neighbours.
pub proof fn law_gaps(s: Seq<nat>, n: nat, i: int)
    requires
        counting::ascending(s),
        n <= s.len(),
        0 <= i < n - 1,
    ensures
        gaps(s, n).len() == n - 1,
        s[i] + gaps(s, n)[i] == s[i + 1],
{
    assert(s[i] <= s[i + 1]);
}

/// The spacings are written in the place of the points; only where all points coincide, 1 stands
/// for the way around.
pub proof fn law_written_spacings(s: Seq<nat>, cells: nat, i: int)
    requires
        0 <= i < s.len(),
    ensures
        written_spacings(s, cells).len() == s.len(),
        i > 0 || s.first() != s.last() ==> written_spacings(s, cells)[i] == spacings(s, cells)[i],
        s.first() == s.last() ==> written_spacings(s, cells)[0] == 1,
{
}

/// The birthday-spacings test counts, among the spacings of the sorted points on the circle, those
/// that occurred already: the collisions and the distinct spacings add up to the points.
pub proof fn law_birthday_counts_equal_spacings(
    points: Seq<nat>,
    cells: nat,
    s: Seq<nat>,
    distances: Seq<nat>,
)
    requires
        counting::ascending(s),
        s.to_multiset() == points.to_multiset(),
        within(s, cells),
        distances.len() == s.len(),
        forall|i: int| 0 < i < s.len() ==> s[i - 1] + #[trigger] distances[i] == s[i],
        s.len() > 0 ==> s.last() + distances[0] == cells + s.first(),
    ensures
        birthday_collisions(points, cells) + distances.to_set().len() == points.len(),
{
    counting::lemma_ascending_unique(s, points);
    assert(s.len() == s.to_multiset().len());
    assert(points.len() == points.to_multiset().len());
    assert forall|i: int| 0 <= i < s.len() implies spacings(s, cells)[i]
        == #[trigger] distances[i] by {
        law_spacings_lead_around(s, cells, i);
    }
    assert(spacings(s, cells) =~= distances);
    counting::law_collisions_and_taken_cells(distances);
}

/// The number of points in the intervals below `k`, in whatever order the points are.
pub proof fn law_below_counts(all: Seq<nat>, key: spec_fn(nat) -> nat, k: nat)
    ensures
        below(all, key, k) == all.filter(|x: nat| key(x) < k).len(),
{
    let q = |x: nat| key(x) < k;
    counting::lemma_in_ascending_order(all);
    seqs::lemma_filter_len_perm(counting::in_ascending_order(all), all, q);
}

/// A birthday-spacings test counts, among the spacings of its points on the circle, those that
/// occurred already. Without decimation its points are the cells of the next `points` samples, with
/// decimation the accepted ones of `points` · 2^(*t* · *d*) samples; only then it can fail, if and
/// only if there are more of them than places.
pub proof fn law_run_birthday<
    T: Cell,
    P: Prng,
    const DIM: usize,
    const DECIMATE: bool,
    const FULL: bool,
>(
    prng: &mut P,
    params: &GridParams,
    buf: &mut [T],
    points: usize,
    r: Result<(usize, usize), BinOverflow>,
    g: Shape,
    n: nat,
)
    requires
        g.u == params.u,
        g.t == params.t,
        g.s == params.s,
        DECIMATE ==> g.d == params.d && n == points * pow2((params.t * params.d) as nat),
        !DECIMATE ==> g.d == 0 && n == points,
        call_ensures(
            run_birthday::<T, P, DIM, DECIMATE, FULL>,
            (prng, params, buf, points),
            r,
        ),
    ensures
        ({
            let all = sampling::kept(*old(prng), g, n);
            let distances = spacings(counting::in_ascending_order(all), params.cells@);
            &&& r matches Ok((collisions, kept)) ==> {
                &&& kept == all.len()
                &&& collisions + distances.to_set().len() == all.len()
                &&& *final(prng) == prng::advance(*old(prng), n * g.t)
                &&& counting::ascending(cell::vals(final(buf)@.take(kept as int)))
                &&& cell::vals(final(buf)@.take(kept as int)).to_multiset() == written_spacings(
                    counting::in_ascending_order(all),
                    params.cells@,
                ).to_multiset()
                &&& final(buf)@.skip(kept as int) == old(buf)@.skip(kept as int)
            }
            &&& r matches Err(e) ==> e == BinOverflow::DecimatedBirthdayRun
            &&& r is Err ==> DECIMATE && all.len() > old(buf)@.len()
            &&& r is Ok ==> all.len() <= old(buf)@.len()
        }),
{
    let all = sampling::kept(*prng, g, n);
    let s = counting::in_ascending_order(all);
    assert(g == params.shape(DECIMATE));
    counting::lemma_in_ascending_order(all);
    counting::lemma_in_ascending_order(written_spacings(s, params.cells@));
    counting::law_collisions_and_taken_cells(spacings(s, params.cells@));
}

/// A birthday-spacings test with a tradeoff counts, among the spacings of the points of
/// `points` · 2^(*t* · *d*) samples on the circle, those that occurred already; with a single class
/// `k` only among the spacings whose remainder modulo 2^`b` is `k`.
pub proof fn law_run_birthday_tradeoff<
    T: Cell,
    P: Prng,
    R: Reporter,
    const DIM: usize,
    const DECIMATE: bool,
    const FULL: bool,
>(
    prng: &mut P,
    params: &GridParams,
    class_buf: &mut [T],
    interval_cap: usize,
    points: usize,
    b: usize,
    pass: Option<u64>,
    progress: &mut R,
    r: Result<(usize, usize), BinOverflow>,
    g: Shape,
    n: nat,
)
    requires
        params.t >= 1,
        params.d < params.u,
        params.u + params.s <= 64,
        g.u == params.u,
        g.t == params.t,
        g.s == params.s,
        g.d == (if DECIMATE {
            params.d
        } else {
            0
        }),
        n == points * pow2((params.t * params.d) as nat),
        params.cells@ >= pow2((g.t * (g.u - g.d)) as nat),
        call_ensures(
            run_birthday_tradeoff::<T, P, DIM, DECIMATE, FULL>,
            (prng, params, class_buf, interval_cap, points, b, pass, progress),
            r,
        ),
    ensures
        ({
            let all = sampling::kept(*old(prng), g, n);
            let s = counting::in_ascending_order(all);
            let mine = match pass {
                Some(k) => stored_spacings(s, params.cells@).filter(
                    |x: nat| x % pow2(b as nat) == k,
                ),
                None => spacings(s, params.cells@),
            };
            &&& r matches Ok((collisions, kept)) ==> {
                &&& kept == all.len()
                &&& collisions + mine.to_set().len() == mine.len()
                &&& *final(prng) == prng::advance(*old(prng), n * g.t)
                &&& final(progress).told() == old(progress).told() + progress::parts(
                    collision::pass_tallies(
                        stored_spacings(s, params.cells@).to_multiset(),
                        class_of(b as nat),
                        collision::pass_range(b, pass).0,
                        collision::pass_range(b, pass).1,
                    ),
                )
            }
            &&& r is Err ==> *final(prng) == *old(prng)
        }),
{
    let all = sampling::kept(*prng, g, n);
    let s = counting::in_ascending_order(all);
    let cells = params.cells@;
    assert(g == params.shape(DECIMATE));
    counting::lemma_in_ascending_order(all);
    lemma_points_within(*prng, g, n, all, cells);
    law_birthday_tradeoff_exact(all, cells, b as nat);
    counting::law_collisions_and_taken_cells(spacings(s, cells));
    if let Some(k) = pass {
        let stored = stored_spacings(s, cells);
        let m = stored.to_multiset();
        let key = class_of(b as nat);
        let low = |x: nat| x % pow2(b as nat) == k;
        law_class_part_has_the_remainder(stored, b as nat, k as nat);
        assert(stored.filter(low) =~= class_part(stored, b as nat, k as nat)) by {
            let same = |x: nat| x % pow2(b as nat) == k as nat;
            assert(low =~= same);
        }
        counting::law_classes_between(m, key, k as nat, k as nat + 1);
        let between = m.filter(|x: nat| k as nat <= key(x) && key(x) < k as nat + 1);
        assert(between =~= counting::class(m, key, k as nat));
        counting::law_collisions_and_taken_cells(stored.filter(low));
    }
}

/// A birthday-spacings test with a tradeoff succeeds if and only if no value interval has more
/// points than its buffer has places, and no class that is counted has more spacings than its own.
pub proof fn law_birthday_tradeoff_fits<
    T: Cell,
    P: Prng,
    R: Reporter,
    const DIM: usize,
    const DECIMATE: bool,
    const FULL: bool,
>(
    prng: &mut P,
    params: &GridParams,
    class_buf: &mut [T],
    interval_cap: usize,
    points: usize,
    b: usize,
    pass: Option<u64>,
    progress: &mut R,
    r: Result<(usize, usize), BinOverflow>,
    g: Shape,
    all: Seq<nat>,
    stored: Seq<nat>,
    width: nat,
)
    requires
        params.t >= 1,
        params.d < params.u,
        params.u + params.s <= 64,
        g.u == params.u,
        g.t == params.t,
        g.s == params.s,
        g.d == (if DECIMATE {
            params.d
        } else {
            0
        }),
        b <= g.t * (g.u - g.d),
        all == sampling::kept(*old(prng), g, points as nat * pow2((params.t * params.d) as nat)),
        stored == stored_spacings(counting::in_ascending_order(all), params.cells@),
        width == pow2((g.t * (g.u - g.d) - b) as nat),
        call_ensures(
            run_birthday_tradeoff::<T, P, DIM, DECIMATE, FULL>,
            (prng, params, class_buf, interval_cap, points, b, pass, progress),
            r,
        ),
    ensures
        r is Ok <==> {
            &&& forall|k: nat|
                k < pow2(b as nat) ==> (#[trigger] common::between(all, width, k)).len()
                    <= interval_cap
            &&& forall|j: nat|
                (match pass {
                    Some(only) => j == only,
                    None => j < pow2(b as nat),
                }) ==> (#[trigger] class_part(stored, b as nat, j)).len() <= old(class_buf)@.len()
        },
{
    let m = all.to_multiset();
    let key = common::interval_of(g, b as nat);
    let low = class_of(b as nat);
    let cap = old(class_buf)@.len();
    let (lo, hi) = collision::pass_range(b, pass);
    assert(g == params.shape(DECIMATE));
    assert forall|k: nat|
        (#[trigger] counting::class(m, key, k)).len() == common::between(all, width, k).len() by {
        collision::lemma_between_is_class(all, g, b as nat, k);
    }
    assert forall|j: nat|
        (#[trigger] counting::class(stored.to_multiset(), low, j)).len() == class_part(
            stored,
            b as nat,
            j,
        ).len() by {
        counting::lemma_filter_is_class(stored, low, j);
    }
    if r is Ok {
        assert forall|k: nat| k < pow2(b as nat) implies (#[trigger] common::between(
            all,
            width,
            k,
        )).len() <= interval_cap by {
            assert(counting::class(m, key, k).len() <= interval_cap);
        }
        assert forall|j: nat| lo <= j < hi implies (#[trigger] class_part(
            stored,
            b as nat,
            j,
        )).len() <= cap by {
            assert(counting::class(stored.to_multiset(), low, j).len() <= cap);
        }
    } else if interval_overflows_first(all, key, b as nat, lo, interval_cap as nat, cap) {
        let k = choose|k: nat|
            k < pow2(b as nat) && (#[trigger] counting::class(m, key, k)).len() > interval_cap;
        assert(common::between(all, width, k).len() > interval_cap);
    } else {
        let j = choose|j: nat|
            lo <= j < hi && (#[trigger] counting::class(stored.to_multiset(), low, j)).len() > cap;
        assert(lo <= j < hi && class_part(stored, b as nat, j).len() > cap);
    }
}

/// Which of the two buffers of a class overflows first is decided at the first interval that is too
/// large: the one for intervals does, if the class has had room for the spacings among the points
/// before.
pub proof fn law_which_buffer_overflows_first(
    all: Seq<nat>,
    key: spec_fn(nat) -> nat,
    b: nat,
    j: nat,
    interval_cap: nat,
    class_cap: nat,
    k: nat,
)
    requires
        k < pow2(b),
        counting::class(all.to_multiset(), key, k).len() > interval_cap,
        forall|i: nat|
            i < k ==> (#[trigger] counting::class(all.to_multiset(), key, i)).len() <= interval_cap,
    ensures
        interval_overflows_first(all, key, b, j, interval_cap, class_cap) <==> class_part(
            gaps(
                counting::in_ascending_order(all),
                all.filter(|x: nat| key(x) < k).len(),
            ),
            b,
            j,
        ).len() <= class_cap,
{
    let m = all.to_multiset();
    let s = counting::in_ascending_order(all);
    law_below_counts(all, key, k);
    if interval_overflows_first(all, key, b, j, interval_cap, class_cap) {
        let first = choose|first: nat|
            {
                &&& first < pow2(b)
                &&& (#[trigger] counting::class(m, key, first)).len() > interval_cap
                &&& collision::passes_fit(m, key, 0, first, interval_cap)
                &&& class_part(gaps(s, below(all, key, first)), b, j).len() <= class_cap
            };
        if first < k {
            assert(counting::class(m, key, first).len() <= interval_cap);
        } else if k < first {
            assert(counting::class(m, key, k).len() <= interval_cap);
        }
    } else {
        assert(collision::passes_fit(m, key, 0, k, interval_cap));
    }
}

/// No buffer for intervals overflows where every interval fits it.
pub proof fn law_fitting_intervals_do_not_overflow(
    all: Seq<nat>,
    key: spec_fn(nat) -> nat,
    b: nat,
    j: nat,
    interval_cap: nat,
    class_cap: nat,
)
    requires
        forall|i: nat|
            i < pow2(b) ==> (#[trigger] counting::class(all.to_multiset(), key, i)).len()
                <= interval_cap,
    ensures
        !interval_overflows_first(all, key, b, j, interval_cap, class_cap),
{
}

/// Computing spacings in place puts at each place the distance from the point before it, and at the
/// first one the way around from the last point, or 1 where all points coincide.
pub proof fn law_compute_spacings<T: Cell>(v: &mut [T], cells: &CellCount, i: int)
    requires
        counting::ascending(cell::vals(old(v)@)),
        within(cell::vals(old(v)@), cells@),
        0 <= i < old(v)@.len(),
        call_ensures(compute_spacings::<T>, (v, cells), ()),
    ensures
        ({
            let s = cell::vals(old(v)@);
            let r = cell::vals(final(v)@);
            &&& r.len() == s.len()
            &&& i > 0 ==> s[i - 1] + r[i] == s[i]
            &&& s.first() != s.last() ==> s.last() + r[0] == cells@ + s.first()
            &&& s.first() == s.last() ==> r[0] == 1
        }),
{
    let s = cell::vals(old(v)@);
    law_written_spacings(s, cells@, i);
    law_written_spacings(s, cells@, 0);
    law_spacings_lead_around(s, cells@, i);
}

/// Computing spacings behind a predecessor puts at each place the distance from the point before
/// it.
pub proof fn law_compute_spacings_with_predecessor<T: Cell>(
    v: &mut [T],
    predecessor: Option<T>,
    i: int,
)
    requires
        0 <= i < old(v)@.len(),
        call_ensures(compute_spacings_with_predecessor::<T>, (v, predecessor), ()),
    ensures
        final(v)@.len() == old(v)@.len(),
        i > 0 ==> old(v)@[i - 1].val() + final(v)@[i].val() == old(v)@[i].val(),
        predecessor matches Some(p) ==> p.val() + final(v)@[0].val() == old(v)@[0].val(),
        predecessor is None ==> final(v)@[0].val() == old(v)@[0].val(),
{
    assert(final(v)@[i].val() >= 0);
}

/// The cells fit the storage type where all indices are below their number and that is at most 2 to
/// the width of the type.
pub proof fn law_cells_fit<T: Value>(params: GridParams, decimate: bool)
    requires
        params.d < params.u,
    ensures
        cells_fit::<T>(params, decimate) <==> pow2(
            (params.t * (params.u - (if decimate {
                params.d
            } else {
                0
            }))) as nat,
        ) <= params.cells@ && params.cells@ <= pow2(T::bits()),
{
}

} // verus!
