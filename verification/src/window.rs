//! The prefetch window: the square of regions around the camera, and the
//! choice of the regions to draw among them.
//!
//! The window has 32 x 32 cells. Cell `c` lies `c / 32 - 16` columns and
//! `c % 32 - 16` rows from the camera's region. Distances are compared by
//! their squares, which are integers; the camera's own cell has the
//! distance -1, so that it comes first.

use vstd::prelude::*;
use crate::utils::{in_scope, pos_of, region_id, region_key, region_of, scoped};

verus! {

/// The number of cells of the window.
pub const CELLS: usize = 1024;

/// The square of the distance within which a region counts as near.
pub const NEAR: i32 = 256;

/// The column of the region at cell `c` of the window around the region of
/// the world point `(wx, wz)`.
pub open spec fn cell_i(wx: int, wz: int, c: int) -> int {
    region_of(wx, wz).0 + c / 32 - 16
}

/// The row of the region at cell `c` of the window.
pub open spec fn cell_j(wx: int, wz: int, c: int) -> int {
    region_of(wx, wz).1 + c % 32 - 16
}

/// The square of the distance of cell `c` from the camera's cell, in
/// regions; -1 for the camera's own cell.
pub open spec fn cell_d2(c: int) -> int {
    let di = c / 32 - 16;
    let dj = c % 32 - 16;
    if di == 0 && dj == 0 {
        -1
    } else {
        di * di + dj * dj
    }
}

/// Whether cell `c` is seen: the camera's own cell always is; another cell
/// is if `visible` says so. A cell beyond the end of `visible` is not seen.
pub open spec fn cell_seen(visible: Seq<bool>, c: int) -> bool {
    cell_d2(c) < 0 || (0 <= c < visible.len() && visible[c])
}

/// One cell of the window.
#[derive(Clone, Copy, Debug, PartialEq, Eq, Structural)]
pub struct Cell {
    /// The column of the cell's region.
    pub i: i32,
    /// The row of the cell's region.
    pub j: i32,
    /// The square of the cell's distance from the camera's cell; -1 for the
    /// camera's own cell.
    pub d2: i32,
    /// Whether the cell's region lies in the world scope.
    pub scoped: bool,
}

/// Cell `c` of the window around the region of the world point `(wx, wz)`.
pub open spec fn cell_at(wx: int, wz: int, c: int) -> Cell {
    Cell {
        i: cell_i(wx, wz, c) as i32,
        j: cell_j(wx, wz, c) as i32,
        d2: cell_d2(c) as i32,
        scoped: in_scope(cell_i(wx, wz, c), cell_j(wx, wz, c)),
    }
}

/// Cell `c` of the window around the region of the world point whose
/// position in the ground plane has the integer part `(wx, wz)`.
pub fn cell(wx: i32, wz: i32, c: usize) -> (r: Cell)
    requires
        c < CELLS,
    ensures
        r == cell_at(wx as int, wz as int, c as int),
        r.i == cell_i(wx as int, wz as int, c as int),
        r.j == cell_j(wx as int, wz as int, c as int),
        r.d2 == cell_d2(c as int),
        -1 <= r.d2 <= 512,
{
    let (ci, cj) = pos_of(wx, wz);
    let di: i32 = (c / 32) as i32 - 16;
    let dj: i32 = (c % 32) as i32 - 16;
    let i = ci + di;
    let j = cj + dj;
    let d2 = if di == 0 && dj == 0 {
        -1
    } else {
        assert(di * di + dj * dj <= 512) by (nonlinear_arith)
            requires
                -16 <= di <= 16,
                -16 <= dj <= 16,
        ;
        assert(0 <= di * di && 0 <= dj * dj) by (nonlinear_arith);
        assert(di * di <= 256) by (nonlinear_arith)
            requires
                -16 <= di <= 16,
        ;
        di * di + dj * dj
    };
    Cell { i, j, d2, scoped: scoped(i, j) }
}

/// The cells of the window around the region of the world point `(wx,
/// wz)`, in order.
pub fn window(wx: i32, wz: i32) -> (r: Vec<Cell>)
    ensures
        r@.len() == CELLS,
        forall|c: int| 0 <= c < CELLS ==> r@[c] == cell_at(wx as int, wz as int, c),
{
    let mut r: Vec<Cell> = Vec::new();
    let mut c: usize = 0;
    while c < CELLS
        invariant
            c <= CELLS,
            r.len() == c,
            forall|n: int| 0 <= n < c ==> r@[n] == cell_at(wx as int, wz as int, n),
        decreases CELLS - c,
    {
        r.push(cell(wx, wz, c));
        c += 1;
    }
    r
}

/// A region that may be drawn in this frame.
#[derive(Clone, Copy, Debug, PartialEq, Eq, Structural)]
pub struct Candidate {
    /// The id of the region.
    pub id: i32,
    /// The column of the region.
    pub i: i32,
    /// The row of the region.
    pub j: i32,
    /// The square of the region's distance from the camera's region; -1
    /// for the camera's own region.
    pub d2: i32,
    /// Whether the region is seen.
    pub seen: bool,
}

/// Whether cell `c` holds a candidate: its region lies in the world scope,
/// and it is seen or near.
pub open spec fn is_candidate(wx: int, wz: int, visible: Seq<bool>, c: int) -> bool {
    in_scope(cell_i(wx, wz, c), cell_j(wx, wz, c)) && (cell_seen(visible, c) || cell_d2(c) <= NEAR)
}

/// The candidate at cell `c`.
pub open spec fn candidate_at(wx: int, wz: int, visible: Seq<bool>, c: int) -> Candidate {
    Candidate {
        id: region_key(cell_i(wx, wz, c), cell_j(wx, wz, c)) as i32,
        i: cell_i(wx, wz, c) as i32,
        j: cell_j(wx, wz, c) as i32,
        d2: cell_d2(c) as i32,
        seen: cell_seen(visible, c),
    }
}

/// The candidates among the first `n` cells of the window, in the order of
/// the cells.
pub open spec fn candidates(wx: int, wz: int, visible: Seq<bool>, n: int) -> Seq<Candidate>
    decreases n,
{
    if n <= 0 {
        Seq::empty()
    } else {
        let prev = candidates(wx, wz, visible, n - 1);
        if is_candidate(wx, wz, visible, n - 1) {
            prev.push(candidate_at(wx, wz, visible, n - 1))
        } else {
            prev
        }
    }
}

/// Every candidate is a region of the world scope, with its id, at one of
/// the first `n` cells.
pub proof fn lemma_candidates(wx: int, wz: int, visible: Seq<bool>, n: int)
    requires
        0 <= n <= CELLS,
        i32::MIN <= wx <= i32::MAX,
        i32::MIN <= wz <= i32::MAX,
    ensures
        candidates(wx, wz, visible, n).len() <= n,
        forall|t: int|
            0 <= t < candidates(wx, wz, visible, n).len() ==> {
                let cand = #[trigger] candidates(wx, wz, visible, n)[t];
                &&& in_scope(cand.i as int, cand.j as int)
                &&& cand.id == region_key(cand.i as int, cand.j as int)
                &&& -1 <= cand.d2 <= 512
                &&& exists|c: int|
                    0 <= c < n && cand.i == #[trigger] cell_i(wx, wz, c) && cand.j == cell_j(
                        wx,
                        wz,
                        c,
                    )
            },
    decreases n,
{
    if n > 0 {
        lemma_candidates(wx, wz, visible, n - 1);
        let prev = candidates(wx, wz, visible, n - 1);
        let all = candidates(wx, wz, visible, n);
        let c = n - 1;
        let di = c / 32 - 16;
        let dj = c % 32 - 16;
        assert(0 <= di * di <= 256 && 0 <= dj * dj <= 256) by (nonlinear_arith)
            requires
                -16 <= di <= 16,
                -16 <= dj <= 16,
        ;
        assert forall|t: int| 0 <= t < all.len() implies {
            let cand = #[trigger] all[t];
            &&& in_scope(cand.i as int, cand.j as int)
            &&& cand.id == region_key(cand.i as int, cand.j as int)
            &&& -1 <= cand.d2 <= 512
            &&& exists|c: int|
                0 <= c < n && cand.i == #[trigger] cell_i(wx, wz, c) && cand.j == cell_j(wx, wz, c)
        } by {
            if t < prev.len() {
                assert(all[t] == prev[t]);
                let c0 = choose|c0: int|
                    0 <= c0 < n - 1 && prev[t].i == #[trigger] cell_i(wx, wz, c0) && prev[t].j
                        == cell_j(wx, wz, c0);
                assert(0 <= c0 < n && all[t].i == cell_i(wx, wz, c0));
            } else {
                assert(all[t] == candidate_at(wx, wz, visible, c));
                assert(all[t].i == cell_i(wx, wz, c));
            }
        }
    }
}

/// Lists the candidates of the window around the region of the world point
/// `(wx, wz)`, where `visible` says for each cell whether it is seen.
pub fn list_candidates(wx: i32, wz: i32, visible: &[bool]) -> (r: Vec<Candidate>)
    ensures
        r@ == candidates(wx as int, wz as int, visible@, CELLS as int),
{
    let mut r: Vec<Candidate> = Vec::new();
    let mut c: usize = 0;
    while c < CELLS
        invariant
            c <= CELLS,
            r@ == candidates(wx as int, wz as int, visible@, c as int),
        decreases CELLS - c,
    {
        let at = cell(wx, wz, c);
        let seen = at.d2 < 0 || (c < visible.len() && visible[c]);
        if at.scoped && (seen || at.d2 <= NEAR) {
            r.push(Candidate { id: region_id(at.i, at.j), i: at.i, j: at.j, d2: at.d2, seen });
        }
        c += 1;
    }
    r
}

/// The index of the first candidate of `s` that is nearest to the camera;
/// 0 where `s` is empty.
pub open spec fn first_min(s: Seq<Candidate>) -> int
    decreases s.len(),
{
    if s.len() <= 1 {
        0
    } else {
        let m = first_min(s.drop_last());
        if s.last().d2 < s[m].d2 {
            s.len() - 1
        } else {
            m
        }
    }
}

/// The `k` candidates of `s` that are nearest to the camera, nearest first;
/// all of `s`, where it has no more than `k`. Among candidates at the same
/// distance the one that stands earlier in `s` comes first.
pub open spec fn nearest(s: Seq<Candidate>, k: int) -> Seq<Candidate>
    decreases s.len(),
{
    if k <= 0 || s.len() == 0 {
        Seq::empty()
    } else {
        let m = first_min(s);
        if 0 <= m < s.len() {
            seq![s[m]] + nearest(s.remove(m), k - 1)
        } else {
            Seq::empty()
        }
    }
}

/// The first nearest candidate is a candidate, none is nearer, and none
/// before it is as near.
pub proof fn lemma_first_min(s: Seq<Candidate>)
    requires
        s.len() > 0,
    ensures
        0 <= first_min(s) < s.len(),
        forall|t: int| 0 <= t < s.len() ==> s[first_min(s)].d2 <= (#[trigger] s[t]).d2,
        forall|t: int| 0 <= t < first_min(s) ==> s[first_min(s)].d2 < (#[trigger] s[t]).d2,
    decreases s.len(),
{
    if s.len() > 1 {
        let p = s.drop_last();
        lemma_first_min(p);
        assert forall|t: int| 0 <= t < s.len() implies s[first_min(s)].d2 <= (#[trigger] s[t]).d2 by {
            if t < p.len() {
                assert(p[t] == s[t]);
            }
        }
        assert forall|t: int| 0 <= t < first_min(s) implies s[first_min(s)].d2 < (#[trigger] s[t]).d2 by {
            assert(p[t] == s[t]);
        }
    }
}

/// The nearest candidates are as many as asked for, or all; each of them
/// is a candidate of the list; and they come in the order of their
/// distance.
pub proof fn lemma_nearest(s: Seq<Candidate>, k: int)
    ensures
        nearest(s, k).len() == if k <= 0 {
            0
        } else if k < s.len() {
            k
        } else {
            s.len() as int
        },
        forall|t: int|
            0 <= t < nearest(s, k).len() ==> exists|n: int|
                0 <= n < s.len() && (#[trigger] nearest(s, k)[t]) == #[trigger] s[n],
        forall|a: int, b: int|
            0 <= a <= b < nearest(s, k).len() ==> (#[trigger] nearest(s, k)[a]).d2 <= (
            #[trigger] nearest(s, k)[b]).d2,
    decreases s.len(),
{
    if k > 0 && s.len() > 0 {
        lemma_first_min(s);
        let m = first_min(s);
        let rest = s.remove(m);
        lemma_nearest(rest, k - 1);
        let tail = nearest(rest, k - 1);
        let all = nearest(s, k);
        assert(all =~= seq![s[m]] + tail);
        assert forall|t: int| 0 <= t < all.len() implies exists|n: int|
            0 <= n < s.len() && (#[trigger] all[t]) == #[trigger] s[n] by {
            if t == 0 {
                assert(all[0] == s[m]);
            } else {
                assert(all[t] == tail[t - 1]);
                let n0 = choose|n0: int| 0 <= n0 < rest.len() && tail[t - 1] == #[trigger] rest[n0];
                if n0 < m {
                    assert(rest[n0] == s[n0]);
                } else {
                    assert(rest[n0] == s[n0 + 1]);
                }
            }
        }
        assert forall|a: int, b: int| 0 <= a <= b < all.len() implies (#[trigger] all[a]).d2 <= (
        #[trigger] all[b]).d2 by {
            if a == 0 {
                let n = choose|n: int| 0 <= n < s.len() && all[b] == #[trigger] s[n];
                assert(s[m].d2 <= s[n].d2);
            } else {
                assert(all[a] == tail[a - 1]);
                assert(all[b] == tail[b - 1]);
            }
        }
    }
}

/// The index of the first candidate of `list` that is nearest to the
/// camera.
fn nearest_index(list: &Vec<Candidate>) -> (best: usize)
    requires
        list.len() > 0,
    ensures
        best == first_min(list@),
        best < list.len(),
{
    let mut best: usize = 0;
    let mut t: usize = 1;
    while t < list.len()
        invariant
            1 <= t <= list.len(),
            best < t,
            best == first_min(list@.take(t as int)),
        decreases list.len() - t,
    {
        assert(list@.take(t + 1).drop_last() =~= list@.take(t as int));
        if list[t].d2 < list[best].d2 {
            best = t;
        }
        t += 1;
    }
    assert(list@.take(t as int) =~= list@);
    best
}

/// Picks the `k` candidates of `list` that are nearest to the camera.
pub fn select(list: &Vec<Candidate>, k: usize) -> (r: Vec<Candidate>)
    ensures
        r@ == nearest(list@, k as int),
{
    let mut rest: Vec<Candidate> = list.clone();
    assert(rest@ =~= list@);
    let mut r: Vec<Candidate> = Vec::new();
    assert(nearest(list@, k as int) =~= r@ + nearest(rest@, k - r.len()));
    while r.len() < k && rest.len() > 0
        invariant
            r.len() <= k,
            nearest(list@, k as int) == r@ + nearest(rest@, k - r.len()),
        decreases rest.len(),
    {
        let best = nearest_index(&rest);
        let ghost before = rest@;
        let ghost done = r@;
        let c = rest.remove(best);
        r.push(c);
        proof {
            let tail = nearest(rest@, k - done.len() - 1);
            assert(nearest(before, k - done.len()) == seq![before[best as int]] + tail);
            assert(r@ =~= done + seq![before[best as int]]);
            assert(done + (seq![before[best as int]] + tail) =~= r@ + tail);
        }
    }
    proof {
        let tail = nearest(rest@, k - r.len());
        assert(tail =~= Seq::<Candidate>::empty());
        assert(r@ + tail =~= r@);
    }
    r
}

/// The ids of `list`, in order.
pub fn ids_of(list: &Vec<Candidate>) -> (r: Vec<i32>)
    ensures
        r@.len() == list@.len(),
        forall|t: int| 0 <= t < r@.len() ==> r@[t] == list@[t].id,
{
    let mut r: Vec<i32> = Vec::new();
    let mut t: usize = 0;
    while t < list.len()
        invariant
            t <= list.len(),
            r.len() == t,
            forall|n: int| 0 <= n < t ==> r@[n] == list@[n].id,
        decreases list.len() - t,
    {
        r.push(list[t].id);
        t += 1;
    }
    r
}

} // verus!
