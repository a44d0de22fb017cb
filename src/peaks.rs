//! Peak extraction from a correlation response surface.
//!
//! Scores are fixed-point numbers, `SCORE_ONE` units per 1.0 of normalized correlation.
//! A cell is a candidate while its score is above the threshold and no earlier peak's
//! footprint covers it; each peak is the best remaining candidate (highest score, first in
//! row-major order among equals), and its footprint is cleared before the next search.
use vstd::prelude::*;

verus! {

/// Fixed-point units of a score of 1.0.
pub const SCORE_ONE: i32 = 1_000_000;

/// Scores of every placement of a template over a frame, row by row.
#[derive(Clone, Debug)]
pub struct ScoreSurface {
    pub width: usize,
    pub height: usize,
    pub scores: Vec<i32>,
}

/// A local maximum of a surface: its cell and score.
#[derive(Clone, Copy, Debug, PartialEq, Eq, Structural)]
pub struct Peak {
    pub x: usize,
    pub y: usize,
    pub score: i32,
}

/// Index of cell `(x, y)` in a row-major surface of width `w`.
pub open spec fn cell(w: int, x: int, y: int) -> int {
    y * w + x
}

impl ScoreSurface {
    pub open spec fn wf(&self) -> bool {
        self.scores@.len() == self.width * self.height
    }

    pub open spec fn in_bounds(&self, x: int, y: int) -> bool {
        0 <= x < self.width && 0 <= y < self.height
    }

    pub open spec fn score_at(&self, x: int, y: int) -> int {
        self.scores@[cell(self.width as int, x, y)] as int
    }

    /// A surface of `width` by `height` scores; `None` where `scores` has another length.
    pub fn new(width: usize, height: usize, scores: Vec<i32>) -> (r: Option<ScoreSurface>)
        ensures
            match r {
                Some(sf) => sf.wf() && sf.width == width && sf.height == height && sf.scores
                    == scores,
                None => scores@.len() != width * height,
            },
    {
        let len = scores.len();
        if height == 0 {
            proof {
                assert(width * height == 0) by (nonlinear_arith)
                    requires
                        height == 0,
                ;
            }
            if len == 0 {
                return Some(ScoreSurface { width, height, scores });
            }
            return None;
        }
        let q = len / height;
        if len % height == 0 && q == width {
            proof {
                let (li, hi, qi) = (len as int, height as int, q as int);
                assert(li == qi * hi) by (nonlinear_arith)
                    requires
                        qi == li / hi,
                        li % hi == 0,
                        hi > 0,
                ;
            }
            Some(ScoreSurface { width, height, scores })
        } else {
            proof {
                let (li, hi, wi) = (len as int, height as int, width as int);
                if li == wi * hi {
                    assert(li / hi == wi && li % hi == 0) by (nonlinear_arith)
                        requires
                            li == wi * hi,
                            hi > 0,
                            wi >= 0,
                    ;
                }
            }
            None
        }
    }
}

/// Whether the footprint of `p` (a `fw` by `fh` box centred on it) covers `(x, y)`.
pub open spec fn in_footprint(p: Peak, fw: int, fh: int, x: int, y: int) -> bool {
    let x0 = p.x - fw / 2;
    let y0 = p.y - fh / 2;
    x0 <= x < x0 + fw && y0 <= y < y0 + fh
}

/// Whether the footprint of one of `prior` covers `(x, y)`.
pub open spec fn covered(prior: Seq<Peak>, fw: int, fh: int, x: int, y: int) -> bool {
    exists|j: int| 0 <= j < prior.len() && in_footprint(#[trigger] prior[j], fw, fh, x, y)
}

/// Whether `(x, y)` is still a candidate once the peaks `prior` have been taken.
pub open spec fn is_candidate(
    sf: &ScoreSurface,
    threshold: int,
    fw: int,
    fh: int,
    prior: Seq<Peak>,
    x: int,
    y: int,
) -> bool {
    sf.in_bounds(x, y) && sf.score_at(x, y) > threshold && !covered(prior, fw, fh, x, y)
}

/// Whether a cell scored `sa` at `(ax, ay)` goes before one scored `sb` at `(bx, by)`:
/// by higher score, then by row-major position.
pub open spec fn precedes(sa: int, ax: int, ay: int, sb: int, bx: int, by: int) -> bool {
    sa > sb || (sa == sb && (ay < by || (ay == by && ax < bx)))
}

/// Whether `p` is the best candidate once the peaks `prior` have been taken.
pub open spec fn is_next_peak(
    sf: &ScoreSurface,
    threshold: int,
    fw: int,
    fh: int,
    prior: Seq<Peak>,
    p: Peak,
) -> bool {
    &&& is_candidate(sf, threshold, fw, fh, prior, p.x as int, p.y as int)
    &&& p.score == sf.score_at(p.x as int, p.y as int)
    &&& forall|x: int, y: int|
        #![trigger is_candidate(sf, threshold, fw, fh, prior, x, y)]
        is_candidate(sf, threshold, fw, fh, prior, x, y) && !(x == p.x && y == p.y) ==> precedes(
            p.score as int,
            p.x as int,
            p.y as int,
            sf.score_at(x, y),
            x,
            y,
        )
}

/// Whether `r` is the sequence of peaks of `sf`: each the best candidate left by those
/// before it, and no candidate left after the last.
pub open spec fn peaks_of(sf: &ScoreSurface, threshold: int, fw: int, fh: int, r: Seq<Peak>) -> bool {
    &&& forall|k: int|
        0 <= k < r.len() ==> #[trigger] is_next_peak(sf, threshold, fw, fh, r.take(k), r[k])
    &&& forall|x: int, y: int| !#[trigger] is_candidate(sf, threshold, fw, fh, r, x, y)
}

pub open spec fn count_true(s: Seq<bool>) -> nat
    decreases s.len(),
{
    if s.len() == 0 {
        0
    } else {
        count_true(s.drop_last()) + if s.last() {
            1nat
        } else {
            0nat
        }
    }
}

proof fn lemma_count_shrinks(a: Seq<bool>, b: Seq<bool>, k: int)
    requires
        a.len() == b.len(),
        forall|i: int| 0 <= i < b.len() && #[trigger] b[i] ==> a[i],
        0 <= k < a.len(),
        a[k] && !b[k],
    ensures
        count_true(b) < count_true(a),
    decreases a.len(),
{
    let n = a.len() - 1;
    if k == n {
        lemma_count_le(a.drop_last(), b.drop_last());
    } else {
        lemma_count_shrinks(a.drop_last(), b.drop_last(), k);
    }
}

proof fn lemma_count_le(a: Seq<bool>, b: Seq<bool>)
    requires
        a.len() == b.len(),
        forall|i: int| 0 <= i < b.len() && #[trigger] b[i] ==> a[i],
    ensures
        count_true(b) <= count_true(a),
    decreases a.len(),
{
    if a.len() > 0 {
        lemma_count_le(a.drop_last(), b.drop_last());
    }
}

proof fn lemma_cell_bounds(w: int, h: int, x: int, y: int)
    requires
        0 <= x < w,
        0 <= y < h,
    ensures
        0 <= cell(w, x, y) < w * h,
{
    lemma_row_step(w, h, y);
}

proof fn lemma_row_step(w: int, h: int, y: int)
    requires
        0 <= w,
        0 <= y < h,
    ensures
        0 <= y * w,
        (y + 1) * w == y * w + w,
        y * w + w <= w * h,
{
    assert(0 <= y * w) by (nonlinear_arith)
        requires
            0 <= w,
            0 <= y,
    ;
    assert((y + 1) * w == y * w + w) by (nonlinear_arith);
    assert((y + 1) * w <= h * w) by (nonlinear_arith)
        requires
            0 <= w,
            y + 1 <= h,
    ;
    assert(h * w == w * h) by (nonlinear_arith);
}

proof fn lemma_cell_unique(w: int, x1: int, y1: int, x2: int, y2: int)
    requires
        0 <= x1 < w,
        0 <= x2 < w,
        0 <= y1,
        0 <= y2,
        cell(w, x1, y1) == cell(w, x2, y2),
    ensures
        x1 == x2 && y1 == y2,
{
    if y1 < y2 {
        assert(y1 * w + x1 < y2 * w + x2) by (nonlinear_arith)
            requires
                0 <= x1 < w,
                0 <= x2,
                y1 < y2,
        ;
    } else if y2 < y1 {
        assert(y2 * w + x2 < y1 * w + x1) by (nonlinear_arith)
            requires
                0 <= x2 < w,
                0 <= x1,
                y2 < y1,
        ;
    }
}

/// Whether `best` is the best alive cell among those before `(x, y)` in row-major order.
spec fn best_so_far(sf: &ScoreSurface, alive: Seq<bool>, best: Option<Peak>, x: int, y: int) -> bool {
    let w = sf.width as int;
    match best {
        None => forall|bx: int, by: int|
            sf.in_bounds(bx, by) && (by < y || (by == y && bx < x)) ==> !#[trigger] alive[cell(
                w,
                bx,
                by,
            )],
        Some(p) => {
            &&& sf.in_bounds(p.x as int, p.y as int)
            &&& (p.y < y || (p.y == y && p.x < x))
            &&& alive[cell(w, p.x as int, p.y as int)]
            &&& p.score == sf.score_at(p.x as int, p.y as int)
            &&& forall|bx: int, by: int|
                sf.in_bounds(bx, by) && (by < y || (by == y && bx < x)) && #[trigger] alive[cell(
                    w,
                    bx,
                    by,
                )] && !(bx == p.x && by == p.y) ==> precedes(
                    p.score as int,
                    p.x as int,
                    p.y as int,
                    sf.score_at(bx, by),
                    bx,
                    by,
                )
        },
    }
}

/// The best alive cell: highest score, first in row-major order among equals.
fn best_alive(sf: &ScoreSurface, alive: &Vec<bool>) -> (r: Option<Peak>)
    requires
        sf.wf(),
        alive@.len() == sf.width * sf.height,
    ensures
        best_so_far(sf, alive@, r, 0, sf.height as int),
{
    let w = sf.width;
    let h = sf.height;
    let n = sf.scores.len();
    let mut best: Option<Peak> = None;
    let mut y: usize = 0;
    let mut row: usize = 0;
    while y < h
        invariant
            sf.wf(),
            w == sf.width,
            h == sf.height,
            alive@.len() == w * h,
            n == w * h,
            y <= h,
            row == y * w,
            best_so_far(sf, alive@, best, 0, y as int),
        decreases h - y,
    {
        let mut x: usize = 0;
        while x < w
            invariant
                sf.wf(),
                w == sf.width,
                h == sf.height,
                alive@.len() == w * h,
                n == w * h,
                y < h,
                x <= w,
                row == y * w,
                best_so_far(sf, alive@, best, x as int, y as int),
            decreases w - x,
        {
            proof {
                lemma_cell_bounds(w as int, h as int, x as int, y as int);
            }
            let c = row + x;
            if alive[c] {
                let s = sf.scores[c];
                let better = match best {
                    None => true,
                    Some(b) => s > b.score,
                };
                if better {
                    best = Some(Peak { x, y, score: s });
                }
            }
            x = x + 1;
        }
        proof {
            lemma_row_step(w as int, h as int, y as int);
        }
        row = row + w;
        y = y + 1;
    }
    best
}

/// Clears the footprint of `p` from `alive`.
fn clear_footprint(alive: &mut Vec<bool>, w: usize, h: usize, p: Peak, fw: usize, fh: usize)
    requires
        old(alive)@.len() == w * h,
        w * h <= usize::MAX,
        p.x < w,
        p.y < h,
        fw > 0,
        fh > 0,
    ensures
        final(alive)@.len() == w * h,
        forall|x: int, y: int|
            0 <= x < w && 0 <= y < h ==> #[trigger] final(alive)@[cell(w as int, x, y)] == (old(
                alive,
            )@[cell(w as int, x, y)] && !in_footprint(p, fw as int, fh as int, x, y)),
{
    let xs = if p.x >= fw / 2 { p.x - fw / 2 } else { 0 };
    let xe = if fw - fw / 2 >= w - p.x { w } else { p.x + (fw - fw / 2) };
    let ys = if p.y >= fh / 2 { p.y - fh / 2 } else { 0 };
    let ye = if fh - fh / 2 >= h - p.y { h } else { p.y + (fh - fh / 2) };
    let ghost start = alive@;
    let ghost wi = w as int;
    let mut yy = ys;
    while yy < ye
        invariant
            alive@.len() == w * h,
            start.len() == w * h,
            wi == w,
            w * h <= usize::MAX,
            ys <= yy <= ye,
            ye <= h,
            xs <= xe <= w,
            forall|x: int, y: int|
                0 <= x < w && 0 <= y < h ==> #[trigger] alive@[cell(wi, x, y)] == (start[cell(
                    wi,
                    x,
                    y,
                )] && !(ys <= y < yy && xs <= x < xe)),
        decreases ye - yy,
    {
        let mut xx = xs;
        while xx < xe
            invariant
                alive@.len() == w * h,
                start.len() == w * h,
                wi == w,
                w * h <= usize::MAX,
                ys <= yy < ye,
                ye <= h,
                xs <= xx <= xe,
                xe <= w,
                forall|x: int, y: int|
                    0 <= x < w && 0 <= y < h ==> #[trigger] alive@[cell(wi, x, y)] == (start[cell(
                        wi,
                        x,
                        y,
                    )] && !(ys <= y < yy && xs <= x < xe) && !(y == yy && xs <= x < xx)),
            decreases xe - xx,
        {
            proof {
                lemma_cell_bounds(wi, h as int, xx as int, yy as int);
            }
            let c = yy * w + xx;
            let ghost before = alive@;
            alive.set(c, false);
            proof {
                assert forall|x: int, y: int| 0 <= x < w && 0 <= y < h implies #[trigger] alive@[cell(
                    wi,
                    x,
                    y,
                )] == (start[cell(wi, x, y)] && !(ys <= y < yy && xs <= x < xe) && !(y == yy && xs
                    <= x < xx + 1)) by {
                    lemma_cell_bounds(wi, h as int, x, y);
                    if cell(wi, x, y) == c {
                        lemma_cell_unique(wi, x, y, xx as int, yy as int);
                    } else {
                        assert(alive@[cell(wi, x, y)] == before[cell(wi, x, y)]);
                    }
                }
            }
            xx = xx + 1;
        }
        yy = yy + 1;
    }
    proof {
        assert forall|x: int, y: int| 0 <= x < w && 0 <= y < h implies ((ys <= y < ye && xs <= x
            < xe) == in_footprint(p, fw as int, fh as int, x, y)) by {}
    }
}

proof fn lemma_covered_push(prior: Seq<Peak>, p: Peak, fw: int, fh: int, x: int, y: int)
    ensures
        covered(prior.push(p), fw, fh, x, y) == (covered(prior, fw, fh, x, y) || in_footprint(
            p,
            fw,
            fh,
            x,
            y,
        )),
{
    let q = prior.push(p);
    if covered(prior, fw, fh, x, y) {
        let j = choose|j: int| 0 <= j < prior.len() && in_footprint(#[trigger] prior[j], fw, fh, x, y);
        assert(q[j] == prior[j]);
    }
    if in_footprint(p, fw, fh, x, y) {
        assert(q[prior.len() as int] == p);
    }
    if covered(q, fw, fh, x, y) {
        let j = choose|j: int| 0 <= j < q.len() && in_footprint(#[trigger] q[j], fw, fh, x, y);
        if j < prior.len() {
            assert(q[j] == prior[j]);
        }
    }
}

proof fn lemma_same_prefix(
    sf: &ScoreSurface,
    threshold: int,
    fw: int,
    fh: int,
    r1: Seq<Peak>,
    r2: Seq<Peak>,
    k: int,
)
    requires
        peaks_of(sf, threshold, fw, fh, r1),
        peaks_of(sf, threshold, fw, fh, r2),
        0 <= k <= r1.len(),
        k <= r2.len(),
    ensures
        r1.take(k) == r2.take(k),
    decreases k,
{
    if k > 0 {
        lemma_same_prefix(sf, threshold, fw, fh, r1, r2, k - 1);
        let prior = r1.take(k - 1);
        let a = r1[k - 1];
        let b = r2[k - 1];
        assert(is_next_peak(sf, threshold, fw, fh, r1.take(k - 1), r1[k - 1]));
        assert(is_next_peak(sf, threshold, fw, fh, r2.take(k - 1), r2[k - 1]));
        if !(a.x == b.x && a.y == b.y) {
            assert(is_candidate(sf, threshold, fw, fh, prior, b.x as int, b.y as int));
            assert(is_candidate(sf, threshold, fw, fh, prior, a.x as int, a.y as int));
            assert(false);
        }
        assert(r1.take(k) =~= prior.push(a));
        assert(r2.take(k) =~= r2.take(k - 1).push(b));
    }
}

/// Peak extraction is a function of its inputs: on one surface, threshold and footprint,
/// there is exactly one sequence of peaks.
pub proof fn lemma_peaks_unique(
    sf: &ScoreSurface,
    threshold: int,
    fw: int,
    fh: int,
    r1: Seq<Peak>,
    r2: Seq<Peak>,
)
    requires
        peaks_of(sf, threshold, fw, fh, r1),
        peaks_of(sf, threshold, fw, fh, r2),
    ensures
        r1 == r2,
{
    if r1.len() < r2.len() {
        let k = r1.len() as int;
        lemma_same_prefix(sf, threshold, fw, fh, r1, r2, k);
        assert(r1.take(k) =~= r1);
        assert(is_next_peak(sf, threshold, fw, fh, r2.take(k), r2[k]));
        assert(is_candidate(sf, threshold, fw, fh, r1, r2[k].x as int, r2[k].y as int));
    } else if r2.len() < r1.len() {
        let k = r2.len() as int;
        lemma_same_prefix(sf, threshold, fw, fh, r1, r2, k);
        assert(r2.take(k) =~= r2);
        assert(is_next_peak(sf, threshold, fw, fh, r1.take(k), r1[k]));
        assert(is_candidate(sf, threshold, fw, fh, r2, r1[k].x as int, r1[k].y as int));
    } else {
        lemma_same_prefix(sf, threshold, fw, fh, r1, r2, r1.len() as int);
        assert(r1.take(r1.len() as int) =~= r1);
        assert(r2.take(r2.len() as int) =~= r2);
    }
}

/// Every peak scores above the threshold, and once the best remaining cell is no longer
/// above it, extraction has stopped: no cell outside the footprints scores above it.
pub proof fn lemma_peaks_above_threshold(
    sf: &ScoreSurface,
    threshold: int,
    fw: int,
    fh: int,
    r: Seq<Peak>,
)
    requires
        peaks_of(sf, threshold, fw, fh, r),
    ensures
        forall|k: int| 0 <= k < r.len() ==> (#[trigger] r[k]).score > threshold,
        forall|x: int, y: int|
            sf.in_bounds(x, y) && !covered(r, fw, fh, x, y) ==> #[trigger] sf.score_at(x, y)
                <= threshold,
{
    assert forall|k: int| 0 <= k < r.len() implies (#[trigger] r[k]).score > threshold by {
        assert(is_next_peak(sf, threshold, fw, fh, r.take(k), r[k]));
    }
    assert forall|x: int, y: int| sf.in_bounds(x, y) && !covered(r, fw, fh, x, y) implies #[trigger] sf.score_at(
        x,
        y,
    ) <= threshold by {
        assert(!is_candidate(sf, threshold, fw, fh, r, x, y));
    }
}

/// The peaks of `sf` above `threshold`, for a template footprint of `fw` by `fh` cells, in
/// the order they are found. A footprint without area finds nothing.
pub fn find_peaks(sf: &ScoreSurface, threshold: u32, fw: usize, fh: usize) -> (r: Vec<Peak>)
    requires
        sf.wf(),
    ensures
        fw == 0 || fh == 0 ==> r@.len() == 0,
        fw > 0 && fh > 0 ==> peaks_of(sf, threshold as int, fw as int, fh as int, r@),
{
    if fw == 0 || fh == 0 {
        return Vec::new();
    }
    let ghost thr = threshold as int;
    let ghost fwi = fw as int;
    let ghost fhi = fh as int;
    let w = sf.width;
    let h = sf.height;
    let n = sf.scores.len();
    let mut alive: Vec<bool> = Vec::new();
    let mut c: usize = 0;
    while c < n
        invariant
            n == sf.scores@.len(),
            c <= n,
            thr == threshold,
            alive@.len() == c,
            forall|i: int| 0 <= i < c ==> #[trigger] alive@[i] == (sf.scores@[i] > thr),
        decreases n - c,
    {
        alive.push(sf.scores[c] as i64 > threshold as i64);
        c = c + 1;
    }
    let mut peaks: Vec<Peak> = Vec::new();
    proof {
        assert forall|x: int, y: int| 0 <= x < w && 0 <= y < h implies #[trigger] alive@[cell(
            w as int,
            x,
            y,
        )] == is_candidate(sf, thr, fwi, fhi, peaks@, x, y) by {
            lemma_cell_bounds(w as int, h as int, x, y);
        }
    }
    loop
        invariant
            sf.wf(),
            w == sf.width,
            h == sf.height,
            fw > 0,
            fh > 0,
            thr == threshold,
            fwi == fw,
            fhi == fh,
            n == w * h,
            alive@.len() == w * h,
            forall|x: int, y: int|
                0 <= x < w && 0 <= y < h ==> #[trigger] alive@[cell(w as int, x, y)]
                    == is_candidate(sf, thr, fwi, fhi, peaks@, x, y),
            forall|k: int|
                0 <= k < peaks@.len() ==> #[trigger] is_next_peak(
                    sf,
                    thr,
                    fwi,
                    fhi,
                    peaks@.take(k),
                    peaks@[k],
                ),
        ensures
            peaks_of(sf, thr, fwi, fhi, peaks@),
        decreases count_true(alive@),
    {
        let best = best_alive(sf, &alive);
        match best {
            None => {
                proof {
                    assert forall|x: int, y: int|
                        !#[trigger] is_candidate(sf, thr, fwi, fhi, peaks@, x, y) by {
                        if sf.in_bounds(x, y) {
                            assert(!alive@[cell(w as int, x, y)]);
                        }
                    }
                }
                break ;
            },
            Some(p) => {
                let ghost before = alive@;
                let ghost prior = peaks@;
                proof {
                    assert(is_next_peak(sf, thr, fwi, fhi, prior, p)) by {
                        assert(alive@[cell(w as int, p.x as int, p.y as int)]);
                        assert forall|x: int, y: int|
                            #[trigger] is_candidate(sf, thr, fwi, fhi, prior, x, y) && !(x == p.x
                                && y == p.y) implies precedes(
                            p.score as int,
                            p.x as int,
                            p.y as int,
                            sf.score_at(x, y),
                            x,
                            y,
                        ) by {
                            assert(alive@[cell(w as int, x, y)]);
                        }
                    }
                }
                clear_footprint(&mut alive, w, h, p, fw, fh);
                peaks.push(p);
                proof {
                    assert forall|x: int, y: int| 0 <= x < w && 0 <= y < h implies #[trigger] alive@[cell(
                        w as int,
                        x,
                        y,
                    )] == is_candidate(sf, thr, fwi, fhi, peaks@, x, y) by {
                        lemma_covered_push(prior, p, fwi, fhi, x, y);
                    }
                    assert forall|k: int| 0 <= k < peaks@.len() implies #[trigger] is_next_peak(
                        sf,
                        thr,
                        fwi,
                        fhi,
                        peaks@.take(k),
                        peaks@[k],
                    ) by {
                        if k < prior.len() {
                            assert(peaks@.take(k) =~= prior.take(k));
                            assert(peaks@[k] == prior[k]);
                        } else {
                            assert(peaks@.take(k) =~= prior);
                        }
                    }
                    let pc = cell(w as int, p.x as int, p.y as int);
                    lemma_cell_bounds(w as int, h as int, p.x as int, p.y as int);
                    assert(!alive@[pc]);
                    assert forall|i: int| 0 <= i < alive@.len() && #[trigger] alive@[i] implies before[i] by {
                        let x = i % (w as int);
                        let y = i / (w as int);
                        assert(i == cell(w as int, x, y) && 0 <= x < w && 0 <= y < h) by (nonlinear_arith)
                            requires
                                0 <= i < w * h,
                                x == i % (w as int),
                                y == i / (w as int),
                                w > 0,
                        ;
                    }
                    lemma_count_shrinks(before, alive@, pc);
                }
            },
        }
    }
    peaks
}

} // verus!
