//! Geometry of board lines: the squares of a ray, the squares strictly between
//! two aligned squares, and the full line through them.
use vstd::prelude::*;
use crate::attacks::{aligned, between_sq, cheb, lemma_coords, line_sq, ray_on, ray_sq, sign, steps};
use crate::types::{file_of, rank_of};

verus! {

/// A step along a rank, a file or a diagonal.
pub open spec fn unit_dir(df: int, dr: int) -> bool {
    -1 <= df <= 1 && -1 <= dr <= 1 && (df != 0 || dr != 0)
}

/// Coordinates of a square on a ray.
pub proof fn lemma_ray_coords(a: int, df: int, dr: int, k: int)
    requires
        0 <= a < 64,
        -1 <= df <= 1,
        -1 <= dr <= 1,
        ray_on(a, df, dr, k),
    ensures
        0 <= ray_sq(a, df, dr, k) < 64,
        file_of(ray_sq(a, df, dr, k)) == file_of(a) + steps(k, df),
        rank_of(ray_sq(a, df, dr, k)) == rank_of(a) + steps(k, dr),
{
    lemma_coords(rank_of(a) + steps(k, dr), file_of(a) + steps(k, df));
}

/// Squares with the same coordinates are the same square.
pub proof fn lemma_same_coords(a: int, b: int)
    requires
        0 <= a < 64,
        0 <= b < 64,
        file_of(a) == file_of(b),
        rank_of(a) == rank_of(b),
    ensures
        a == b,
{
}

/// The squares between the ends of a ray are on the board.
pub proof fn lemma_ray_on_inside(a: int, df: int, dr: int, i: int, j: int)
    requires
        0 <= a < 64,
        -1 <= df <= 1,
        -1 <= dr <= 1,
        ray_on(a, df, dr, j),
        0 <= i <= j,
    ensures
        ray_on(a, df, dr, i),
{
}

/// Aligned squares: the second is `cheb` steps from the first along the signs of
/// their coordinate differences.
pub proof fn lemma_aligned_ray(a: int, b: int)
    requires
        aligned(a, b),
    ensures
        unit_dir(sign(file_of(b) - file_of(a)), sign(rank_of(b) - rank_of(a))),
        1 <= cheb(a, b) < 8,
        ray_on(a, sign(file_of(b) - file_of(a)), sign(rank_of(b) - rank_of(a)), cheb(a, b)),
        ray_sq(a, sign(file_of(b) - file_of(a)), sign(rank_of(b) - rank_of(a)), cheb(a, b)) == b,
{
    let df = sign(file_of(b) - file_of(a));
    let dr = sign(rank_of(b) - rank_of(a));
    let n = cheb(a, b);
    assert(file_of(b) - file_of(a) == steps(n, df));
    assert(rank_of(b) - rank_of(a) == steps(n, dr));
    lemma_ray_coords(a, df, dr, n);
    lemma_same_coords(ray_sq(a, df, dr, n), b);
}

/// The end of a ray from `a` is aligned with `a`, in the ray's direction, at the
/// ray's length.
pub proof fn lemma_ray_end(a: int, df: int, dr: int, j: int)
    requires
        0 <= a < 64,
        unit_dir(df, dr),
        1 <= j < 8,
        ray_on(a, df, dr, j),
    ensures
        aligned(a, ray_sq(a, df, dr, j)),
        sign(file_of(ray_sq(a, df, dr, j)) - file_of(a)) == df,
        sign(rank_of(ray_sq(a, df, dr, j)) - rank_of(a)) == dr,
        cheb(a, ray_sq(a, df, dr, j)) == j,
{
    lemma_ray_coords(a, df, dr, j);
}

/// The squares strictly between `a` and the end of a ray from it are those of
/// the ray before its end.
pub proof fn lemma_ray_segment(a: int, df: int, dr: int, j: int, y: int)
    requires
        0 <= a < 64,
        unit_dir(df, dr),
        1 <= j < 8,
        ray_on(a, df, dr, j),
    ensures
        between_sq(a, ray_sq(a, df, dr, j), y) <==> (exists|i: int|
            #![trigger ray_sq(a, df, dr, i)]
            0 < i < j && y == ray_sq(a, df, dr, i)),
{
    lemma_ray_end(a, df, dr, j);
}

/// Strictly between is symmetric.
pub proof fn lemma_between_sym(a: int, b: int, y: int)
    ensures
        between_sq(a, b, y) == between_sq(b, a, y),
{
    if aligned(a, b) {
        lemma_aligned_ray(a, b);
        let df = sign(file_of(b) - file_of(a));
        let dr = sign(rank_of(b) - rank_of(a));
        let n = cheb(a, b);
        lemma_ray_segment(a, df, dr, n, y);
        lemma_ray_coords(a, df, dr, n);
        assert(ray_on(b, -df, -dr, n));
        lemma_ray_coords(b, -df, -dr, n);
        lemma_same_coords(ray_sq(b, -df, -dr, n), a);
        lemma_ray_segment(b, -df, -dr, n, y);
        if between_sq(a, b, y) {
            let i = choose|i: int| #![trigger ray_sq(a, df, dr, i)] 0 < i < n && y == ray_sq(a, df, dr, i);
            lemma_ray_on_inside(a, df, dr, i, n);
            lemma_ray_coords(a, df, dr, i);
            lemma_ray_on_inside(b, -df, -dr, n - i, n);
            lemma_ray_coords(b, -df, -dr, n - i);
            lemma_same_coords(ray_sq(b, -df, -dr, n - i), y);
        }
        if between_sq(b, a, y) {
            let i = choose|i: int| #![trigger ray_sq(b, -df, -dr, i)] 0 < i < n && y == ray_sq(b, -df, -dr, i);
            lemma_ray_on_inside(b, -df, -dr, i, n);
            lemma_ray_coords(b, -df, -dr, i);
            lemma_ray_on_inside(a, df, dr, n - i, n);
            lemma_ray_coords(a, df, dr, n - i);
            lemma_same_coords(ray_sq(a, df, dr, n - i), y);
        }
    } else {
        assert(!aligned(b, a));
    }
}

/// Seen from a square `f` strictly inside the segment from `x` to the end `k` of
/// a ray, a square of the line through them that lies outside the closed segment
/// is beyond `x` or beyond `k`.
pub proof fn lemma_line_outside(x: int, df: int, dr: int, j: int, i0: int, t: int)
    requires
        0 <= x < 64,
        unit_dir(df, dr),
        1 <= j < 8,
        ray_on(x, df, dr, j),
        0 < i0 < j,
        line_sq(ray_sq(x, df, dr, j), ray_sq(x, df, dr, i0), t),
        t != x,
        t != ray_sq(x, df, dr, j),
        forall|i: int| 0 < i < j ==> t != #[trigger] ray_sq(x, df, dr, i),
    ensures
        between_sq(ray_sq(x, df, dr, i0), t, x) || between_sq(
            ray_sq(x, df, dr, i0),
            t,
            ray_sq(x, df, dr, j),
        ),
{
    let k = ray_sq(x, df, dr, j);
    let f = ray_sq(x, df, dr, i0);
    lemma_ray_coords(x, df, dr, j);
    lemma_ray_on_inside(x, df, dr, i0, j);
    lemma_ray_coords(x, df, dr, i0);
    let ef = sign(file_of(f) - file_of(k));
    let er = sign(rank_of(f) - rank_of(k));
    assert(ef == -df && er == -dr);
    let jj = choose|jj: int|
        #![trigger ray_sq(k, ef, er, jj)]
        -8 < jj < 8 && ray_on(k, ef, er, jj) && t == ray_sq(k, ef, er, jj);
    lemma_ray_coords(k, ef, er, jj);
    let it = j - jj;
    assert(file_of(t) == file_of(x) + steps(it, df));
    assert(rank_of(t) == rank_of(x) + steps(it, dr));
    if it == 0 {
        lemma_same_coords(t, x);
    } else if it == j {
        lemma_same_coords(t, k);
    } else if 0 < it < j {
        lemma_ray_on_inside(x, df, dr, it, j);
        lemma_ray_coords(x, df, dr, it);
        lemma_same_coords(t, ray_sq(x, df, dr, it));
        assert(t != ray_sq(x, df, dr, it));
    } else if it < 0 {
        let n = i0 - it;
        assert(ray_on(f, -df, -dr, n));
        lemma_ray_coords(f, -df, -dr, n);
        lemma_same_coords(ray_sq(f, -df, -dr, n), t);
        assert(1 <= n < 8);
        assert(ray_on(f, -df, -dr, i0));
        lemma_ray_coords(f, -df, -dr, i0);
        lemma_same_coords(ray_sq(f, -df, -dr, i0), x);
        lemma_ray_segment(f, -df, -dr, n, x);
    } else {
        let n = it - i0;
        assert(ray_on(f, df, dr, n));
        lemma_ray_coords(f, df, dr, n);
        lemma_same_coords(ray_sq(f, df, dr, n), t);
        assert(1 <= n < 8);
        assert(ray_on(f, df, dr, j - i0));
        lemma_ray_coords(f, df, dr, j - i0);
        lemma_same_coords(ray_sq(f, df, dr, j - i0), k);
        lemma_ray_segment(f, df, dr, n, k);
    }
}

/// A square strictly between `a` and `b` is on the ray from `a` toward `b`, at
/// its king-step distance from `a`.
pub proof fn lemma_between_ray(a: int, b: int, y: int)
    requires
        between_sq(a, b, y),
    ensures
        unit_dir(sign(file_of(b) - file_of(a)), sign(rank_of(b) - rank_of(a))),
        0 < cheb(a, y) < cheb(a, b),
        ray_on(a, sign(file_of(b) - file_of(a)), sign(rank_of(b) - rank_of(a)), cheb(a, y)),
        y == ray_sq(a, sign(file_of(b) - file_of(a)), sign(rank_of(b) - rank_of(a)), cheb(a, y)),
        sign(file_of(y) - file_of(a)) == sign(file_of(b) - file_of(a)),
        sign(rank_of(y) - rank_of(a)) == sign(rank_of(b) - rank_of(a)),
        0 <= y < 64,
{
    lemma_aligned_ray(a, b);
    let df = sign(file_of(b) - file_of(a));
    let dr = sign(rank_of(b) - rank_of(a));
    let n = cheb(a, b);
    lemma_ray_segment(a, df, dr, n, y);
    let i = choose|i: int| #![trigger ray_sq(a, df, dr, i)] 0 < i < n && y == ray_sq(a, df, dr, i);
    lemma_ray_on_inside(a, df, dr, i, n);
    lemma_ray_end(a, df, dr, i);
}

/// Squares strictly between `x` and `k` lie on the line through `k` and any one
/// of them, and so does `x`.
pub proof fn lemma_between_line(x: int, k: int, f: int, y: int)
    requires
        between_sq(x, k, f),
        between_sq(x, k, y) || y == x,
    ensures
        line_sq(k, f, y),
{
    lemma_between_sym(x, k, f);
    lemma_between_ray(k, x, f);
    lemma_aligned_ray(k, x);
    let ef = sign(file_of(x) - file_of(k));
    let er = sign(rank_of(x) - rank_of(k));
    assert(aligned(k, f)) by {
        lemma_ray_end(k, ef, er, cheb(k, f));
    }
    if y == x {
        assert(ray_sq(k, ef, er, cheb(k, x)) == y);
        assert(-8 < cheb(k, x) < 8);
    } else {
        lemma_between_sym(x, k, y);
        lemma_between_ray(k, x, y);
        assert(-8 < cheb(k, y) < 8);
    }
}

/// Two squares that both have `t` strictly between them and `k` lie on one ray
/// from `k`: the nearer is strictly between `k` and the farther.
pub proof fn lemma_same_ray(k: int, a1: int, a2: int, t: int)
    requires
        between_sq(k, a1, t),
        between_sq(k, a2, t),
        a1 != a2,
    ensures
        between_sq(k, a2, a1) || between_sq(k, a1, a2),
{
    lemma_between_ray(k, a1, t);
    lemma_between_ray(k, a2, t);
    let df = sign(file_of(a1) - file_of(k));
    let dr = sign(rank_of(a1) - rank_of(k));
    assert(sign(file_of(a2) - file_of(k)) == df);
    assert(sign(rank_of(a2) - rank_of(k)) == dr);
    lemma_aligned_ray(k, a1);
    lemma_aligned_ray(k, a2);
    let n1 = cheb(k, a1);
    let n2 = cheb(k, a2);
    if n1 < n2 {
        lemma_ray_segment(k, df, dr, n2, a1);
        lemma_ray_on_inside(k, df, dr, n1, n2);
    } else if n2 < n1 {
        lemma_ray_segment(k, df, dr, n1, a2);
        lemma_ray_on_inside(k, df, dr, n2, n1);
    }
}

} // verus!
