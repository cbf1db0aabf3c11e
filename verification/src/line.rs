//! The walk of a straight line between two pixel positions.
//!
//! A line from `p0` to `p1` advances one unit per step along its longer
//! axis and follows the ideal line on the other axis, rounded to the nearest
//! pixel. A position is a pair `(x, y)` of integers and may lie anywhere in
//! the plane.

use vstd::prelude::*;
use vstd::arithmetic::div_mod::{lemma_fundamental_div_mod, lemma_fundamental_div_mod_converse, lemma_mod_bound};

verus! {

/// Distance between two coordinates.
pub open spec fn span(a: int, b: int) -> int {
    if a <= b {
        b - a
    } else {
        a - b
    }
}

/// Number of steps of the line from `p0` to `p1`: the larger of its two spans.
pub open spec fn step_count(p0: (int, int), p1: (int, int)) -> int {
    let dx = span(p0.0, p1.0);
    let dy = span(p0.1, p1.1);
    if dx >= dy {
        dx
    } else {
        dy
    }
}

/// The coordinate `k` units away from `from` in the direction of `to`.
pub open spec fn toward(from: int, to: int, k: int) -> int {
    if from < to {
        from + k
    } else {
        from - k
    }
}

/// Progress along the shorter axis after `k` steps along the longer one:
/// `k * minor / major` rounded to the nearest integer, an exact half rounded
/// down.
pub open spec fn minor_steps(k: int, minor: int, major: int) -> int {
    if major <= 0 {
        0
    } else {
        (2 * (k * minor) + major - 1) / (2 * major)
    }
}

/// The position reached after `k` steps of the line from `p0` to `p1`.
pub open spec fn line_point(p0: (int, int), p1: (int, int), k: int) -> (int, int) {
    let dx = span(p0.0, p1.0);
    let dy = span(p0.1, p1.1);
    if dx >= dy {
        (toward(p0.0, p1.0, k), toward(p0.1, p1.1, minor_steps(k, dy, dx)))
    } else {
        (toward(p0.0, p1.0, minor_steps(k, dx, dy)), toward(p0.1, p1.1, k))
    }
}

/// All positions of the line from `p0` to `p1`, in the order they are visited.
pub open spec fn line_points(p0: (int, int), p1: (int, int)) -> Seq<(int, int)> {
    Seq::new((step_count(p0, p1) + 1) as nat, |k: int| line_point(p0, p1, k))
}

/// Twice the signed distance, in units of `1 / major`, by which `b` minor
/// steps run ahead of the ideal line after `k` major steps.
pub open spec fn lead(k: int, b: int, minor: int, major: int) -> int {
    2 * (major * b - k * minor)
}

/// `minor_steps` is the one count that stays within half a pixel of the
/// ideal line, the upper half excluded.
pub proof fn lemma_minor_steps_nearest(k: int, minor: int, major: int)
    requires
        0 < major,
    ensures
        -major <= lead(k, minor_steps(k, minor, major), minor, major) < major,
{
    let x = 2 * (k * minor) + major - 1;
    let d = 2 * major;
    lemma_fundamental_div_mod(x, d);
    lemma_mod_bound(x, d);
    let b = x / d;
    assert(d * b == 2 * (major * b)) by (nonlinear_arith)
        requires
            d == 2 * major,
    ;
}

/// A count within half a pixel of the ideal line is `minor_steps`.
pub proof fn lemma_minor_steps_unique(k: int, b: int, minor: int, major: int)
    requires
        0 < major,
        -major <= lead(k, b, minor, major) < major,
    ensures
        minor_steps(k, minor, major) == b,
{
    let x = 2 * (k * minor) + major - 1;
    let d = 2 * major;
    let r = x - 2 * (major * b);
    assert(b * d == 2 * (major * b)) by (nonlinear_arith)
        requires
            d == 2 * major,
    ;
    lemma_fundamental_div_mod_converse(x, d, b, r);
}

/// The shorter axis starts at 0, ends at `minor`, and never leaves that range.
pub proof fn lemma_minor_steps_range(k: int, minor: int, major: int)
    requires
        0 < major,
        0 <= minor <= major,
        0 <= k <= major,
    ensures
        0 <= minor_steps(k, minor, major) <= minor,
        minor_steps(0, minor, major) == 0,
        minor_steps(major, minor, major) == minor,
        minor == major ==> minor_steps(k, minor, major) == k,
{
    lemma_minor_steps_nearest(k, minor, major);
    let b = minor_steps(k, minor, major);
    assert(0 <= b <= minor) by (nonlinear_arith)
        requires
            0 < major,
            0 <= minor <= major,
            0 <= k <= major,
            -major <= 2 * (major * b - k * minor) < major,
    ;
    assert(lead(0, 0, minor, major) == 0) by (nonlinear_arith);
    lemma_minor_steps_unique(0, 0, minor, major);
    assert(lead(major, minor, minor, major) == 0) by (nonlinear_arith);
    lemma_minor_steps_unique(major, minor, minor, major);
    if minor == major {
        assert(lead(k, k, minor, major) == 0) by (nonlinear_arith)
            requires
                minor == major,
        ;
        lemma_minor_steps_unique(k, k, minor, major);
    }
}

/// One step of the walk. With `e` twice the error term after `k` steps, the
/// longer axis always advances (`e > -minor`), and the shorter axis advances
/// exactly when `e < major`.
pub proof fn lemma_minor_steps_next(k: int, minor: int, major: int)
    requires
        0 < major,
        0 <= minor <= major,
        0 <= k < major,
    ensures
        ({
            let b = minor_steps(k, minor, major);
            let e = 2 * (major * (b + 1) - minor * (k + 1));
            &&& e > -minor
            &&& e < 3 * major
            &&& minor_steps(k + 1, minor, major) == if e < major {
                b + 1
            } else {
                b
            }
        }),
{
    let b = minor_steps(k, minor, major);
    let e = 2 * (major * (b + 1) - minor * (k + 1));
    lemma_minor_steps_nearest(k, minor, major);
    lemma_minor_steps_range(k, minor, major);
    let l = lead(k, b, minor, major);
    assert(e == l + 2 * major - 2 * minor) by (nonlinear_arith)
        requires
            e == 2 * (major * (b + 1) - minor * (k + 1)),
            l == 2 * (major * b - k * minor),
    ;
    assert(lead(k + 1, b + 1, minor, major) == e) by (nonlinear_arith)
        requires
            e == 2 * (major * (b + 1) - minor * (k + 1)),
    ;
    assert(lead(k + 1, b, minor, major) == e - 2 * major) by (nonlinear_arith)
        requires
            e == 2 * (major * (b + 1) - minor * (k + 1)),
    ;
    if minor == major {
        assert(l == 0) by (nonlinear_arith)
            requires
                b == k,
                minor == major,
                l == 2 * (major * b - k * minor),
        ;
    }
    if e < major {
        lemma_minor_steps_unique(k + 1, b + 1, minor, major);
    } else {
        lemma_minor_steps_unique(k + 1, b, minor, major);
    }
}

/// Every position of a line lies in the box spanned by its endpoints.
pub proof fn lemma_line_point_in_box(p0: (int, int), p1: (int, int), k: int)
    requires
        0 <= k <= step_count(p0, p1),
    ensures
        span(p0.0, line_point(p0, p1, k).0) <= span(p0.0, p1.0),
        span(p0.1, line_point(p0, p1, k).1) <= span(p0.1, p1.1),
        span(p0.0, line_point(p0, p1, k).0) + span(line_point(p0, p1, k).0, p1.0) == span(
            p0.0,
            p1.0,
        ),
        span(p0.1, line_point(p0, p1, k).1) + span(line_point(p0, p1, k).1, p1.1) == span(
            p0.1,
            p1.1,
        ),
{
    let dx = span(p0.0, p1.0);
    let dy = span(p0.1, p1.1);
    if dx >= dy {
        if dx > 0 {
            lemma_minor_steps_range(k, dy, dx);
        }
    } else {
        lemma_minor_steps_range(k, dx, dy);
    }
}

/// The walk of a line: it visits one position more than the larger of the
/// two spans of its endpoints, starts at `p0`, ends at `p1`, and from one
/// position to the next moves at most one unit along each axis, and exactly
/// one unit along the longer axis.
pub proof fn lemma_line_walk(p0: (int, int), p1: (int, int))
    ensures
        line_points(p0, p1).len() == step_count(p0, p1) + 1,
        step_count(p0, p1) >= span(p0.0, p1.0),
        step_count(p0, p1) >= span(p0.1, p1.1),
        step_count(p0, p1) == span(p0.0, p1.0) || step_count(p0, p1) == span(p0.1, p1.1),
        line_points(p0, p1).first() == p0,
        line_points(p0, p1).last() == p1,
        forall|k: int|
            #![trigger line_points(p0, p1)[k]]
            0 <= k < step_count(p0, p1) ==> {
                let here = line_points(p0, p1)[k];
                let next = line_points(p0, p1)[k + 1];
                &&& span(here.0, next.0) <= 1
                &&& span(here.1, next.1) <= 1
                &&& span(here.0, next.0) == 1 || span(here.1, next.1) == 1
            },
{
    let dx = span(p0.0, p1.0);
    let dy = span(p0.1, p1.1);
    let n = step_count(p0, p1);
    if dx >= dy {
        if dx > 0 {
            lemma_minor_steps_range(0, dy, dx);
        }
    } else {
        lemma_minor_steps_range(0, dx, dy);
    }
    assert(line_points(p0, p1)[0] == p0);
    assert(line_points(p0, p1)[n] == p1);
    assert forall|k: int| #![trigger line_points(p0, p1)[k]] 0 <= k < n implies {
        let here = line_points(p0, p1)[k];
        let next = line_points(p0, p1)[k + 1];
        &&& span(here.0, next.0) <= 1
        &&& span(here.1, next.1) <= 1
        &&& span(here.0, next.0) == 1 || span(here.1, next.1) == 1
    } by {
        assert(line_points(p0, p1)[k + 1] == line_point(p0, p1, k + 1));
        if dx >= dy {
            lemma_minor_steps_next(k, dy, dx);
        } else {
            lemma_minor_steps_next(k, dx, dy);
        }
    }
}

/// No position of a line is visited twice.
pub proof fn lemma_line_points_distinct(p0: (int, int), p1: (int, int), j: int, k: int)
    requires
        0 <= j < k <= step_count(p0, p1),
    ensures
        line_points(p0, p1)[j] != line_points(p0, p1)[k],
{
}

/// Only the last position of a line is its end point, so a walk that
/// stops on reaching `p1` visits every position of the line.
pub proof fn lemma_line_end_is_last(p0: (int, int), p1: (int, int), k: int)
    requires
        0 <= k <= step_count(p0, p1),
    ensures
        line_point(p0, p1, k) == p1 <==> k == step_count(p0, p1),
{
    let dx = span(p0.0, p1.0);
    let dy = span(p0.1, p1.1);
    if dx >= dy {
        if dx > 0 {
            lemma_minor_steps_range(dx, dy, dx);
        }
    } else {
        lemma_minor_steps_range(dy, dx, dy);
    }
}

} // verus!
