//! Drawing into a pixel buffer.
//!
//! The buffer is a flat, row-major sequence of packed pixels, `WIDTH` to a
//! row. Its height is the number of whole rows it holds, so a position is
//! drawable when `0 <= x < WIDTH` and `0 <= y < len / WIDTH`; anything else
//! is skipped without effect.

use vstd::prelude::*;
use crate::color::{BLACK, WHITE};
use crate::geometry::{face_edge, face_lists, faces_in_range};
use crate::line::{
    lemma_line_end_is_last, lemma_line_point_in_box, lemma_minor_steps_next,
    lemma_minor_steps_range, line_point, line_points, minor_steps, span, step_count,
};

verus! {

/// Pixels in one row of the canvas.
pub const WIDTH: usize = 600;

/// Rows of the canvas.
pub const HEIGHT: usize = 600;

/// A screen point as a position in the plane.
pub open spec fn position(p: (i32, i32)) -> (int, int) {
    (p.0 as int, p.1 as int)
}

/// Whether position `p` is a pixel of a buffer of `len` pixels.
pub open spec fn in_canvas(len: nat, p: (int, int)) -> bool {
    0 <= p.0 < WIDTH && 0 <= p.1 < len / (WIDTH as nat)
}

/// Place of the pixel at position `p` in the buffer.
pub open spec fn pixel_index(p: (int, int)) -> int {
    p.1 * WIDTH + p.0
}

/// Whether one of the positions `pts` is the pixel stored at index `i` of a
/// buffer of `len` pixels.
pub open spec fn hits(pts: Seq<(int, int)>, len: nat, i: int) -> bool {
    exists|k: int|
        0 <= k < pts.len() && in_canvas(len, #[trigger] pts[k]) && pixel_index(pts[k]) == i
}

/// The buffer `buf` with every drawable position of `pts` set to white.
pub open spec fn plotted(buf: Seq<u32>, pts: Seq<(int, int)>) -> Seq<u32> {
    Seq::new(
        buf.len(),
        |i: int|
            if hits(pts, buf.len(), i) {
                WHITE
            } else {
                buf[i]
            },
    )
}

/// The error term of the line walk after `k` steps: how far the position
/// has drifted from the ideal line, scaled by the two spans.
spec fn error_term(k: int, dx: int, dy: int) -> int {
    if dx >= dy {
        dx * (minor_steps(k, dy, dx) + 1) - dy * (k + 1)
    } else {
        dx * (k + 1) - dy * (minor_steps(k, dx, dy) + 1)
    }
}

/// Before the first step the error term is the difference of the spans.
proof fn lemma_error_start(dx: int, dy: int)
    requires
        0 <= dx,
        0 <= dy,
    ensures
        error_term(0, dx, dy) == dx - dy,
{
    if dx >= dy {
        if dx > 0 {
            lemma_minor_steps_range(0, dy, dx);
        }
        assert(dx * (0 + 1) - dy * (0 + 1) == dx - dy) by (nonlinear_arith);
    } else {
        lemma_minor_steps_range(0, dx, dy);
        assert(dx * (0 + 1) - dy * (0 + 1) == dx - dy) by (nonlinear_arith);
    }
}

/// One step of the walk, read off the error term: which axes advance, what
/// the error term becomes, and how large it can be.
proof fn lemma_error_step(k: int, dx: int, dy: int)
    requires
        0 <= dx,
        0 <= dy,
        0 <= k < (if dx >= dy {
            dx
        } else {
            dy
        }),
    ensures
        ({
            let err = error_term(k, dx, dy);
            let along_x = 2 * err > -dy;
            let along_y = 2 * err < dx;
            &&& -3 * dy < 2 * err < 3 * dx
            &&& dx >= dy ==> along_x && minor_steps(k + 1, dy, dx) == minor_steps(k, dy, dx) + (
            if along_y {
                1int
            } else {
                0int
            })
            &&& dx < dy ==> along_y && minor_steps(k + 1, dx, dy) == minor_steps(k, dx, dy) + (
            if along_x {
                1int
            } else {
                0int
            })
            &&& error_term(k + 1, dx, dy) == err - (if along_x {
                dy
            } else {
                0
            }) + (if along_y {
                dx
            } else {
                0
            })
        }),
{
    let err = error_term(k, dx, dy);
    if dx >= dy {
        let b = minor_steps(k, dy, dx);
        lemma_minor_steps_next(k, dy, dx);
        assert(dx * (b + 2) - dy * (k + 2) == dx * (b + 1) - dy * (k + 1) + dx - dy)
            by (nonlinear_arith);
        assert(dx * (b + 1) - dy * (k + 2) == dx * (b + 1) - dy * (k + 1) - dy)
            by (nonlinear_arith);
    } else {
        let a = minor_steps(k, dx, dy);
        lemma_minor_steps_next(k, dx, dy);
        assert(2 * err == -(2 * (dy * (a + 1) - dx * (k + 1)))) by (nonlinear_arith)
            requires
                err == dx * (k + 1) - dy * (a + 1),
        ;
        assert(dx * (k + 2) - dy * (a + 2) == dx * (k + 1) - dy * (a + 1) + dx - dy)
            by (nonlinear_arith);
        assert(dx * (k + 2) - dy * (a + 1) == dx * (k + 1) - dy * (a + 1) + dx)
            by (nonlinear_arith);
    }
}

/// Plotting one position more sets at most the pixel of that position.
proof fn lemma_plot_next(buf: Seq<u32>, pts: Seq<(int, int)>, k: int)
    requires
        0 <= k < pts.len(),
    ensures
        plotted(buf, pts.take(k + 1)) == if in_canvas(buf.len(), pts[k]) && 0 <= pixel_index(pts[k])
            < buf.len() {
            plotted(buf, pts.take(k)).update(pixel_index(pts[k]), WHITE)
        } else {
            plotted(buf, pts.take(k))
        },
        in_canvas(buf.len(), pts[k]) ==> 0 <= pixel_index(pts[k]) < buf.len(),
{
    let len = buf.len();
    let shorter = pts.take(k);
    let longer = pts.take(k + 1);
    let here = in_canvas(len, pts[k]);
    assert forall|i: int| hits(longer, len, i) <==> hits(shorter, len, i) || (here && pixel_index(
        pts[k],
    ) == i) by {
        if hits(longer, len, i) {
            let j = choose|j: int|
                0 <= j < longer.len() && in_canvas(len, #[trigger] longer[j]) && pixel_index(
                    longer[j],
                ) == i;
            if j < k {
                assert(shorter[j] == longer[j]);
            }
        }
        if hits(shorter, len, i) {
            let j = choose|j: int|
                0 <= j < shorter.len() && in_canvas(len, #[trigger] shorter[j]) && pixel_index(
                    shorter[j],
                ) == i;
            assert(longer[j] == shorter[j]);
        }
        if here && pixel_index(pts[k]) == i {
            assert(longer[k] == pts[k]);
        }
    }
    assert(plotted(buf, longer) =~= if here && 0 <= pixel_index(pts[k]) < len {
        plotted(buf, shorter).update(pixel_index(pts[k]), WHITE)
    } else {
        plotted(buf, shorter)
    });
}

/// Draws the line from `p0` to `p1` in white. Positions of the line that lie
/// outside the buffer are skipped; every other pixel keeps its colour.
pub fn draw_line(buffer: &mut Vec<u32>, p0: (i32, i32), p1: (i32, i32))
    ensures
        final(buffer)@ == plotted(old(buffer)@, line_points(position(p0), position(p1))),
{
    let ghost before = buffer@;
    let ghost q0 = position(p0);
    let ghost q1 = position(p1);
    let ghost pts = line_points(q0, q1);
    let ghost n = step_count(q0, q1);
    let ghost mut k: int = 0;

    let (mut x0, mut y0) = (p0.0 as i64, p0.1 as i64);
    let (x1, y1) = (p1.0 as i64, p1.1 as i64);

    let dx: i64 = if x1 >= x0 {
        x1 - x0
    } else {
        x0 - x1
    };
    let dy: i64 = if y1 >= y0 {
        y1 - y0
    } else {
        y0 - y1
    };

    let sx: i64 = if x0 < x1 {
        1
    } else {
        -1
    };
    let sy: i64 = if y0 < y1 {
        1
    } else {
        -1
    };

    let mut err: i64 = dx - dy;

    proof {
        lemma_error_start(dx as int, dy as int);
        if dx >= dy {
            if dx > 0 {
                lemma_minor_steps_range(0, dy as int, dx as int);
            }
        } else {
            lemma_minor_steps_range(0, dx as int, dy as int);
        }
        assert(plotted(before, pts.take(0)) =~= before);
    }

    loop
        invariant_except_break
            buffer@ == plotted(before, pts.take(k)),
        invariant
            q0 == position(p0),
            q1 == position(p1),
            pts == line_points(q0, q1),
            n == step_count(q0, q1),
            x1 == p1.0,
            y1 == p1.1,
            dx == span(q0.0, q1.0),
            dy == span(q0.1, q1.1),
            sx == (if q0.0 < q1.0 {
                1int
            } else {
                -1int
            }),
            sy == (if q0.1 < q1.1 {
                1int
            } else {
                -1int
            }),
            0 <= k <= n,
            (x0 as int, y0 as int) == line_point(q0, q1, k),
            err == error_term(k, dx as int, dy as int),
        ensures
            buffer@ == plotted(before, pts),
        decreases n - k,
    {
        proof {
            lemma_plot_next(before, pts, k);
            lemma_line_point_in_box(q0, q1, k);
        }
        if x0 >= 0 && y0 >= 0 && (x0 as usize) < WIDTH && (y0 as usize) < buffer.len() / WIDTH {
            let idx = (y0 as usize) * WIDTH + (x0 as usize);
            buffer.set(idx, WHITE);
        }
        assert(buffer@ == plotted(before, pts.take(k + 1)));

        proof {
            lemma_line_end_is_last(q0, q1, k);
        }
        if x0 == x1 && y0 == y1 {
            assert(pts.take(n + 1) =~= pts);
            break;
        }
        proof {
            lemma_error_step(k, dx as int, dy as int);
            lemma_line_point_in_box(q0, q1, k + 1);
        }

        let e2 = 2 * err;
        if e2 > -dy {
            err -= dy;
            x0 += sx;
        }
        if e2 < dx {
            err += dx;
            y0 += sy;
        }
        proof {
            k = k + 1;
        }
    }
}

/// Screen points as positions in the plane.
pub open spec fn positions(points: Seq<(i32, i32)>) -> Seq<(int, int)> {
    Seq::new(points.len(), |v: int| position(points[v]))
}

/// The positions of the line that draws edge `j` of `face`.
pub open spec fn edge_points(points: Seq<(int, int)>, face: Seq<int>, j: int) -> Seq<(int, int)> {
    line_points(points[face_edge(face, j).0], points[face_edge(face, j).1])
}

/// Whether an edge that comes before edge `j_end` of face `f_end` passes
/// through the pixel stored at index `i` of a buffer of `len` pixels.
pub open spec fn outline_hits_before(
    points: Seq<(int, int)>,
    faces: Seq<Seq<int>>,
    f_end: int,
    j_end: int,
    len: nat,
    i: int,
) -> bool {
    exists|f: int, j: int|
        0 <= f < faces.len() && 0 <= j < faces[f].len() && (f < f_end || (f == f_end && j < j_end))
            && #[trigger] hits(edge_points(points, faces[f], j), len, i)
}

/// Whether an edge of some face passes through the pixel stored at index
/// `i` of a buffer of `len` pixels.
pub open spec fn outline_hits(points: Seq<(int, int)>, faces: Seq<Seq<int>>, len: nat, i: int) -> bool {
    outline_hits_before(points, faces, faces.len() as int, 0, len, i)
}

/// A frame of `len` pixels: white where an edge of a face passes, black
/// everywhere else.
pub open spec fn wireframe(len: nat, points: Seq<(int, int)>, faces: Seq<Seq<int>>) -> Seq<u32> {
    Seq::new(
        len,
        |i: int|
            if outline_hits(points, faces, len, i) {
                WHITE
            } else {
                BLACK
            },
    )
}

/// The frame with the edges before edge `j_end` of face `f_end` drawn.
spec fn partial_frame(
    len: nat,
    points: Seq<(int, int)>,
    faces: Seq<Seq<int>>,
    f_end: int,
    j_end: int,
) -> Seq<u32> {
    Seq::new(
        len,
        |i: int|
            if outline_hits_before(points, faces, f_end, j_end, len, i) {
                WHITE
            } else {
                BLACK
            },
    )
}

/// Drawing edge `j` of face `f` over the frame of the edges before it gives
/// the frame of the edges up to and including it.
proof fn lemma_frame_next_edge(len: nat, points: Seq<(int, int)>, faces: Seq<Seq<int>>, f: int, j: int)
    requires
        0 <= f < faces.len(),
        0 <= j < faces[f].len(),
    ensures
        plotted(partial_frame(len, points, faces, f, j), edge_points(points, faces[f], j))
            == partial_frame(len, points, faces, f, j + 1),
{
    let edge = edge_points(points, faces[f], j);
    assert forall|i: int| 0 <= i < len implies (outline_hits_before(points, faces, f, j + 1, len, i)
        <==> outline_hits_before(points, faces, f, j, len, i) || hits(edge, len, i)) by {
        if outline_hits_before(points, faces, f, j + 1, len, i) {
            let (g, h) = choose|g: int, h: int|
                0 <= g < faces.len() && 0 <= h < faces[g].len() && (g < f || (g == f && h < j + 1))
                    && #[trigger] hits(edge_points(points, faces[g], h), len, i);
            if g == f && h == j {
            } else {
                assert(outline_hits_before(points, faces, f, j, len, i));
            }
        }
        if outline_hits_before(points, faces, f, j, len, i) {
            let (g, h) = choose|g: int, h: int|
                0 <= g < faces.len() && 0 <= h < faces[g].len() && (g < f || (g == f && h < j))
                    && #[trigger] hits(edge_points(points, faces[g], h), len, i);
            assert(hits(edge_points(points, faces[g], h), len, i));
        }
    }
    assert(plotted(partial_frame(len, points, faces, f, j), edge) =~= partial_frame(
        len,
        points,
        faces,
        f,
        j + 1,
    ));
}

/// The edges before the end of one face are the edges before the start of
/// the next.
proof fn lemma_frame_next_face(len: nat, points: Seq<(int, int)>, faces: Seq<Seq<int>>, f: int)
    requires
        0 <= f < faces.len(),
    ensures
        partial_frame(len, points, faces, f, faces[f].len() as int) == partial_frame(
            len,
            points,
            faces,
            f + 1,
            0,
        ),
{
    let j_end = faces[f].len() as int;
    assert forall|i: int| 0 <= i < len implies (outline_hits_before(points, faces, f, j_end, len, i)
        <==> outline_hits_before(points, faces, f + 1, 0, len, i)) by {
        if outline_hits_before(points, faces, f, j_end, len, i) {
            let (g, h) = choose|g: int, h: int|
                0 <= g < faces.len() && 0 <= h < faces[g].len() && (g < f || (g == f && h < j_end))
                    && #[trigger] hits(edge_points(points, faces[g], h), len, i);
            assert(hits(edge_points(points, faces[g], h), len, i));
        }
        if outline_hits_before(points, faces, f + 1, 0, len, i) {
            let (g, h) = choose|g: int, h: int|
                0 <= g < faces.len() && 0 <= h < faces[g].len() && (g < f + 1 || (g == f + 1 && h
                    < 0)) && #[trigger] hits(edge_points(points, faces[g], h), len, i);
            assert(hits(edge_points(points, faces[g], h), len, i));
        }
    }
    assert(partial_frame(len, points, faces, f, j_end) =~= partial_frame(len, points, faces, f + 1, 0));
}

/// Sets every pixel of the buffer to black.
pub fn clear(buffer: &mut Vec<u32>)
    ensures
        final(buffer)@ == Seq::new(old(buffer)@.len(), |i: int| BLACK),
{
    let len = buffer.len();
    let mut idx: usize = 0;
    while idx < len
        invariant
            buffer.len() == len,
            idx <= len,
            forall|i: int| 0 <= i < idx ==> buffer@[i] == BLACK,
        decreases len - idx,
    {
        buffer.set(idx, BLACK);
        idx += 1;
    }
    assert(buffer@ =~= Seq::new(len as nat, |i: int| BLACK));
}

/// Draws the outline of every face: clears the buffer to black, then joins
/// each vertex of a face to the next, and the last to the first, by a white
/// line between their screen points.
pub fn draw(buffer: &mut Vec<u32>, vertex: &Vec<(i32, i32)>, faces: &Vec<Vec<i32>>)
    requires
        faces_in_range(face_lists(faces@), vertex@.len()),
    ensures
        final(buffer)@ == wireframe(old(buffer)@.len(), positions(vertex@), face_lists(faces@)),
        forall|i: int|
            0 <= i < final(buffer)@.len() ==> final(buffer)@[i] == BLACK || final(buffer)@[i]
                == WHITE,
{
    let ghost len = buffer@.len();
    let ghost points = positions(vertex@);
    let ghost lists = face_lists(faces@);

    clear(buffer);
    assert(buffer@ =~= partial_frame(len, points, lists, 0, 0));

    let mut i: usize = 0;
    while i < faces.len()
        invariant
            len == buffer@.len(),
            points == positions(vertex@),
            lists == face_lists(faces@),
            faces_in_range(lists, vertex@.len()),
            i <= faces.len(),
            buffer@ == partial_frame(len, points, lists, i as int, 0),
        decreases faces.len() - i,
    {
        let face = &faces[i];
        let mut j: usize = 0;
        while j < face.len()
            invariant
                len == buffer@.len(),
                points == positions(vertex@),
                lists == face_lists(faces@),
                faces_in_range(lists, vertex@.len()),
                i < faces.len(),
                face == faces@[i as int],
                j <= face.len(),
                buffer@ == partial_frame(len, points, lists, i as int, j as int),
            decreases face.len() - j,
        {
            let start_idx = face[j];
            let end_idx = face[(j + 1) % face.len()];
            proof {
                let next = (j + 1) % (face.len() as int);
                assert(lists[i as int][j as int] == start_idx);
                assert(lists[i as int][next] == end_idx);
                lemma_frame_next_edge(len, points, lists, i as int, j as int);
            }
            draw_line(buffer, vertex[start_idx as usize], vertex[end_idx as usize]);
            j += 1;
        }
        proof {
            lemma_frame_next_face(len, points, lists, i as int);
        }
        i += 1;
    }
    assert(buffer@ =~= wireframe(len, points, lists));
}

} // verus!
