use wireframe::color::{BLACK, WHITE};
use wireframe::raster::{clear, draw, draw_line, HEIGHT, WIDTH};

fn blank() -> Vec<u32> {
    vec![BLACK; WIDTH * HEIGHT]
}

fn white_pixels(buffer: &[u32]) -> Vec<(usize, usize)> {
    let mut found = Vec::new();
    for (i, pixel) in buffer.iter().enumerate() {
        if *pixel == WHITE {
            found.push((i % WIDTH, i / WIDTH));
        }
    }
    found
}

#[test]
fn canvas_is_600_by_600() {
    assert_eq!(WIDTH, 600);
    assert_eq!(HEIGHT, 600);
}

#[test]
fn single_point_line_sets_one_pixel() {
    let mut buffer = blank();
    draw_line(&mut buffer, (7, 3), (7, 3));
    assert_eq!(white_pixels(&buffer), vec![(7, 3)]);
}

#[test]
fn shallow_line_rounds_half_towards_start() {
    let mut buffer = blank();
    draw_line(&mut buffer, (0, 0), (2, 1));
    assert_eq!(white_pixels(&buffer), vec![(0, 0), (1, 0), (2, 1)]);
}

#[test]
fn reversed_shallow_line_takes_the_other_middle_pixel() {
    let mut buffer = blank();
    draw_line(&mut buffer, (2, 1), (0, 0));
    assert_eq!(white_pixels(&buffer), vec![(0, 0), (1, 1), (2, 1)]);
}

#[test]
fn steep_line_advances_along_y() {
    let mut buffer = blank();
    draw_line(&mut buffer, (0, 0), (1, 2));
    assert_eq!(white_pixels(&buffer), vec![(0, 0), (0, 1), (1, 2)]);
}

#[test]
fn horizontal_line_to_the_left() {
    let mut buffer = blank();
    draw_line(&mut buffer, (5, 2), (1, 2));
    assert_eq!(white_pixels(&buffer), vec![(1, 2), (2, 2), (3, 2), (4, 2), (5, 2)]);
}

#[test]
fn vertical_line_upwards() {
    let mut buffer = blank();
    draw_line(&mut buffer, (3, 4), (3, 1));
    assert_eq!(white_pixels(&buffer), vec![(3, 1), (3, 2), (3, 3), (3, 4)]);
}

#[test]
fn diagonal_line_steps_both_axes() {
    let mut buffer = blank();
    draw_line(&mut buffer, (1, 1), (4, 4));
    assert_eq!(white_pixels(&buffer), vec![(1, 1), (2, 2), (3, 3), (4, 4)]);
}

#[test]
fn longer_line_matches_hand_walk() {
    // dx = 7, dy = 3: y follows 3k/7 rounded to nearest.
    let mut buffer = blank();
    draw_line(&mut buffer, (10, 20), (17, 23));
    assert_eq!(
        white_pixels(&buffer),
        vec![(10, 20), (11, 20), (12, 21), (13, 21), (14, 22), (15, 22), (16, 23), (17, 23)]
    );
}

#[test]
fn line_visits_one_more_pixel_than_its_longer_span() {
    let cases = [
        ((0, 0), (37, 11)),
        ((37, 11), (0, 0)),
        ((100, 5), (90, 300)),
        ((599, 0), (0, 599)),
        ((12, 500), (12, 20)),
    ];
    for (p0, p1) in cases {
        let mut buffer = blank();
        draw_line(&mut buffer, p0, p1);
        let dx = (p1.0 - p0.0).abs();
        let dy = (p1.1 - p0.1).abs();
        let pixels = white_pixels(&buffer);
        assert_eq!(pixels.len() as i32, dx.max(dy) + 1);
        assert_eq!(buffer[p0.1 as usize * WIDTH + p0.0 as usize], WHITE);
        assert_eq!(buffer[p1.1 as usize * WIDTH + p1.0 as usize], WHITE);
    }
}

#[test]
fn line_moves_at_most_one_pixel_per_step() {
    let mut buffer = blank();
    draw_line(&mut buffer, (3, 40), (200, 7));
    // x is the longer axis, so every column from 3 to 200 holds one pixel,
    // and neighbouring columns differ by at most one row.
    let mut rows = Vec::new();
    for x in 3..=200usize {
        let column: Vec<usize> = (0..HEIGHT).filter(|y| buffer[y * WIDTH + x] == WHITE).collect();
        assert_eq!(column.len(), 1);
        rows.push(column[0] as i64);
    }
    assert_eq!(rows[0], 40);
    assert_eq!(rows[rows.len() - 1], 7);
    for pair in rows.windows(2) {
        assert!((pair[1] - pair[0]).abs() <= 1);
    }
}

#[test]
fn line_from_far_outside_draws_the_part_inside() {
    let mut buffer = blank();
    draw_line(&mut buffer, (-1000, -1000), (5, 5));
    assert_eq!(buffer.len(), WIDTH * HEIGHT);
    assert_eq!(buffer[5 * WIDTH + 5], WHITE);
    assert_eq!(white_pixels(&buffer), vec![(0, 0), (1, 1), (2, 2), (3, 3), (4, 4), (5, 5)]);
}

#[test]
fn line_wholly_outside_changes_nothing() {
    let mut buffer = blank();
    draw_line(&mut buffer, (-50, -3), (-1, -40));
    draw_line(&mut buffer, (600, 0), (900, 599));
    draw_line(&mut buffer, (0, 600), (599, 700));
    assert!(buffer.iter().all(|p| *p == BLACK));
}

#[test]
fn line_does_not_wrap_into_the_next_row() {
    let mut buffer = blank();
    draw_line(&mut buffer, (597, 2), (603, 2));
    assert_eq!(white_pixels(&buffer), vec![(597, 2), (598, 2), (599, 2)]);
}

#[test]
fn line_keeps_other_pixels() {
    let mut buffer = vec![0x0012_3456; WIDTH * 4];
    draw_line(&mut buffer, (0, 1), (3, 1));
    for (i, pixel) in buffer.iter().enumerate() {
        let expected = if (WIDTH..WIDTH + 4).contains(&i) { WHITE } else { 0x0012_3456 };
        assert_eq!(*pixel, expected);
    }
}

#[test]
fn height_is_the_number_of_whole_rows() {
    // Two whole rows and half of a third: row 2 is not drawable.
    let mut buffer = vec![BLACK; 2 * WIDTH + 300];
    draw_line(&mut buffer, (10, 0), (10, 5));
    assert_eq!(white_pixels(&buffer), vec![(10, 0), (10, 1)]);
}

#[test]
fn buffer_shorter_than_a_row_is_never_written() {
    let mut buffer = vec![BLACK; WIDTH - 1];
    draw_line(&mut buffer, (0, 0), (50, 0));
    assert!(buffer.iter().all(|p| *p == BLACK));
    let mut empty: Vec<u32> = Vec::new();
    draw_line(&mut empty, (0, 0), (5, 5));
    assert!(empty.is_empty());
}

#[test]
fn extreme_endpoints_are_walked_without_overflow() {
    let mut buffer = vec![BLACK; WIDTH * 2];
    draw_line(&mut buffer, (i32::MIN, 1), (i32::MIN + 70_000, 1));
    assert!(buffer.iter().all(|p| *p == BLACK));
    draw_line(&mut buffer, (i32::MAX - 70_000, 0), (i32::MAX, 1));
    assert!(buffer.iter().all(|p| *p == BLACK));
}

#[test]
fn clear_sets_every_pixel_black() {
    let mut buffer = vec![0x00AB_CDEF; 1234];
    clear(&mut buffer);
    assert_eq!(buffer.len(), 1234);
    assert!(buffer.iter().all(|p| *p == BLACK));
}

#[test]
fn draw_outlines_a_triangle() {
    let mut buffer = blank();
    let vertex = vec![(0, 0), (3, 0), (0, 3)];
    let faces = vec![vec![0, 1, 2]];
    draw(&mut buffer, &vertex, &faces);
    assert_eq!(
        white_pixels(&buffer),
        vec![(0, 0), (1, 0), (2, 0), (3, 0), (0, 1), (2, 1), (0, 2), (1, 2), (0, 3)]
    );
}

#[test]
fn draw_closes_each_face() {
    // The last index is joined back to the first.
    let mut buffer = blank();
    let vertex = vec![(10, 10), (20, 10), (20, 20), (10, 20)];
    let faces = vec![vec![0, 1, 2, 3]];
    draw(&mut buffer, &vertex, &faces);
    for y in 10..=20usize {
        assert_eq!(buffer[y * WIDTH + 10], WHITE);
        assert_eq!(buffer[y * WIDTH + 20], WHITE);
    }
    for x in 10..=20usize {
        assert_eq!(buffer[10 * WIDTH + x], WHITE);
        assert_eq!(buffer[20 * WIDTH + x], WHITE);
    }
    assert_eq!(white_pixels(&buffer).len(), 40);
}

#[test]
fn draw_clears_the_previous_frame() {
    let mut buffer = vec![0x00FF_0000; WIDTH * HEIGHT];
    let vertex = vec![(1, 1), (4, 1)];
    let faces = vec![vec![0, 1]];
    draw(&mut buffer, &vertex, &faces);
    assert_eq!(white_pixels(&buffer), vec![(1, 1), (2, 1), (3, 1), (4, 1)]);
    assert_eq!(buffer.iter().filter(|p| **p == BLACK).count(), WIDTH * HEIGHT - 4);
}

#[test]
fn draw_without_faces_only_clears() {
    let mut buffer = vec![WHITE; WIDTH * 3];
    draw(&mut buffer, &vec![(1, 1)], &Vec::new());
    assert!(buffer.iter().all(|p| *p == BLACK));
    let mut other = vec![WHITE; WIDTH * 3];
    draw(&mut other, &Vec::new(), &vec![Vec::new()]);
    assert!(other.iter().all(|p| *p == BLACK));
}

#[test]
fn face_of_one_vertex_is_a_point() {
    let mut buffer = blank();
    draw(&mut buffer, &vec![(8, 9)], &vec![vec![0]]);
    assert_eq!(white_pixels(&buffer), vec![(8, 9)]);
}

#[test]
fn draw_clears_a_buffer_of_any_length() {
    let mut buffer = vec![0x0000_00FF; WIDTH + 17];
    draw(&mut buffer, &vec![(0, 0), (2, 0)], &vec![vec![0, 1]]);
    assert_eq!(buffer.len(), WIDTH + 17);
    assert_eq!(white_pixels(&buffer), vec![(0, 0), (1, 0), (2, 0)]);
    assert_eq!(buffer.iter().filter(|p| **p == BLACK).count(), WIDTH + 17 - 3);
}
