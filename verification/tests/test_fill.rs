use renderer::draw::fill::fill_contour;
use renderer::draw::Point;

fn segs(points: &[(i32, i32)]) -> Vec<(Point, Point)> {
    points
        .windows(2)
        .map(|w| (Point { x: w[0].0, y: w[0].1 }, Point { x: w[1].0, y: w[1].1 }))
        .collect()
}

#[test]
fn test_fill_square() {
    let square = segs(&[(0, 0), (4, 0), (4, 4), (0, 4), (0, 0)]);
    assert_eq!(fill_contour(&square, 0, 10, 0, 10), vec![(1, 0, 4), (2, 0, 4), (3, 0, 4), (4, 0, 4)]);
}

#[test]
fn test_fill_triangle_clipped() {
    let triangle = segs(&[(1, 1), (7, 3), (2, 6), (1, 1)]);
    assert_eq!(
        fill_contour(&triangle, 0, 5, 0, 10),
        vec![(2, 1, 5), (3, 1, 5), (4, 2, 5), (5, 2, 4), (6, 2, 2)]
    );
    // Rows outside the box are left out.
    assert_eq!(fill_contour(&triangle, 0, 5, 3, 4), vec![(3, 1, 5), (4, 2, 5)]);
}

#[test]
fn test_fill_degenerate() {
    assert_eq!(fill_contour(&Vec::new(), 0, 10, 0, 10), vec![]);
    let line = segs(&[(0, 0), (5, 5)]);
    assert_eq!(fill_contour(&line, 0, 10, 0, 10), vec![]);
}

#[test]
fn test_fill_sorts_edges_by_x() {
    // The right side is met first; the spans still run from the left edge to the right one.
    let square = segs(&[(4, 0), (4, 4), (0, 4), (0, 0), (4, 0)]);
    assert_eq!(fill_contour(&square, 0, 10, 0, 10), vec![(1, 0, 4), (2, 0, 4), (3, 0, 4), (4, 0, 4)]);

    // A hole: four crossings on the rows that it spans.
    let mut with_hole = segs(&[(0, 0), (8, 0), (8, 8), (0, 8), (0, 0)]);
    with_hole.extend(segs(&[(5, 2), (3, 2), (3, 5), (5, 5), (5, 2)]));
    assert_eq!(
        fill_contour(&with_hole, 0, 10, 0, 10),
        vec![
            (1, 0, 8),
            (2, 0, 8),
            (3, 0, 3),
            (3, 5, 8),
            (4, 0, 3),
            (4, 5, 8),
            (5, 0, 3),
            (5, 5, 8),
            (6, 0, 8),
            (7, 0, 8),
            (8, 0, 8)
        ]
    );
}
