use std::collections::BTreeSet;

use ruling_pen::canvas::{Canvas, SSAA};
use ruling_pen::color::Color;
use ruling_pen::scanline::{
    ActiveEdgeTable, ActiveEdgeTableEntry, EdgeTable, EdgeTableEntry, IntegerVector2d, Polygon2d, ScanlineFill,
    Span,
};

fn pts(coords: &[(i32, i32)]) -> Vec<IntegerVector2d> {
    coords.iter().map(|&(x, y)| IntegerVector2d::new(x, y)).collect()
}

/// Every pixel that the fill of `points` on `canvas` covers.
fn covered(canvas: &Canvas, points: &Vec<IntegerVector2d>) -> BTreeSet<(i64, i32)> {
    let mut fill = canvas.begin_polygon(points);
    let mut set = BTreeSet::new();
    while !fill.is_done() {
        for span in fill.step() {
            for x in span.x_start..=span.x_end {
                set.insert((x, span.y));
            }
        }
    }
    set
}

fn draw(canvas: &mut Canvas, points: &Vec<IntegerVector2d>, z: i64, color: &Color) {
    let mut fill = canvas.begin_polygon(points);
    while !fill.is_done() {
        for span in fill.step() {
            for x in span.x_start..=span.x_end {
                canvas.set_pixel_with_z((x as i32, span.y), z, color);
            }
        }
    }
}

#[test]
fn right_triangle_fills_red() {
    let mut c = Canvas::new(64, 64, Color::new(0, 0, 0, 255), SSAA::X1).unwrap();
    let tri = pts(&[(10, 10), (10, 50), (50, 10)]);
    draw(&mut c, &tri, 1, &Color::new(255, 0, 0, 255));
    let mut red = 0;
    for y in 0..64i32 {
        for x in 0..64i32 {
            let inside = x >= 10 && y >= 10 && y < 50 && x + y <= 60;
            let p = c.buffer_supersized[c.to_buffer_index(x, y)];
            assert_eq!(p, if inside { 0x00ff_0000 } else { 0 }, "pixel {} {}", x, y);
            if inside {
                red += 1;
            }
        }
    }
    assert_eq!(red, 860);
    c.apply_ssaa();
    assert_eq!(c.buffer.iter().filter(|p| **p == 0x00ff_0000).count(), 860);
}

#[test]
fn horizontal_edges_are_left_out() {
    let tri = pts(&[(10, 10), (10, 50), (50, 10)]);
    let fill = ScanlineFill::new(&tri);
    assert_eq!(fill.edge_table.list.len(), 2);
    assert_eq!(fill.y_scan, 10);
    assert_eq!(fill.y_end, 50);
    let e = fill.edge_table.list[1];
    assert_eq!((e.y_lower, e.x_lower, e.y_upper, e.x_upper), (10, 50, 50, 10));
    assert_eq!(e.id, 1);
    assert_eq!(e.lower_vertex(&tri), 2);
    assert_eq!(e.upper_vertex(&tri), 1);
    let f = fill.edge_table.list[0];
    assert_eq!((f.lower_vertex(&tri), f.upper_vertex(&tri)), (0, 1));
}

#[test]
fn edge_orientation_follows_height() {
    let a = EdgeTableEntry::from_points(IntegerVector2d::new(3, 9), IntegerVector2d::new(7, 2), 4);
    assert_eq!((a.y_lower, a.x_lower, a.y_upper, a.x_upper, a.id), (2, 7, 9, 3, 4));
    let b = EdgeTableEntry::from_points(IntegerVector2d::new(7, 2), IntegerVector2d::new(3, 9), 0);
    assert_eq!(b, EdgeTableEntry::new(2, 7, 9, 3, 0));
    let c = EdgeTableEntry::from_points(IntegerVector2d::new(3, 9), IntegerVector2d::new(7, 2), 0);
    assert_eq!(b, c);
    let mut t = EdgeTable::new();
    t.add_edge(a);
    t.add_edge(b);
    assert_eq!(t.list.len(), 2);
    t.add_edge(EdgeTableEntry::new(0, 1, 4, 1, 7));
    t.add_edge(EdgeTableEntry::new(2, 5, 3, 5, 8));
    t.sort();
    let order: Vec<(i32, usize)> = t.list.iter().map(|e| (e.y_lower, e.id)).collect();
    assert_eq!(order, vec![(0, 7), (2, 4), (2, 0), (2, 8)]);
}

#[test]
fn crossings_are_exact_and_sorted() {
    let e1 = EdgeTableEntry::from_points(IntegerVector2d::new(0, 0), IntegerVector2d::new(9, 3), 0);
    let e2 = EdgeTableEntry::from_points(IntegerVector2d::new(5, 0), IntegerVector2d::new(5, 3), 1);
    let e3 = EdgeTableEntry::from_points(IntegerVector2d::new(1, 0), IntegerVector2d::new(1, 3), 2);
    let a = ActiveEdgeTableEntry::new(e1, 2);
    assert_eq!((a.x_num, a.x_den), (18, 3));
    let mut t = ActiveEdgeTable::new();
    t.add_edge(a);
    t.add_edge(ActiveEdgeTableEntry::new(e2, 2));
    t.add_edge(ActiveEdgeTableEntry::new(e3, 2));
    t.sort();
    let ids: Vec<usize> = t.list.iter().map(|a| a.edge.id).collect();
    assert_eq!(ids, vec![2, 1, 0]);
}

#[test]
fn span_start_rounds_half_up() {
    // left edge crosses scanline 1 at x = 2.5, right edge at x = 6
    let pts = pts(&[(2, 0), (3, 2), (6, 2), (6, 0)]);
    let mut fill = ScanlineFill::new(&pts);
    assert_eq!(fill.step().len(), 1);
    let spans: Vec<Span> = fill.step();
    assert_eq!(spans.len(), 1);
    assert_eq!(spans[0].y, 1);
    assert_eq!(spans[0].x_start, 3);
    assert_eq!(spans[0].x_end, 6);
    assert_eq!(spans[0].left.id, 0);
    assert_eq!(spans[0].right.id, 2);
    assert!(fill.is_done());
}

#[test]
fn zero_width_span_keeps_one_pixel() {
    let tri = pts(&[(5, 0), (9, 4), (1, 4)]);
    let mut fill = ScanlineFill::new(&tri);
    let spans = fill.step();
    assert_eq!(spans.len(), 1);
    assert_eq!((spans[0].x_start, spans[0].x_end), (5, 5));
}

#[test]
fn orientation_does_not_change_fill() {
    let c = Canvas::new(64, 64, Color::new(0, 0, 0, 255), SSAA::X1).unwrap();
    let shapes: Vec<Vec<(i32, i32)>> = vec![
        vec![(10, 10), (10, 50), (50, 10)],
        vec![(3, 7), (40, 2), (21, 33)],
        vec![(5, 5), (30, 3), (55, 20), (40, 50), (8, 40)],
        vec![(1, 1), (62, 1), (62, 62), (1, 62)],
    ];
    for s in shapes {
        let fwd = pts(&s);
        let mut rev = s.clone();
        rev.reverse();
        let back = pts(&rev);
        let a = covered(&c, &fwd);
        let b = covered(&c, &back);
        assert!(!a.is_empty());
        assert_eq!(a, b);
    }
}

#[test]
fn polygon_partly_outside_is_dropped() {
    let mut c = Canvas::new(32, 32, Color::new(0, 0, 0, 255), SSAA::X1).unwrap();
    let before = c.buffer_supersized.clone();
    let out = pts(&[(2, 2), (40, 5), (5, 20)]);
    let fill = c.begin_polygon(&out);
    assert!(fill.is_done());
    assert_eq!(fill.edge_table.list.len(), 0);
    let below = pts(&[(2, -1), (10, 5), (5, 20)]);
    assert!(c.begin_polygon(&below).is_done());
    draw(&mut c, &out, 1, &Color::new(255, 255, 255, 255));
    assert_eq!(c.buffer_supersized, before);
}

#[test]
fn too_few_vertices_draw_nothing() {
    let c = Canvas::new(16, 16, Color::new(0, 0, 0, 255), SSAA::X1).unwrap();
    assert!(c.begin_polygon(&pts(&[(1, 1), (5, 9)])).is_done());
    assert!(c.begin_polygon(&pts(&[])).is_done());
}

#[test]
fn nearer_triangle_wins_overlap() {
    let red = Color::new(255, 0, 0, 255);
    let blue = Color::new(0, 0, 255, 255);
    let t1 = pts(&[(5, 5), (40, 5), (5, 40)]);
    let t2 = pts(&[(10, 10), (60, 10), (10, 60)]);
    let mut a = Canvas::new(64, 64, Color::new(0, 0, 0, 255), SSAA::X1).unwrap();
    draw(&mut a, &t1, 3, &red);
    draw(&mut a, &t2, 8, &blue);
    let mut b = Canvas::new(64, 64, Color::new(0, 0, 0, 255), SSAA::X1).unwrap();
    draw(&mut b, &t2, 8, &blue);
    draw(&mut b, &t1, 3, &red);
    assert_eq!(a.buffer_supersized, b.buffer_supersized);
    assert_eq!(a.buffer_supersized[a.to_buffer_index(15, 15)], 0x00ff_0000);
    assert_eq!(a.buffer_supersized[a.to_buffer_index(50, 11)], 0x0000_00ff);
}

#[test]
fn origin_is_zero() {
    assert_eq!(IntegerVector2d::origin(), IntegerVector2d::new(0, 0));
}

#[test]
fn integer_vector_add_and_scale() {
    let mut v = IntegerVector2d::new(3, -4);
    v.add(&IntegerVector2d::new(10, 1));
    assert_eq!(v, IntegerVector2d::new(13, -3));
    v.scale(-2);
    assert_eq!(v, IntegerVector2d::new(-26, 6));
}

#[test]
fn polygon_keeps_its_vertices() {
    let p = Polygon2d::new(pts(&[(1, 2), (3, 4), (5, 0)]));
    assert_eq!(p.vertices.len(), 3);
    assert_eq!(p.vertices[2], IntegerVector2d::new(5, 0));
}
