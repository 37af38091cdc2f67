use renderer::{clip_triangle_plane, ClipVertex, VertexBuffer};

fn v(n: u32) -> ClipVertex {
    ClipVertex::new([n, n + 1, n + 2, n + 3])
}

fn contents(b: &VertexBuffer) -> Vec<ClipVertex> {
    (0..b.len()).map(|i| b.get(i)).collect()
}

fn buffer(vs: &[ClipVertex]) -> VertexBuffer {
    let mut b = VertexBuffer::new();
    for x in vs {
        b.push(*x);
    }
    b
}

#[test]
fn buffer_push_clear() {
    let mut b = VertexBuffer::new();
    assert_eq!(b.len(), 0);
    b.push(v(1));
    b.push(v(2));
    assert_eq!(contents(&b), vec![v(1), v(2)]);
    b.clear();
    assert_eq!(b.len(), 0);
}

#[test]
fn buffer_triangles_and_fan() {
    let b = buffer(&[v(0), v(10), v(20), v(30), v(40)]);
    let t = b.as_triangles();
    assert_eq!(t, vec![vec![v(0), v(10), v(20)], vec![v(30), v(40)]]);
    let f = b.fan();
    assert_eq!(f, vec![[v(0), v(10), v(20)], [v(0), v(20), v(30)], [v(0), v(30), v(40)]]);
    assert!(buffer(&[v(0), v(1)]).fan().is_empty());
}

#[test]
fn clip_all_inside_keeps_polygon() {
    let input = buffer(&[v(0), v(10), v(20)]);
    let mut out = VertexBuffer::new();
    clip_triangle_plane(&input, &[true, true, true], &[v(100), v(110), v(120)], &mut out);
    assert_eq!(contents(&out), vec![v(0), v(10), v(20)]);
}

#[test]
fn clip_all_outside_empties() {
    let input = buffer(&[v(0), v(10), v(20)]);
    let mut out = buffer(&[v(5)]);
    clip_triangle_plane(&input, &[false, false, false], &[v(100), v(110), v(120)], &mut out);
    assert_eq!(out.len(), 0);
}

#[test]
fn clip_one_vertex_outside() {
    // vertex 1 outside: edge 0->1 leaves, edge 1->2 enters
    let input = buffer(&[v(0), v(10), v(20)]);
    let mut out = VertexBuffer::new();
    clip_triangle_plane(&input, &[true, false, true], &[v(100), v(110), v(120)], &mut out);
    assert_eq!(contents(&out), vec![v(0), v(110), v(120), v(20)]);
}

#[test]
fn clip_two_vertices_outside() {
    let input = buffer(&[v(0), v(10), v(20)]);
    let mut out = VertexBuffer::new();
    clip_triangle_plane(&input, &[false, true, false], &[v(100), v(110), v(120)], &mut out);
    assert_eq!(contents(&out), vec![v(110), v(10), v(120)]);
}

#[test]
fn clip_degenerate_input_gives_nothing() {
    let input = buffer(&[v(0), v(10)]);
    let mut out = buffer(&[v(1)]);
    clip_triangle_plane(&input, &[true, true], &[v(100), v(110)], &mut out);
    assert_eq!(out.len(), 0);
}

#[test]
fn clip_fits_counts_output() {
    let input = buffer(&[v(0), v(10), v(20), v(30), v(40), v(50), v(60), v(70)]);
    let cross: Vec<ClipVertex> = (0..8).map(|i| v(100 + i)).collect();
    let alternating = [true, false, true, false, true, false, true, false];
    assert!(renderer::clip::clip_fits(&input, &alternating, &cross));
    let input = buffer(&[v(0), v(10), v(20), v(30), v(40), v(50), v(60), v(70), v(80), v(90)]);
    let cross: Vec<ClipVertex> = (0..10).map(|i| v(100 + i)).collect();
    let alternating = [true, false, true, false, true, false, true, false, true, false];
    assert!(!renderer::clip::clip_fits(&input, &alternating, &cross));
}
