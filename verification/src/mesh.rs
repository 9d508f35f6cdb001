//! Mesh topology and wireframe rasterisation: the Bresenham lines between
//! projected vertices, and the connectivity of loop subdivision.

use vstd::prelude::*;
use crate::line::{as_int_points, lemma_line_in_box, lemma_paint_all_len, line_points, paint_all, paint_points, walk_line};

verus! {

/// The points the Bresenham line from `(x0, y0)` to `(x1, y1)` plots, in
/// order.
pub fn bresenham(x0: i32, y0: i32, x1: i32, y1: i32) -> (pts: Vec<(i32, i32)>)
    ensures
        pts@.map_values(|p: (i32, i32)| (p.0 as int, p.1 as int)) == line_points(
            x0 as int,
            y0 as int,
            x1 as int,
            y1 as int,
            false,
        ),
{
    let wide = walk_line(x0 as i64, y0 as i64, x1 as i64, y1 as i64, false);
    let ghost full = line_points(x0 as int, y0 as int, x1 as int, y1 as int, false);
    proof {
        lemma_line_in_box(x0 as int, y0 as int, x1 as int, y1 as int, false);
    }
    let mut pts: Vec<(i32, i32)> = Vec::new();
    let mut i: usize = 0;
    while i < wide.len()
        invariant
            i <= wide@.len(),
            as_int_points(wide@) == full,
            full == line_points(x0 as int, y0 as int, x1 as int, y1 as int, false),
            forall|j: int|
                0 <= j < full.len() ==> {
                    let p = #[trigger] full[j];
                    &&& (x0 <= p.0 <= x1 || x1 <= p.0 <= x0)
                    &&& (y0 <= p.1 <= y1 || y1 <= p.1 <= y0)
                },
            pts@.len() == i,
            forall|j: int| 0 <= j < i ==> (#[trigger] pts@[j]).0 == full[j].0 && pts@[j].1 == full[j].1,
        decreases wide@.len() - i,
    {
        let (a, b) = wide[i];
        proof {
            assert(full[i as int] == (a as int, b as int));
        }
        pts.push((a as i32, b as i32));
        i += 1;
    }
    proof {
        assert(pts@.map_values(|p: (i32, i32)| (p.0 as int, p.1 as int)) =~= full);
    }
    pts
}


// ── Subdivision connectivity ─────────────────────────────────────────────────

/// A triangle referencing three indices into a mesh's vertex list.
#[derive(Debug, Clone, Copy, PartialEq, Eq, Structural)]
pub struct Triangle {
    pub a: usize,
    pub b: usize,
    pub c: usize,
}

/// The undirected key of edge `(a, b)`: its end points in increasing order.
pub open spec fn edge_key(a: usize, b: usize) -> (usize, usize) {
    if a < b {
        (a, b)
    } else {
        (b, a)
    }
}

/// The first position of `key` in `edges` at or after `i`.
pub open spec fn edge_index_from(edges: Seq<(usize, usize)>, key: (usize, usize), i: int) -> Option<int>
    decreases edges.len() - i,
{
    if i < 0 || i >= edges.len() {
        None
    } else if edges[i] == key {
        Some(i)
    } else {
        edge_index_from(edges, key, i + 1)
    }
}

/// The split edges and the index of the midpoint vertex of edge `(a, b)`:
/// an edge split before reuses its vertex; a new one is appended, its
/// vertex numbered after the `n` given vertices and the earlier
/// midpoints.
pub open spec fn midpoint_of(n: int, edges: Seq<(usize, usize)>, a: usize, b: usize) -> (Seq<(usize, usize)>, int) {
    match edge_index_from(edges, edge_key(a, b), 0) {
        Some(i) => (edges, n + i),
        None => (edges.push(edge_key(a, b)), n + edges.len()),
    }
}

/// The split edges and triangles after splitting `t` into four, given
/// those before.
pub open spec fn split_triangle(n: int, state: (Seq<(usize, usize)>, Seq<Triangle>), t: Triangle) -> (
    Seq<(usize, usize)>,
    Seq<Triangle>,
) {
    let (e1, ab) = midpoint_of(n, state.0, t.a, t.b);
    let (e2, bc) = midpoint_of(n, e1, t.b, t.c);
    let (e3, ca) = midpoint_of(n, e2, t.c, t.a);
    (
        e3,
        state.1.push(Triangle { a: t.a, b: ab as usize, c: ca as usize }).push(
            Triangle { a: t.b, b: bc as usize, c: ab as usize },
        ).push(Triangle { a: t.c, b: ca as usize, c: bc as usize }).push(
            Triangle { a: ab as usize, b: bc as usize, c: ca as usize },
        ),
    )
}

/// The split edges (in the order their midpoints were created) and the
/// triangles of one subdivision step over `tris`, for a mesh of `n`
/// vertices.
pub open spec fn subdivision(n: int, tris: Seq<Triangle>) -> (Seq<(usize, usize)>, Seq<Triangle>)
    decreases tris.len(),
{
    if tris.len() == 0 {
        (Seq::empty(), Seq::empty())
    } else {
        split_triangle(n, subdivision(n, tris.drop_last()), tris.last())
    }
}

/// Whether no edge occurs twice.
pub open spec fn distinct_edges(edges: Seq<(usize, usize)>) -> bool {
    forall|i: int, j: int| 0 <= i < j < edges.len() ==> edges[i] != edges[j]
}

proof fn lemma_edge_index_none(edges: Seq<(usize, usize)>, key: (usize, usize), i: int)
    requires
        0 <= i <= edges.len(),
        edge_index_from(edges, key, i) is None,
    ensures
        forall|j: int| i <= j < edges.len() ==> edges[j] != key,
    decreases edges.len() - i,
{
    if i < edges.len() {
        lemma_edge_index_none(edges, key, i + 1);
    }
}

proof fn lemma_edge_index_skip(edges: Seq<(usize, usize)>, key: (usize, usize), i: int)
    requires
        0 <= i <= edges.len(),
        forall|j: int| 0 <= j < i ==> edges[j] != key,
    ensures
        edge_index_from(edges, key, 0) == edge_index_from(edges, key, i),
    decreases i,
{
    if i > 0 {
        lemma_edge_index_skip(edges, key, i - 1);
    }
}

/// Looking up or adding the midpoint of an edge keeps the split edges
/// distinct and only ever appends.
proof fn lemma_midpoint_of(n: int, edges: Seq<(usize, usize)>, a: usize, b: usize)
    requires
        distinct_edges(edges),
    ensures
        distinct_edges(midpoint_of(n, edges, a, b).0),
        edges.is_prefix_of(midpoint_of(n, edges, a, b).0),
        midpoint_of(n, edges, a, b).0.len() <= edges.len() + 1,
        n <= midpoint_of(n, edges, a, b).1 < n + midpoint_of(n, edges, a, b).0.len(),
        midpoint_of(n, edges, a, b).0[midpoint_of(n, edges, a, b).1 - n] == edge_key(a, b),
{
    match edge_index_from(edges, edge_key(a, b), 0) {
        Some(i) => {
            lemma_edge_index_some(edges, edge_key(a, b), 0);
        },
        None => {
            lemma_edge_index_none(edges, edge_key(a, b), 0);
        },
    }
}

proof fn lemma_edge_index_some(edges: Seq<(usize, usize)>, key: (usize, usize), i: int)
    requires
        0 <= i,
        edge_index_from(edges, key, i) is Some,
    ensures
        ({
            let k = edge_index_from(edges, key, i)->0;
            i <= k < edges.len() && edges[k] == key
        }),
    decreases edges.len() - i,
{
    if i < edges.len() && edges[i] != key {
        lemma_edge_index_some(edges, key, i + 1);
    }
}

/// One subdivision step splits every triangle into four, splits every
/// edge at most once (the split edges are distinct), and numbers the new
/// vertices after the old ones.
pub proof fn lemma_subdivision_shape(n: int, tris: Seq<Triangle>)
    ensures
        subdivision(n, tris).1.len() == 4 * tris.len(),
        distinct_edges(subdivision(n, tris).0),
        subdivision(n, tris).0.len() <= 3 * tris.len(),
    decreases tris.len(),
{
    if tris.len() > 0 {
        let prev = subdivision(n, tris.drop_last());
        lemma_subdivision_shape(n, tris.drop_last());
        let t = tris.last();
        let (e1, ab) = midpoint_of(n, prev.0, t.a, t.b);
        lemma_midpoint_of(n, prev.0, t.a, t.b);
        let (e2, bc) = midpoint_of(n, e1, t.b, t.c);
        lemma_midpoint_of(n, e1, t.b, t.c);
        lemma_midpoint_of(n, e2, t.c, t.a);
    }
}

/// The index of `key` in `edges`, if present.
fn find_edge(edges: &Vec<(usize, usize)>, key: (usize, usize)) -> (r: Option<usize>)
    ensures
        match r {
            Some(i) => i < edges@.len() && edge_index_from(edges@, key, 0) == Some(i as int),
            None => edge_index_from(edges@, key, 0) is None,
        },
{
    let mut i: usize = 0;
    while i < edges.len()
        invariant
            i <= edges@.len(),
            forall|j: int| 0 <= j < i ==> edges@[j] != key,
        decreases edges@.len() - i,
    {
        let e = edges[i];
        if e.0 == key.0 && e.1 == key.1 {
            proof {
                lemma_edge_index_skip(edges@, key, i as int);
            }
            return Some(i);
        }
        i += 1;
    }
    proof {
        lemma_edge_index_skip(edges@, key, i as int);
    }
    None
}

/// The midpoint vertex of edge `(a, b)`, splitting the edge if it was not
/// split before.
fn midpoint_vertex(n: usize, edges: &mut Vec<(usize, usize)>, a: usize, b: usize) -> (m: usize)
    requires
        n + old(edges)@.len() < usize::MAX,
    ensures
        (final(edges)@, m as int) == midpoint_of(n as int, old(edges)@, a, b),
{
    let key = if a < b {
        (a, b)
    } else {
        (b, a)
    };
    match find_edge(edges, key) {
        Some(i) => n + i,
        None => {
            let m = n + edges.len();
            edges.push(key);
            m
        },
    }
}

/// The connectivity of one subdivision step of a mesh with `n` vertices:
/// every triangle is split into four through the midpoints of its edges,
/// each edge split once. Returns the split edges, in the order their
/// midpoint vertices `n, n + 1, …` are created, and the new triangles.
pub fn subdivide_topology(n: usize, triangles: &[Triangle]) -> (r: (Vec<(usize, usize)>, Vec<Triangle>))
    requires
        n + 3 * triangles@.len() < usize::MAX,
    ensures
        (r.0@, r.1@) == subdivision(n as int, triangles@),
{
    let mut edges: Vec<(usize, usize)> = Vec::new();
    let mut tris: Vec<Triangle> = Vec::new();
    let mut i: usize = 0;
    while i < triangles.len()
        invariant
            i <= triangles@.len(),
            n + 3 * triangles@.len() < usize::MAX,
            (edges@, tris@) == subdivision(n as int, triangles@.take(i as int)),
        decreases triangles@.len() - i,
    {
        proof {
            lemma_subdivision_shape(n as int, triangles@.take(i as int));
            assert(triangles@.take(i + 1).drop_last() =~= triangles@.take(i as int));
        }
        let t = triangles[i];
        let ab = midpoint_vertex(n, &mut edges, t.a, t.b);
        let bc = midpoint_vertex(n, &mut edges, t.b, t.c);
        let ca = midpoint_vertex(n, &mut edges, t.c, t.a);
        tris.push(Triangle { a: t.a, b: ab, c: ca });
        tris.push(Triangle { a: t.b, b: bc, c: ab });
        tris.push(Triangle { a: t.c, b: ca, c: bc });
        tris.push(Triangle { a: ab, b: bc, c: ca });
        i += 1;
    }
    proof {
        assert(triangles@.take(triangles@.len() as int) =~= triangles@);
    }
    (edges, tris)
}


// ── Wireframe ─────────────────────────────────────────────────────────────────

/// The buffer with the edge from vertex `i` to vertex `j` drawn, when both
/// are projected onto the screen.
pub open spec fn edge_drawn(
    buf: Seq<u8>,
    proj: Seq<Option<(i32, i32)>>,
    i: int,
    j: int,
    w: int,
    h: int,
    c: (u8, u8, u8),
) -> Seq<u8> {
    match (proj[i], proj[j]) {
        (Some(p), Some(q)) => paint_all(buf, line_points(p.0 as int, p.1 as int, q.0 as int, q.1 as int, false), w, h, c),
        _ => buf,
    }
}

/// The buffer after drawing the edges `(a, b)`, `(b, c)`, `(c, a)` of each
/// triangle in order.
pub open spec fn wireframe_drawn(
    buf: Seq<u8>,
    proj: Seq<Option<(i32, i32)>>,
    tris: Seq<Triangle>,
    w: int,
    h: int,
    c: (u8, u8, u8),
) -> Seq<u8>
    decreases tris.len(),
{
    if tris.len() == 0 {
        buf
    } else {
        let t = tris.last();
        let b0 = wireframe_drawn(buf, proj, tris.drop_last(), w, h, c);
        let b1 = edge_drawn(b0, proj, t.a as int, t.b as int, w, h, c);
        let b2 = edge_drawn(b1, proj, t.b as int, t.c as int, w, h, c);
        edge_drawn(b2, proj, t.c as int, t.a as int, w, h, c)
    }
}

/// Draws the edge from vertex `i` to vertex `j` when both are projected.
fn draw_edge(
    buf: &mut Vec<u8>,
    proj: &[Option<(i32, i32)>],
    i: usize,
    j: usize,
    w: usize,
    h: usize,
    c: (u8, u8, u8),
)
    requires
        i < proj@.len(),
        j < proj@.len(),
        old(buf)@.len() == w * h * 3,
    ensures
        final(buf)@ == edge_drawn(old(buf)@, proj@, i as int, j as int, w as int, h as int, c),
        final(buf)@.len() == w * h * 3,
{
    match (proj[i], proj[j]) {
        (Some(p), Some(q)) => {
            let pts = walk_line(p.0 as i64, p.1 as i64, q.0 as i64, q.1 as i64, false);
            proof {
                lemma_paint_all_len(old(buf)@, as_int_points(pts@), w as int, h as int, c);
            }
            paint_points(buf, &pts, w, h, c);
        },
        _ => {},
    }
}

/// Draws every triangle edge between projected vertices onto a black
/// `width × height` RGB buffer with Bresenham's algorithm; pixels off the
/// screen are skipped.
pub fn draw_wireframe(
    projected: &[Option<(i32, i32)>],
    triangles: &[Triangle],
    width: usize,
    height: usize,
    color: (u8, u8, u8),
) -> (buf: Vec<u8>)
    requires
        width * height * 3 <= usize::MAX,
        width <= i32::MAX,
        height <= i32::MAX,
        forall|k: int|
            0 <= k < triangles@.len() ==> (#[trigger] triangles@[k]).a < projected@.len() && triangles@[k].b
                < projected@.len() && triangles@[k].c < projected@.len(),
    ensures
        buf@ == wireframe_drawn(
            Seq::new((width * height * 3) as nat, |i: int| 0u8),
            projected@,
            triangles@,
            width as int,
            height as int,
            color,
        ),
{
    let n = width * height * 3;
    let mut buf: Vec<u8> = Vec::new();
    let mut k: usize = 0;
    while k < n
        invariant
            k <= n,
            n == width * height * 3,
            buf@.len() == k,
            forall|t: int| 0 <= t < k ==> buf@[t] == 0u8,
        decreases n - k,
    {
        buf.push(0);
        k += 1;
    }
    let ghost zeros = Seq::new((width * height * 3) as nat, |i: int| 0u8);
    proof {
        assert(buf@ =~= zeros);
    }
    let mut i: usize = 0;
    while i < triangles.len()
        invariant
            i <= triangles@.len(),
            forall|k: int|
                0 <= k < triangles@.len() ==> (#[trigger] triangles@[k]).a < projected@.len() && triangles@[k].b
                    < projected@.len() && triangles@[k].c < projected@.len(),
            buf@.len() == width * height * 3,
            buf@ == wireframe_drawn(zeros, projected@, triangles@.take(i as int), width as int, height as int, color),
        decreases triangles@.len() - i,
    {
        let t = triangles[i];
        proof {
            assert(triangles@[i as int] == t);
            assert(triangles@.take(i + 1).drop_last() =~= triangles@.take(i as int));
            assert(triangles@.take(i + 1).last() == t);
        }
        draw_edge(&mut buf, projected, t.a, t.b, width, height, color);
        draw_edge(&mut buf, projected, t.b, t.c, width, height, color);
        draw_edge(&mut buf, projected, t.c, t.a, width, height, color);
        i += 1;
    }
    proof {
        assert(triangles@.take(triangles@.len() as int) =~= triangles@);
    }
    buf
}

// ── Icosahedron ───────────────────────────────────────────────────────────────

/// The twenty faces of the regular icosahedron over its twelve vertices, in
/// the order in which the mesh stores them.
pub open spec fn icosahedron_faces() -> Seq<Triangle> {
    seq![
        Triangle { a: 0, b: 11, c: 5 },
        Triangle { a: 0, b: 5, c: 1 },
        Triangle { a: 0, b: 1, c: 7 },
        Triangle { a: 0, b: 7, c: 10 },
        Triangle { a: 0, b: 10, c: 11 },
        Triangle { a: 1, b: 5, c: 9 },
        Triangle { a: 5, b: 11, c: 4 },
        Triangle { a: 11, b: 10, c: 2 },
        Triangle { a: 10, b: 7, c: 6 },
        Triangle { a: 7, b: 1, c: 8 },
        Triangle { a: 3, b: 9, c: 4 },
        Triangle { a: 3, b: 4, c: 2 },
        Triangle { a: 3, b: 2, c: 6 },
        Triangle { a: 3, b: 6, c: 8 },
        Triangle { a: 3, b: 8, c: 9 },
        Triangle { a: 4, b: 9, c: 5 },
        Triangle { a: 2, b: 4, c: 11 },
        Triangle { a: 6, b: 2, c: 10 },
        Triangle { a: 8, b: 6, c: 7 },
        Triangle { a: 9, b: 8, c: 1 },
    ]
}

/// Whether triangle `t` runs along the directed edge from `u` to `v`.
pub open spec fn runs_along(t: Triangle, u: usize, v: usize) -> bool {
    (t.a == u && t.b == v) || (t.b == u && t.c == v) || (t.c == u && t.a == v)
}

/// How many of the first `k` triangles of `tris` run along the directed edge
/// from `u` to `v`.
pub open spec fn edge_uses(tris: Seq<Triangle>, k: int, u: usize, v: usize) -> nat
    decreases k,
{
    if k <= 0 {
        0
    } else {
        edge_uses(tris, k - 1, u, v) + if runs_along(tris[k - 1], u, v) {
            1nat
        } else {
            0nat
        }
    }
}

/// Triangle `t` of `tris` has three distinct corners below `n`, and each of
/// its edges is run along once in its own direction and once the other way.
pub open spec fn face_is_closed(tris: Seq<Triangle>, t: Triangle, n: usize) -> bool {
    let k = tris.len() as int;
    &&& t.a < n && t.b < n && t.c < n
    &&& t.a != t.b && t.b != t.c && t.c != t.a
    &&& edge_uses(tris, k, t.a, t.b) == 1 && edge_uses(tris, k, t.b, t.a) == 1
    &&& edge_uses(tris, k, t.b, t.c) == 1 && edge_uses(tris, k, t.c, t.b) == 1
    &&& edge_uses(tris, k, t.c, t.a) == 1 && edge_uses(tris, k, t.a, t.c) == 1
}

/// `tris` is a closed, consistently oriented surface over the vertices
/// `0..n`: every edge of every triangle borders exactly two triangles, which
/// run along it in opposite directions.
pub open spec fn closed_surface(tris: Seq<Triangle>, n: usize) -> bool {
    forall|i: int| 0 <= i < tris.len() ==> #[trigger] face_is_closed(tris, tris[i], n)
}

#[verifier::rlimit(50)]
proof fn lemma_icosahedron_faces_from_0(i: int)
    requires
        0 <= i < 5,
    ensures
        face_is_closed(icosahedron_faces(), icosahedron_faces()[i], 12),
{
    let f = icosahedron_faces();
    reveal_with_fuel(edge_uses, 21);
    if i == 0 {
        assert(face_is_closed(f, f[0], 12));
    } else if i == 1 {
        assert(face_is_closed(f, f[1], 12));
    } else if i == 2 {
        assert(face_is_closed(f, f[2], 12));
    } else if i == 3 {
        assert(face_is_closed(f, f[3], 12));
    } else {
        assert(face_is_closed(f, f[4], 12));
    }
}

#[verifier::rlimit(50)]
proof fn lemma_icosahedron_faces_from_5(i: int)
    requires
        5 <= i < 10,
    ensures
        face_is_closed(icosahedron_faces(), icosahedron_faces()[i], 12),
{
    let f = icosahedron_faces();
    reveal_with_fuel(edge_uses, 21);
    if i == 5 {
        assert(face_is_closed(f, f[5], 12));
    } else if i == 6 {
        assert(face_is_closed(f, f[6], 12));
    } else if i == 7 {
        assert(face_is_closed(f, f[7], 12));
    } else if i == 8 {
        assert(face_is_closed(f, f[8], 12));
    } else {
        assert(face_is_closed(f, f[9], 12));
    }
}

#[verifier::rlimit(50)]
proof fn lemma_icosahedron_faces_from_10(i: int)
    requires
        10 <= i < 15,
    ensures
        face_is_closed(icosahedron_faces(), icosahedron_faces()[i], 12),
{
    let f = icosahedron_faces();
    reveal_with_fuel(edge_uses, 21);
    if i == 10 {
        assert(face_is_closed(f, f[10], 12));
    } else if i == 11 {
        assert(face_is_closed(f, f[11], 12));
    } else if i == 12 {
        assert(face_is_closed(f, f[12], 12));
    } else if i == 13 {
        assert(face_is_closed(f, f[13], 12));
    } else {
        assert(face_is_closed(f, f[14], 12));
    }
}

#[verifier::rlimit(50)]
proof fn lemma_icosahedron_faces_from_15(i: int)
    requires
        15 <= i < 20,
    ensures
        face_is_closed(icosahedron_faces(), icosahedron_faces()[i], 12),
{
    let f = icosahedron_faces();
    reveal_with_fuel(edge_uses, 21);
    if i == 15 {
        assert(face_is_closed(f, f[15], 12));
    } else if i == 16 {
        assert(face_is_closed(f, f[16], 12));
    } else if i == 17 {
        assert(face_is_closed(f, f[17], 12));
    } else if i == 18 {
        assert(face_is_closed(f, f[18], 12));
    } else {
        assert(face_is_closed(f, f[19], 12));
    }
}

proof fn lemma_icosahedron_face(i: int)
    requires
        0 <= i < 20,
    ensures
        face_is_closed(icosahedron_faces(), icosahedron_faces()[i], 12),
{
    if i < 5 {
        lemma_icosahedron_faces_from_0(i);
    } else if i < 10 {
        lemma_icosahedron_faces_from_5(i);
    } else if i < 15 {
        lemma_icosahedron_faces_from_10(i);
    } else {
        lemma_icosahedron_faces_from_15(i);
    }
}

/// The triangle table of the regular icosahedron: twenty faces over twelve
/// vertices that close up into a consistently oriented surface.
pub fn icosahedron_triangles() -> (t: Vec<Triangle>)
    ensures
        t@ == icosahedron_faces(),
        closed_surface(t@, 12),
{
    let t = vec![
        Triangle { a: 0, b: 11, c: 5 },
        Triangle { a: 0, b: 5, c: 1 },
        Triangle { a: 0, b: 1, c: 7 },
        Triangle { a: 0, b: 7, c: 10 },
        Triangle { a: 0, b: 10, c: 11 },
        Triangle { a: 1, b: 5, c: 9 },
        Triangle { a: 5, b: 11, c: 4 },
        Triangle { a: 11, b: 10, c: 2 },
        Triangle { a: 10, b: 7, c: 6 },
        Triangle { a: 7, b: 1, c: 8 },
        Triangle { a: 3, b: 9, c: 4 },
        Triangle { a: 3, b: 4, c: 2 },
        Triangle { a: 3, b: 2, c: 6 },
        Triangle { a: 3, b: 6, c: 8 },
        Triangle { a: 3, b: 8, c: 9 },
        Triangle { a: 4, b: 9, c: 5 },
        Triangle { a: 2, b: 4, c: 11 },
        Triangle { a: 6, b: 2, c: 10 },
        Triangle { a: 8, b: 6, c: 7 },
        Triangle { a: 9, b: 8, c: 1 },
    ];
    proof {
        assert forall|i: int| 0 <= i < t@.len() implies #[trigger] face_is_closed(t@, t@[i], 12) by {
            lemma_icosahedron_face(i);
        }
    }
    t
}

} // verus!
