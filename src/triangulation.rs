//! Bowyer–Watson Delaunay triangulation over integer points, with exact
//! integer predicates. Points are kept doubled internally so that the
//! enclosing triangle has integer corners.
use vstd::prelude::*;
use crate::coord::{coord, Coord};

verus! {

/// A point in doubled coordinates.
pub type Pt = (i64, i64);

/// A triangle in doubled coordinates.
pub type Tri = (Pt, Pt, Pt);

/// Bound on the coordinates of the points handed to [`triangulate`].
pub const COORD_LIMIT: i32 = 6_000_000;

/// Bound on doubled coordinates once the enclosing triangle is added.
pub open spec fn pt_ok(p: Pt) -> bool {
    -0x2000_0000 <= p.0 <= 0x2000_0000 && -0x2000_0000 <= p.1 <= 0x2000_0000
}

/// A coordinate doubled.
pub open spec fn dbl(c: Coord) -> Pt {
    ((2 * c.x) as i64, (2 * c.y) as i64)
}

/// Whether `p` is one of the doubled `vertices`.
pub open spec fn is_input(vertices: Seq<Coord>, p: Pt) -> bool {
    exists|k: int| 0 <= k < vertices.len() && #[trigger] dbl(vertices[k]) == p
}

/// Whether `p` is a corner of `s` or one of the doubled `vertices`.
pub open spec fn allowed(s: Tri, vertices: Seq<Coord>, p: Pt) -> bool {
    p == s.0 || p == s.1 || p == s.2 || is_input(vertices, p)
}

/// Whether every corner of `t` is allowed.
pub open spec fn tri_allowed(s: Tri, vertices: Seq<Coord>, t: Tri) -> bool {
    allowed(s, vertices, t.0) && allowed(s, vertices, t.1) && allowed(s, vertices, t.2)
}

/// Whether `c` is among `vertices`.
pub open spec fn is_vertex(vertices: Seq<Coord>, c: Coord) -> bool {
    exists|k: int| 0 <= k < vertices.len() && #[trigger] vertices[k] == c
}

/// Coordinates small enough for the exact predicates.
pub open spec fn coord_small(c: Coord) -> bool {
    -COORD_LIMIT <= c.x <= COORD_LIMIT && -COORD_LIMIT <= c.y <= COORD_LIMIT
}

fn mul_small(a: i128, b: i128) -> (r: i128)
    requires
        -0x4000_0000 <= a <= 0x4000_0000,
        -0x4000_0000 <= b <= 0x4000_0000,
    ensures
        r == a * b,
        -0x1000_0000_0000_0000 <= r <= 0x1000_0000_0000_0000,
{
    proof {
        assert(-0x1000_0000_0000_0000 <= a * b <= 0x1000_0000_0000_0000) by (nonlinear_arith)
            requires
                -0x4000_0000 <= a <= 0x4000_0000,
                -0x4000_0000 <= b <= 0x4000_0000,
        ;
    }
    a * b
}

fn mul_large(a: i128, b: i128) -> (r: i128)
    requires
        -0x2000_0000_0000_0000 <= a <= 0x2000_0000_0000_0000,
        -0x2000_0000_0000_0000 <= b <= 0x2000_0000_0000_0000,
    ensures
        r == a * b,
        -0x400_0000_0000_0000_0000_0000_0000_0000 <= r <= 0x400_0000_0000_0000_0000_0000_0000_0000,
{
    proof {
        assert(-0x400_0000_0000_0000_0000_0000_0000_0000 <= a * b <= 0x400_0000_0000_0000_0000_0000_0000_0000)
            by (nonlinear_arith)
            requires
                -0x2000_0000_0000_0000 <= a <= 0x2000_0000_0000_0000,
                -0x2000_0000_0000_0000 <= b <= 0x2000_0000_0000_0000,
        ;
    }
    a * b
}

/// Twice the signed area of `abc`: positive when counter-clockwise.
fn orientation(a: Pt, b: Pt, c: Pt) -> (r: i128)
    requires
        pt_ok(a),
        pt_ok(b),
        pt_ok(c),
    ensures
        r == orient(a, b, c),
{
    let p = mul_small((b.0 - a.0) as i128, (c.1 - a.1) as i128);
    let q = mul_small((b.1 - a.1) as i128, (c.0 - a.0) as i128);
    p - q
}

/// Twice the signed area of `abc`.
pub open spec fn orient(a: Pt, b: Pt, c: Pt) -> int {
    (b.0 - a.0) * (c.1 - a.1) - (b.1 - a.1) * (c.0 - a.0)
}

/// The in-circle determinant of `d` against `t`: positive when `d` lies
/// inside the circle through a counter-clockwise `t`.
pub open spec fn incircle_det(d: Pt, t: Tri) -> int {
    let (adx, ady) = (t.0.0 - d.0, t.0.1 - d.1);
    let (bdx, bdy) = (t.1.0 - d.0, t.1.1 - d.1);
    let (cdx, cdy) = (t.2.0 - d.0, t.2.1 - d.1);
    (adx * adx + ady * ady) * (bdx * cdy - cdx * bdy) - (bdx * bdx + bdy * bdy) * (adx * cdy - cdx * ady)
        + (cdx * cdx + cdy * cdy) * (adx * bdy - bdx * ady)
}

/// Whether `d` lies inside or on the circumcircle of a non-degenerate `t`.
pub open spec fn circle_contains(d: Pt, t: Tri) -> bool {
    let o = orient(t.0, t.1, t.2);
    o != 0 && if o > 0 { incircle_det(d, t) >= 0 } else { incircle_det(d, t) <= 0 }
}

/// Whether `d` lies inside or on the circle through `a`, `b` and `c`. A
/// degenerate (flat) triangle has no circle and contains nothing.
fn in_triangle_circumference(d: Pt, t: Tri) -> (r: bool)
    requires
        pt_ok(d),
        pt_ok(t.0),
        pt_ok(t.1),
        pt_ok(t.2),
    ensures
        r == circle_contains(d, t),
{
    let (a, b, c) = t;
    let o = orientation(a, b, c);
    if o == 0 {
        return false;
    }
    let adx = (a.0 - d.0) as i128;
    let ady = (a.1 - d.1) as i128;
    let bdx = (b.0 - d.0) as i128;
    let bdy = (b.1 - d.1) as i128;
    let cdx = (c.0 - d.0) as i128;
    let cdy = (c.1 - d.1) as i128;
    let a_lift = mul_small(adx, adx) + mul_small(ady, ady);
    let b_lift = mul_small(bdx, bdx) + mul_small(bdy, bdy);
    let c_lift = mul_small(cdx, cdx) + mul_small(cdy, cdy);
    let bc = mul_small(bdx, cdy) - mul_small(cdx, bdy);
    let ac = mul_small(adx, cdy) - mul_small(cdx, ady);
    let ab = mul_small(adx, bdy) - mul_small(bdx, ady);
    let det = mul_large(a_lift, bc) - mul_large(b_lift, ac) + mul_large(c_lift, ab);
    if o > 0 {
        det >= 0
    } else {
        det <= 0
    }
}

fn same_edge(e: (Pt, Pt), f: (Pt, Pt)) -> (r: bool)
    ensures
        r == ((e.0 == f.0 && e.1 == f.1) || (e.0 == f.1 && e.1 == f.0)),
{
    (e.0.0 == f.0.0 && e.0.1 == f.0.1 && e.1.0 == f.1.0 && e.1.1 == f.1.1) || (e.0.0 == f.1.0
        && e.0.1 == f.1.1 && e.1.0 == f.0.0 && e.1.1 == f.0.1)
}

fn same_pt(p: Pt, q: Pt) -> (r: bool)
    ensures
        r == (p == q),
{
    p.0 == q.0 && p.1 == q.1
}

/// Bounds of `vs`, as `(min_x, min_y, max_x, max_y)`, starting from the
/// box whose lower corner is `(COORD_LIMIT, COORD_LIMIT)` and whose upper
/// corner is its opposite.
pub open spec fn bounds(vs: Seq<Coord>) -> (int, int, int, int)
    decreases vs.len(),
{
    if vs.len() == 0 {
        (COORD_LIMIT as int, COORD_LIMIT as int, -COORD_LIMIT, -COORD_LIMIT)
    } else {
        let b = bounds(vs.drop_last());
        let v = vs.last();
        (
            if v.x < b.0 { v.x as int } else { b.0 },
            if v.y < b.1 { v.y as int } else { b.1 },
            if v.x > b.2 { v.x as int } else { b.2 },
            if v.y > b.3 { v.y as int } else { b.3 },
        )
    }
}

/// The enclosing triangle of `vs`, in doubled coordinates.
pub open spec fn super_triangle(vs: Seq<Coord>) -> Tri {
    let (min_x, min_y, max_x, max_y) = bounds(vs);
    let dx = if max_x > min_x { max_x - min_x } else { 0 };
    let dy = if max_y > min_y { max_y - min_y } else { 0 };
    let d = if dx >= dy { dx } else { dy };
    let d2 = if d >= 1 { 2 * d } else { 2 };
    let (mx, my) = (min_x + max_x, min_y + max_y);
    (
        ((mx - 20 * d2) as i64, (my - d2) as i64),
        (mx as i64, (my + 20 * d2) as i64),
        ((mx + 20 * d2) as i64, (my - d2) as i64),
    )
}

/// The triangles of `tris` whose circumcircle does not hold `v`.
pub open spec fn good_triangles(tris: Seq<Tri>, v: Pt) -> Seq<Tri>
    decreases tris.len(),
{
    if tris.len() == 0 {
        seq![]
    } else {
        let k = good_triangles(tris.drop_last(), v);
        if circle_contains(v, tris.last()) { k } else { k.push(tris.last()) }
    }
}

/// The edges of the triangles of `tris` whose circumcircle holds `v`.
pub open spec fn bad_edges(tris: Seq<Tri>, v: Pt) -> Seq<(Pt, Pt)>
    decreases tris.len(),
{
    if tris.len() == 0 {
        seq![]
    } else {
        let e = bad_edges(tris.drop_last(), v);
        let t = tris.last();
        if circle_contains(v, t) { e.push((t.0, t.1)).push((t.1, t.2)).push((t.2, t.0)) } else { e }
    }
}

/// Whether edge `e` of `edges` appears again, either way round.
pub open spec fn shared_edge(edges: Seq<(Pt, Pt)>, e: int) -> bool {
    exists|j: int|
        0 <= j < edges.len() && j != e && ((edges[e].0 == edges[j].0 && edges[e].1 == edges[j].1) || (
        edges[e].0 == edges[j].1 && edges[e].1 == edges[j].0))
}

/// The triangles joining `v` to the first `n` edges of `edges` that are not
/// shared.
pub open spec fn fan(edges: Seq<(Pt, Pt)>, v: Pt, n: int) -> Seq<Tri>
    decreases n,
{
    if n <= 0 {
        seq![]
    } else {
        let f = fan(edges, v, n - 1);
        if shared_edge(edges, n - 1) { f } else { f.push((edges[n - 1].0, edges[n - 1].1, v)) }
    }
}

/// One Bowyer–Watson step: the triangles after inserting `v`.
pub open spec fn insert_point(tris: Seq<Tri>, v: Pt) -> Seq<Tri> {
    let edges = bad_edges(tris, v);
    good_triangles(tris, v) + fan(edges, v, edges.len() as int)
}

/// The triangles after inserting the first `n` of `vs` into `s`.
pub open spec fn insert_all(s: Tri, vs: Seq<Coord>, n: int) -> Seq<Tri>
    decreases n,
{
    if n <= 0 {
        seq![s]
    } else {
        insert_point(insert_all(s, vs, n - 1), dbl(vs[n - 1]))
    }
}

/// Whether `t` shares a corner with `s`.
pub open spec fn touches(t: Tri, s: Tri) -> bool {
    t.0 == s.0 || t.0 == s.1 || t.0 == s.2 || t.1 == s.0 || t.1 == s.1 || t.1 == s.2 || t.2 == s.0
        || t.2 == s.1 || t.2 == s.2
}

/// A doubled point halved.
pub open spec fn half(p: Pt) -> Coord {
    Coord { x: (p.0 / 2) as i32, y: (p.1 / 2) as i32 }
}

/// The triangles of `tris` that share no corner with `s`, halved.
pub open spec fn strip(tris: Seq<Tri>, s: Tri) -> Seq<(Coord, Coord, Coord)>
    decreases tris.len(),
{
    if tris.len() == 0 {
        seq![]
    } else {
        let r = strip(tris.drop_last(), s);
        let t = tris.last();
        if touches(t, s) { r } else { r.push((half(t.0), half(t.1), half(t.2))) }
    }
}

/// The Bowyer–Watson triangulation of `vs`.
pub open spec fn triangulation(vs: Seq<Coord>) -> Seq<(Coord, Coord, Coord)> {
    let s = super_triangle(vs);
    strip(insert_all(s, vs, vs.len() as int), s)
}

proof fn lemma_bounds(vs: Seq<Coord>)
    requires
        forall|k: int| 0 <= k < vs.len() ==> coord_small(#[trigger] vs[k]),
    ensures
        -COORD_LIMIT <= bounds(vs).0 <= COORD_LIMIT,
        -COORD_LIMIT <= bounds(vs).1 <= COORD_LIMIT,
        -COORD_LIMIT <= bounds(vs).2 <= COORD_LIMIT,
        -COORD_LIMIT <= bounds(vs).3 <= COORD_LIMIT,
    decreases vs.len(),
{
    if vs.len() > 0 {
        assert(coord_small(vs[vs.len() - 1]));
        lemma_bounds(vs.drop_last());
    }
}

/// A triangle, in doubled coordinates, that encloses every vertex with a
/// margin of twenty times the larger side of their bounding box.
pub fn create_super_triangle(vertices: &Vec<Coord>) -> (r: Tri)
    requires
        forall|k: int| 0 <= k < vertices@.len() ==> coord_small(#[trigger] vertices@[k]),
    ensures
        r == super_triangle(vertices@),
        pt_ok(r.0),
        pt_ok(r.1),
        pt_ok(r.2),
{
    let mut min_x: i64 = COORD_LIMIT as i64;
    let mut min_y: i64 = COORD_LIMIT as i64;
    let mut max_x: i64 = -COORD_LIMIT as i64;
    let mut max_y: i64 = -COORD_LIMIT as i64;
    let mut k: usize = 0;
    while k < vertices.len()
        invariant
            k <= vertices@.len(),
            forall|j: int| 0 <= j < vertices@.len() ==> coord_small(#[trigger] vertices@[j]),
            (min_x as int, min_y as int, max_x as int, max_y as int) == bounds(vertices@.take(k as int)),
            -COORD_LIMIT <= min_x <= COORD_LIMIT,
            -COORD_LIMIT <= min_y <= COORD_LIMIT,
            -COORD_LIMIT <= max_x <= COORD_LIMIT,
            -COORD_LIMIT <= max_y <= COORD_LIMIT,
        decreases vertices@.len() - k,
    {
        let v = vertices[k];
        proof {
            assert(vertices@.take(k + 1).drop_last() =~= vertices@.take(k as int));
            assert(coord_small(vertices@[k as int]));
        }
        if (v.x as i64) < min_x {
            min_x = v.x as i64;
        }
        if (v.y as i64) < min_y {
            min_y = v.y as i64;
        }
        if (v.x as i64) > max_x {
            max_x = v.x as i64;
        }
        if (v.y as i64) > max_y {
            max_y = v.y as i64;
        }
        k = k + 1;
    }
    proof {
        assert(vertices@.take(k as int) =~= vertices@);
    }
    let delta_x = if max_x > min_x { max_x - min_x } else { 0 };
    let delta_y = if max_y > min_y { max_y - min_y } else { 0 };
    let delta = if delta_x >= delta_y { delta_x } else { delta_y };
    let delta2: i64 = if delta >= 1 { 2 * delta } else { 2 };
    let mid_x2 = min_x + max_x;
    let mid_y2 = min_y + max_y;
    (
        (mid_x2 - 20 * delta2, mid_y2 - delta2),
        (mid_x2, mid_y2 + 20 * delta2),
        (mid_x2 + 20 * delta2, mid_y2 - delta2),
    )
}

/// The triangles after inserting `vp`: those whose circumcircle misses it,
/// and a fan from it over the boundary of the hole the others leave.
fn insert_vertex(triangles: &Vec<Tri>, vp: Pt, s: Tri, vs: Ghost<Seq<Coord>>) -> (r: Vec<Tri>)
    requires
        pt_ok(vp),
        allowed(s, vs@, vp),
        pt_ok(s.0),
        pt_ok(s.1),
        pt_ok(s.2),
        forall|k: int| 0 <= k < vs@.len() ==> pt_ok(#[trigger] dbl(vs@[k])),
        forall|j: int| 0 <= j < triangles@.len() ==> tri_allowed(s, vs@, #[trigger] triangles@[j]),
    ensures
        r@ == insert_point(triangles@, vp),
        forall|j: int| 0 <= j < r@.len() ==> tri_allowed(s, vs@, #[trigger] r@[j]),
{
    let mut kept: Vec<Tri> = Vec::new();
    let mut edges: Vec<(Pt, Pt)> = Vec::new();
    let mut i: usize = 0;
    while i < triangles.len()
        invariant
            i <= triangles@.len(),
            pt_ok(vp),
            pt_ok(s.0),
            pt_ok(s.1),
            pt_ok(s.2),
            forall|k: int| 0 <= k < vs@.len() ==> pt_ok(#[trigger] dbl(vs@[k])),
            forall|j: int| 0 <= j < triangles@.len() ==> tri_allowed(s, vs@, #[trigger] triangles@[j]),
            forall|j: int| 0 <= j < kept@.len() ==> tri_allowed(s, vs@, #[trigger] kept@[j]),
            forall|j: int|
                0 <= j < edges@.len() ==> allowed(s, vs@, (#[trigger] edges@[j]).0) && allowed(
                    s,
                    vs@,
                    edges@[j].1,
                ),
            kept@ == good_triangles(triangles@.take(i as int), vp),
            edges@ == bad_edges(triangles@.take(i as int), vp),
        decreases triangles@.len() - i,
    {
        let t = triangles[i];
        proof {
            assert(tri_allowed(s, vs@, t));
            lemma_allowed_ok(s, vs@, t.0);
            lemma_allowed_ok(s, vs@, t.1);
            lemma_allowed_ok(s, vs@, t.2);
            assert(triangles@.take(i + 1).drop_last() =~= triangles@.take(i as int));
            assert(triangles@.take(i + 1).last() == t);
        }
        if in_triangle_circumference(vp, t) {
            edges.push((t.0, t.1));
            edges.push((t.1, t.2));
            edges.push((t.2, t.0));
        } else {
            kept.push(t);
        }
        i = i + 1;
    }
    proof {
        assert(triangles@.take(i as int) =~= triangles@);
    }
    let ghost good = kept@;
    let mut e: usize = 0;
    while e < edges.len()
        invariant
            e <= edges@.len(),
            allowed(s, vs@, vp),
            edges@ == bad_edges(triangles@, vp),
            kept@ == good + fan(edges@, vp, e as int),
            forall|j: int| 0 <= j < kept@.len() ==> tri_allowed(s, vs@, #[trigger] kept@[j]),
            forall|j: int|
                0 <= j < edges@.len() ==> allowed(s, vs@, (#[trigger] edges@[j]).0) && allowed(
                    s,
                    vs@,
                    edges@[j].1,
                ),
        decreases edges@.len() - e,
    {
        let shared = is_shared(&edges, e);
        if !shared {
            let edge = edges[e];
            proof {
                assert(allowed(s, vs@, edges@[e as int].0) && allowed(s, vs@, edges@[e as int].1));
            }
            kept.push((edge.0, edge.1, vp));
        }
        proof {
            assert(fan(edges@, vp, e + 1) == if shared_edge(edges@, e as int) {
                fan(edges@, vp, e as int)
            } else {
                fan(edges@, vp, e as int).push((edges@[e as int].0, edges@[e as int].1, vp))
            });
            assert(kept@ =~= good + fan(edges@, vp, e + 1));
        }
        e = e + 1;
    }
    kept
}

/// Whether edge `e` of `edges` appears again, either way round.
fn is_shared(edges: &Vec<(Pt, Pt)>, e: usize) -> (r: bool)
    requires
        e < edges@.len(),
    ensures
        r == shared_edge(edges@, e as int),
{
    let mut j: usize = 0;
    while j < edges.len()
        invariant
            e < edges@.len(),
            j <= edges@.len(),
            forall|m: int|
                0 <= m < j && m != e ==> !((edges@[e as int].0 == #[trigger] edges@[m].0 && edges@[e as int].1
                    == edges@[m].1) || (edges@[e as int].0 == edges@[m].1 && edges@[e as int].1
                    == edges@[m].0)),
        decreases edges@.len() - j,
    {
        if j != e && same_edge(edges[e], edges[j]) {
            return true;
        }
        j = j + 1;
    }
    false
}

/// Triangles of the Delaunay triangulation of `vertices`, each corner one of
/// the vertices.
pub fn triangulate(vertices: &Vec<Coord>) -> (r: Vec<(Coord, Coord, Coord)>)
    requires
        forall|k: int| 0 <= k < vertices@.len() ==> coord_small(#[trigger] vertices@[k]),
    ensures
        r@ == triangulation(vertices@),
        forall|i: int|
            0 <= i < r@.len() ==> {
                &&& is_vertex(vertices@, (#[trigger] r@[i]).0)
                &&& is_vertex(vertices@, r@[i].1)
                &&& is_vertex(vertices@, r@[i].2)
            },
{
    let s = create_super_triangle(vertices);
    let mut triangles: Vec<Tri> = vec![s];
    let ghost vs = vertices@;
    proof {
        assert forall|k: int| 0 <= k < vs.len() implies pt_ok(#[trigger] dbl(vs[k])) by {
            assert(coord_small(vs[k]));
        }
        assert(triangles@ =~= insert_all(s, vs, 0));
    }
    let mut n: usize = 0;
    while n < vertices.len()
        invariant
            n <= vs.len(),
            vs == vertices@,
            s == super_triangle(vs),
            pt_ok(s.0),
            pt_ok(s.1),
            pt_ok(s.2),
            forall|k: int| 0 <= k < vs.len() ==> coord_small(#[trigger] vs[k]),
            forall|k: int| 0 <= k < vs.len() ==> pt_ok(#[trigger] dbl(vs[k])),
            forall|i: int| 0 <= i < triangles@.len() ==> tri_allowed(s, vs, #[trigger] triangles@[i]),
            triangles@ == insert_all(s, vs, n as int),
        decreases vs.len() - n,
    {
        let v = vertices[n];
        let vp: Pt = (2 * v.x as i64, 2 * v.y as i64);
        proof {
            assert(dbl(vs[n as int]) == vp);
            assert(is_input(vs, vp));
        }
        triangles = insert_vertex(&triangles, vp, s, Ghost(vs));
        n = n + 1;
    }
    let mut r: Vec<(Coord, Coord, Coord)> = Vec::new();
    let mut i: usize = 0;
    while i < triangles.len()
        invariant
            i <= triangles@.len(),
            vs == vertices@,
            forall|k: int| 0 <= k < vs.len() ==> coord_small(#[trigger] vs[k]),
            forall|j: int| 0 <= j < triangles@.len() ==> tri_allowed(s, vs, #[trigger] triangles@[j]),
            r@ == strip(triangles@.take(i as int), s),
            forall|j: int|
                0 <= j < r@.len() ==> {
                    &&& is_vertex(vs, (#[trigger] r@[j]).0)
                    &&& is_vertex(vs, r@[j].1)
                    &&& is_vertex(vs, r@[j].2)
                },
        decreases triangles@.len() - i,
    {
        let t = triangles[i];
        proof {
            assert(triangles@.take(i + 1).drop_last() =~= triangles@.take(i as int));
            assert(triangles@.take(i + 1).last() == t);
        }
        let touches_super = same_pt(t.0, s.0) || same_pt(t.0, s.1) || same_pt(t.0, s.2)
            || same_pt(t.1, s.0) || same_pt(t.1, s.1) || same_pt(t.1, s.2) || same_pt(t.2, s.0)
            || same_pt(t.2, s.1) || same_pt(t.2, s.2);
        if !touches_super {
            proof {
                assert(tri_allowed(s, vs, t));
            }
            let a = halve(vertices, t.0);
            let b = halve(vertices, t.1);
            let c = halve(vertices, t.2);
            r.push((a, b, c));
        }
        i = i + 1;
    }
    proof {
        assert(triangles@.take(i as int) =~= triangles@);
    }
    r
}

/// The vertex whose doubled form is `p`.
fn halve(vertices: &Vec<Coord>, p: Pt) -> (r: Coord)
    requires
        is_input(vertices@, p),
        forall|k: int| 0 <= k < vertices@.len() ==> coord_small(#[trigger] vertices@[k]),
    ensures
        is_vertex(vertices@, r),
        r == half(p),
{
    let ghost k = choose|k: int| 0 <= k < vertices@.len() && #[trigger] dbl(vertices@[k]) == p;
    proof {
        assert(coord_small(vertices@[k]));
    }
    let r = coord((p.0 / 2) as i32, (p.1 / 2) as i32);
    proof {
        assert(r == vertices@[k]);
    }
    r
}

proof fn lemma_allowed_ok(s: Tri, vs: Seq<Coord>, p: Pt)
    requires
        allowed(s, vs, p),
        pt_ok(s.0),
        pt_ok(s.1),
        pt_ok(s.2),
        forall|k: int| 0 <= k < vs.len() ==> pt_ok(#[trigger] dbl(vs[k])),
    ensures
        pt_ok(p),
{
    if is_input(vs, p) {
        let k = choose|k: int| 0 <= k < vs.len() && #[trigger] dbl(vs[k]) == p;
        assert(pt_ok(dbl(vs[k])));
    }
}

} // verus!
