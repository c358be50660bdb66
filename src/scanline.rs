//! Scanline polygon fill with an edge table and an active edge table.
//!
//! Intersections are exact: on scanline `y`, an edge crosses at
//! `x_num / x_den`, with `x_den` the edge's height. A span's pixels run from
//! the rounded left crossing for as many whole steps as fit before the right
//! crossing.
use vstd::prelude::*;

verus! {

broadcast use vstd::seq_lib::group_to_multiset_ensures;

/// The largest coordinate a vertex may have.
pub const COORD_MAX: i32 = 0x7fff_ffff;

/// A pixel position of a polygon vertex.
#[derive(Clone, Copy, Debug, PartialEq, Eq, Structural)]
pub struct IntegerVector2d {
    pub x: i32,
    pub y: i32,
}

impl IntegerVector2d {
    pub fn new(x: i32, y: i32) -> (v: IntegerVector2d)
        ensures
            v == (IntegerVector2d { x, y }),
    {
        IntegerVector2d { x, y }
    }

    pub fn origin() -> (v: IntegerVector2d)
        ensures
            v == (IntegerVector2d { x: 0, y: 0 }),
    {
        IntegerVector2d { x: 0, y: 0 }
    }

    /// Adds `v` component-wise.
    pub fn add(&mut self, v: &IntegerVector2d)
        requires
            i32::MIN <= old(self).x + v.x <= i32::MAX,
            i32::MIN <= old(self).y + v.y <= i32::MAX,
        ensures
            final(self).x == old(self).x + v.x,
            final(self).y == old(self).y + v.y,
    {
        self.x = self.x + v.x;
        self.y = self.y + v.y;
    }

    /// Multiplies both components by `s`.
    pub fn scale(&mut self, s: i32)
        requires
            i32::MIN <= old(self).x * s <= i32::MAX,
            i32::MIN <= old(self).y * s <= i32::MAX,
        ensures
            final(self).x == old(self).x * s,
            final(self).y == old(self).y * s,
    {
        self.x = self.x * s;
        self.y = self.y * s;
    }
}

/// A polygon given by its vertices in order; the last one connects back to
/// the first.
#[derive(Clone, Debug)]
pub struct Polygon2d {
    pub vertices: Vec<IntegerVector2d>,
}

impl Polygon2d {
    pub fn new(vertices: Vec<IntegerVector2d>) -> (p: Polygon2d)
        ensures
            p.vertices@ == vertices@,
    {
        Polygon2d { vertices }
    }
}

/// A non-horizontal polygon edge, oriented from its lower to its upper end.
/// `id` is the index of the polygon vertex the edge starts from; the edge
/// joins that vertex and the next one.
#[derive(Clone, Copy, Debug, PartialEq, Eq, Structural)]
pub struct EdgeTableEntry {
    pub y_lower: i32,
    pub x_lower: i32,
    pub y_upper: i32,
    pub x_upper: i32,
    pub id: usize,
}

/// The edge between `p1` and `p2`, oriented upwards; it does not depend on
/// which of the two ends comes first.
pub open spec fn edge_from(p1: IntegerVector2d, p2: IntegerVector2d, id: usize) -> EdgeTableEntry {
    if p1.y < p2.y {
        EdgeTableEntry { y_lower: p1.y, x_lower: p1.x, y_upper: p2.y, x_upper: p2.x, id }
    } else {
        EdgeTableEntry { y_lower: p2.y, x_lower: p2.x, y_upper: p1.y, x_upper: p1.x, id }
    }
}

/// The index of the vertex after vertex `i` of a closed polygon with `n` vertices.
pub open spec fn next_vertex(i: int, n: int) -> int {
    if i + 1 < n {
        i + 1
    } else {
        0
    }
}

/// The non-horizontal edges that start at the first `k` vertices of the
/// closed polygon `pts`, in vertex order.
pub open spec fn polygon_edges(pts: Seq<IntegerVector2d>, k: int) -> Seq<EdgeTableEntry>
    decreases k,
{
    if k <= 0 {
        Seq::empty()
    } else {
        let i = k - 1;
        let prev = polygon_edges(pts, i);
        let j = next_vertex(i, pts.len() as int);
        if pts[i].y != pts[j].y {
            prev.push(edge_from(pts[i], pts[j], i as usize))
        } else {
            prev
        }
    }
}

impl EdgeTableEntry {
    pub fn new(y_lower: i32, x_lower: i32, y_upper: i32, x_upper: i32, id: usize) -> (e: EdgeTableEntry)
        ensures
            e == (EdgeTableEntry { y_lower, x_lower, y_upper, x_upper, id }),
    {
        EdgeTableEntry { y_lower, x_lower, y_upper, x_upper, id }
    }

    /// The edge between `p1` and `p2`, which must differ in height; `id` is
    /// the index of the vertex the edge starts from in its polygon. Swapping
    /// `p1` and `p2` gives the same edge.
    pub fn from_points(p1: IntegerVector2d, p2: IntegerVector2d, id: usize) -> (e: EdgeTableEntry)
        requires
            p1.y != p2.y,
        ensures
            e == edge_from(p1, p2, id),
            e == edge_from(p2, p1, id),
    {
        if p1.y < p2.y {
            EdgeTableEntry { y_lower: p1.y, x_lower: p1.x, y_upper: p2.y, x_upper: p2.x, id }
        } else {
            EdgeTableEntry { y_lower: p2.y, x_lower: p2.x, y_upper: p1.y, x_upper: p1.x, id }
        }
    }

    /// Index in `points` of the edge's lower end: of vertex `id` and the
    /// vertex after it, the lower one (the second on equal heights).
    pub fn lower_vertex(&self, points: &Vec<IntegerVector2d>) -> (i: usize)
        requires
            self.id < points@.len(),
        ensures
            ({
                let a = self.id as int;
                let b = next_vertex(a, points@.len() as int);
                i == if points@[a].y < points@[b].y { a } else { b }
            }),
    {
        let a = self.id;
        let b = if a < points.len() - 1 { a + 1 } else { 0 };
        if points[a].y < points[b].y { a } else { b }
    }

    /// Index in `points` of the edge's upper end: of vertex `id` and the
    /// vertex after it, the one that `lower_vertex` does not pick.
    pub fn upper_vertex(&self, points: &Vec<IntegerVector2d>) -> (i: usize)
        requires
            self.id < points@.len(),
        ensures
            ({
                let a = self.id as int;
                let b = next_vertex(a, points@.len() as int);
                i == if points@[a].y < points@[b].y { b } else { a }
            }),
    {
        let a = self.id;
        let b = if a < points.len() - 1 { a + 1 } else { 0 };
        if points[a].y < points[b].y { b } else { a }
    }

    /// Both ends have non-negative coordinates and the lower end is strictly lower.
    pub open spec fn wf(self) -> bool {
        &&& 0 <= self.x_lower
        &&& 0 <= self.x_upper
        &&& 0 <= self.y_lower < self.y_upper
    }

    /// The edge's height.
    pub open spec fn dy(self) -> int {
        self.y_upper - self.y_lower
    }

    /// The edge's horizontal run from its lower to its upper end.
    pub open spec fn dx(self) -> int {
        self.x_upper - self.x_lower
    }

    /// Whether scanline `y` crosses the edge: its lower end counts, its upper
    /// end does not.
    pub open spec fn is_active_at(self, y: int) -> bool {
        self.y_lower <= y < self.y_upper
    }

    /// `dy` times the edge's `x` on scanline `y`.
    pub open spec fn num_at(self, y: int) -> int {
        self.x_lower * self.dy() + (y - self.y_lower) * self.dx()
    }
}

/// The polygon's edges, as built for one fill.
#[derive(Clone, Debug)]
pub struct EdgeTable {
    pub list: Vec<EdgeTableEntry>,
}

impl EdgeTable {
    pub fn new() -> (t: EdgeTable)
        ensures
            t.list@.len() == 0,
    {
        EdgeTable { list: Vec::new() }
    }

    pub fn add_edge(&mut self, edge: EdgeTableEntry)
        ensures
            final(self).list@ == old(self).list@.push(edge),
    {
        self.list.push(edge);
    }

    /// Orders the edges by ascending lower end, keeping the same edges.
    pub fn sort(&mut self)
        ensures
            final(self).list@.to_multiset() == old(self).list@.to_multiset(),
            forall|i: int, j: int|
                0 <= i < j < final(self).list@.len() ==> (#[trigger] final(self).list@[i]).y_lower
                    <= (#[trigger] final(self).list@[j]).y_lower,
    {
        let n = self.list.len();
        let mut out: Vec<EdgeTableEntry> = Vec::new();
        let mut k: usize = 0;
        while k < n
            invariant
                0 <= k <= n,
                n == self.list@.len(),
                self.list == old(self).list,
                out@.to_multiset() == self.list@.take(k as int).to_multiset(),
                forall|i: int, j: int|
                    0 <= i < j < out@.len() ==> (#[trigger] out@[i]).y_lower <= (#[trigger] out@[j]).y_lower,
            decreases n - k,
        {
            let e = self.list[k];
            let mut pos = out.len();
            while pos > 0 && out[pos - 1].y_lower > e.y_lower
                invariant
                    0 <= pos <= out@.len(),
                    forall|j: int| pos <= j < out@.len() ==> (#[trigger] out@[j]).y_lower > e.y_lower,
                decreases pos,
            {
                pos = pos - 1;
            }
            proof {
                assert(self.list@.take(k + 1) =~= self.list@.take(k as int).push(e));
            }
            let ghost before = out@;
            out.insert(pos, e);
            proof {
                assert forall|i: int, j: int| 0 <= i < j < out@.len() implies (#[trigger] out@[i]).y_lower
                    <= (#[trigger] out@[j]).y_lower by {
                    if i < pos && j == pos {
                        assert(before[i].y_lower <= before[pos - 1].y_lower || i == pos - 1);
                    } else if i == pos {
                        assert(before[j - 1].y_lower > e.y_lower);
                    } else {
                        let bi = if i < pos { i } else { i - 1 };
                        let bj = if j < pos { j } else { j - 1 };
                        assert(before[bi].y_lower <= before[bj].y_lower);
                    }
                }
            }
            k = k + 1;
        }
        proof {
            assert(self.list@.take(n as int) =~= self.list@);
        }
        self.list = out;
    }
}

/// An edge crossing the current scanline at `x_num / x_den`.
#[derive(Clone, Copy, Debug, PartialEq, Eq, Structural)]
pub struct ActiveEdgeTableEntry {
    pub x_num: i128,
    pub x_den: i128,
    pub edge: EdgeTableEntry,
}

/// The crossing of edge `e` with scanline `y`.
pub open spec fn entry_at(e: EdgeTableEntry, y: int) -> ActiveEdgeTableEntry {
    ActiveEdgeTableEntry { x_num: e.num_at(y) as i128, x_den: e.dy() as i128, edge: e }
}

/// The crossings with scanline `y` of the edges among the first `k` of `et`
/// that it crosses, in table order.
pub open spec fn active_entries(et: Seq<EdgeTableEntry>, y: int, k: int) -> Seq<ActiveEdgeTableEntry>
    decreases k,
{
    if k <= 0 {
        Seq::empty()
    } else {
        let prev = active_entries(et, y, k - 1);
        if et[k - 1].is_active_at(y) {
            prev.push(entry_at(et[k - 1], y))
        } else {
            prev
        }
    }
}

/// A crossing lies in `[0, COORD_MAX]` and has a positive denominator of at
/// most `COORD_MAX`.
pub open spec fn entry_wf(a: ActiveEdgeTableEntry) -> bool {
    &&& 0 < a.x_den <= COORD_MAX
    &&& 0 <= a.x_num <= COORD_MAX * a.x_den
}

/// Crossing `a` lies left of or at crossing `b`.
pub open spec fn x_le(a: ActiveEdgeTableEntry, b: ActiveEdgeTableEntry) -> bool {
    a.x_num * b.x_den <= b.x_num * a.x_den
}

/// The crossings are in ascending order of `x`.
pub open spec fn sorted_by_x(s: Seq<ActiveEdgeTableEntry>) -> bool {
    forall|i: int, j: int| 0 <= i < j < s.len() ==> x_le(#[trigger] s[i], #[trigger] s[j])
}

/// The edges crossing the current scanline.
#[derive(Clone, Debug)]
pub struct ActiveEdgeTable {
    pub list: Vec<ActiveEdgeTableEntry>,
}

proof fn lemma_x_le_trans(a: ActiveEdgeTableEntry, b: ActiveEdgeTableEntry, c: ActiveEdgeTableEntry)
    requires
        a.x_den > 0,
        b.x_den > 0,
        c.x_den > 0,
        x_le(a, b),
        x_le(b, c),
    ensures
        x_le(a, c),
{
    let (an, ad, bn, bd, cn, cd) = (
        a.x_num as int,
        a.x_den as int,
        b.x_num as int,
        b.x_den as int,
        c.x_num as int,
        c.x_den as int,
    );
    assert(an * bd * cd <= bn * ad * cd) by (nonlinear_arith)
        requires an * bd <= bn * ad, cd > 0;
    assert(bn * cd * ad <= cn * bd * ad) by (nonlinear_arith)
        requires bn * cd <= cn * bd, ad > 0;
    assert(an * cd * bd <= cn * ad * bd) by (nonlinear_arith)
        requires an * bd * cd <= bn * ad * cd, bn * cd * ad <= cn * bd * ad;
    assert(an * cd <= cn * ad) by (nonlinear_arith)
        requires an * cd * bd <= cn * ad * bd, bd > 0;
}

/// Exact comparison of two crossings.
fn x_le_exec(a: &ActiveEdgeTableEntry, b: &ActiveEdgeTableEntry) -> (r: bool)
    requires
        entry_wf(*a),
        entry_wf(*b),
    ensures
        r == x_le(*a, *b),
{
    proof {
        lemma_product_bound(a.x_num as int, b.x_den as int, a.x_den as int);
        lemma_product_bound(b.x_num as int, a.x_den as int, b.x_den as int);
    }
    a.x_num * b.x_den <= b.x_num * a.x_den
}

/// `n * d` stays far inside `i128` for a well-formed crossing numerator `n`
/// (at most `COORD_MAX * e`) and a denominator `d`.
proof fn lemma_product_bound(n: int, d: int, e: int)
    requires
        0 <= n <= COORD_MAX * e,
        0 < e <= COORD_MAX,
        0 < d <= COORD_MAX,
    ensures
        0 <= n * d <= COORD_MAX * COORD_MAX * COORD_MAX,
{
    assert(0 <= n * d <= COORD_MAX * e * d) by (nonlinear_arith)
        requires 0 <= n <= COORD_MAX * e, 0 < d;
    assert(COORD_MAX * e * d <= COORD_MAX * COORD_MAX * COORD_MAX) by (nonlinear_arith)
        requires 0 < e <= COORD_MAX, 0 < d <= COORD_MAX;
}

impl ActiveEdgeTable {
    pub fn new() -> (t: ActiveEdgeTable)
        ensures
            t.list@.len() == 0,
    {
        ActiveEdgeTable { list: Vec::new() }
    }

    pub fn add_edge(&mut self, edge: ActiveEdgeTableEntry)
        ensures
            final(self).list@ == old(self).list@.push(edge),
    {
        self.list.push(edge);
    }

    /// Orders the crossings by ascending `x`, keeping the same entries.
    pub fn sort(&mut self)
        requires
            forall|i: int| 0 <= i < old(self).list@.len() ==> entry_wf(#[trigger] old(self).list@[i]),
        ensures
            final(self).list@.to_multiset() == old(self).list@.to_multiset(),
            sorted_by_x(final(self).list@),
            forall|i: int| 0 <= i < final(self).list@.len() ==> entry_wf(#[trigger] final(self).list@[i]),
    {
        let n = self.list.len();
        let mut out: Vec<ActiveEdgeTableEntry> = Vec::new();
        let mut k: usize = 0;
        while k < n
            invariant
                0 <= k <= n,
                n == self.list@.len(),
                self.list == old(self).list,
                forall|i: int| 0 <= i < n ==> entry_wf(#[trigger] self.list@[i]),
                forall|i: int| 0 <= i < out@.len() ==> entry_wf(#[trigger] out@[i]),
                out@.to_multiset() == self.list@.take(k as int).to_multiset(),
                sorted_by_x(out@),
            decreases n - k,
        {
            let e = self.list[k];
            let mut pos = out.len();
            while pos > 0 && !x_le_exec(&out[pos - 1], &e)
                invariant
                    0 <= pos <= out@.len(),
                    entry_wf(e),
                    forall|i: int| 0 <= i < out@.len() ==> entry_wf(#[trigger] out@[i]),
                    forall|j: int| pos <= j < out@.len() ==> !x_le(#[trigger] out@[j], e),
                decreases pos,
            {
                pos = pos - 1;
            }
            proof {
                assert forall|j: int| 0 <= j < pos implies x_le(#[trigger] out@[j], e) by {
                    if j < pos - 1 {
                        lemma_x_le_trans(out@[j], out@[pos - 1], e);
                    }
                }
                assert(self.list@.take(k + 1) =~= self.list@.take(k as int).push(e));
            }
            let ghost before = out@;
            out.insert(pos, e);
            proof {
                assert(sorted_by_x(out@)) by {
                    assert forall|i: int, j: int| 0 <= i < j < out@.len() implies x_le(
                        #[trigger] out@[i],
                        #[trigger] out@[j],
                    ) by {
                        if i < pos && j == pos {
                        } else if i == pos {
                            assert(!x_le(before[j - 1], e));
                        } else {
                            let bi = if i < pos { i } else { i - 1 };
                            let bj = if j < pos { j } else { j - 1 };
                            assert(x_le(before[bi], before[bj]));
                        }
                    }
                }
            }
            k = k + 1;
        }
        proof {
            assert(self.list@.take(n as int) =~= self.list@);
        }
        self.list = out;
    }
}

impl ActiveEdgeTableEntry {
    /// The crossing of edge `edge` with scanline `y`, which must cross it.
    pub fn new(edge: EdgeTableEntry, y: i32) -> (a: ActiveEdgeTableEntry)
        requires
            edge.wf(),
            edge.is_active_at(y as int),
        ensures
            a == entry_at(edge, y as int),
            entry_wf(a),
    {
        let dy = edge.y_upper as i128 - edge.y_lower as i128;
        let dx = edge.x_upper as i128 - edge.x_lower as i128;
        let k = y as i128 - edge.y_lower as i128;
        proof {
            lemma_crossing_bounds(edge, y as int);
        }
        let x_num = edge.x_lower as i128 * dy + k * dx;
        ActiveEdgeTableEntry { x_num, x_den: dy, edge }
    }
}

/// On a scanline that crosses it, an edge's crossing lies between its ends.
proof fn lemma_crossing_bounds(e: EdgeTableEntry, y: int)
    requires
        e.wf(),
        e.is_active_at(y),
    ensures
        0 <= e.num_at(y) <= COORD_MAX * e.dy(),
        0 < e.dy() <= COORD_MAX,
        -COORD_MAX * COORD_MAX <= e.x_lower * e.dy() <= COORD_MAX * COORD_MAX,
        -COORD_MAX * COORD_MAX <= (y - e.y_lower) * e.dx() <= COORD_MAX * COORD_MAX,
{
    let xl = e.x_lower as int;
    let xu = e.x_upper as int;
    let d = e.dy();
    let k = y - e.y_lower;
    assert(e.num_at(y) == xl * (d - k) + xu * k) by (nonlinear_arith)
        requires e.num_at(y) == xl * d + k * (xu - xl);
    assert(0 <= xl * (d - k) + xu * k <= COORD_MAX * d) by (nonlinear_arith)
        requires 0 <= xl <= COORD_MAX, 0 <= xu <= COORD_MAX, 0 <= k < d;
    assert(0 <= xl * d <= COORD_MAX * COORD_MAX) by (nonlinear_arith)
        requires 0 <= xl <= COORD_MAX, 0 < d <= COORD_MAX;
    assert(-COORD_MAX * COORD_MAX <= k * (xu - xl) <= COORD_MAX * COORD_MAX) by (nonlinear_arith)
        requires 0 <= k <= COORD_MAX, -COORD_MAX <= xu - xl <= COORD_MAX;
}

/// The pixels of scanline `y` between the crossings `left` and `right`:
/// from `left.edge` to `right.edge`, starting at the rounded left crossing
/// and ending at the last whole step from it that does not pass the right
/// crossing. The ends are inclusive.
#[derive(Clone, Copy, Debug, PartialEq, Eq, Structural)]
pub struct Span {
    pub y: i32,
    pub left: EdgeTableEntry,
    pub right: EdgeTableEntry,
    pub x_start: i64,
    pub x_end: i64,
}

/// `n / d` rounded to the nearest integer, halves upwards (`n, d >= 0`).
pub open spec fn round_div(n: int, d: int) -> int {
    (2 * n + d) / (2 * d)
}

/// The span of scanline `y` from crossing `l` to crossing `r`.
pub open spec fn span_of(l: ActiveEdgeTableEntry, r: ActiveEdgeTableEntry, y: int) -> Span {
    let start = round_div(l.x_num as int, l.x_den as int);
    let steps = (r.x_num * l.x_den - l.x_num * r.x_den) / (l.x_den * r.x_den);
    Span { y: y as i32, left: l.edge, right: r.edge, x_start: start as i64, x_end: (start + steps) as i64 }
}

/// `a / b <= m` when `a <= m * b`.
proof fn lemma_div_at_most(a: int, b: int, m: int)
    requires
        0 <= a <= m * b,
        b > 0,
    ensures
        0 <= a / b <= m,
{
    assert(a / b <= m) by (nonlinear_arith)
        requires 0 <= a <= m * b, b > 0;
}

/// The span between two sorted crossings.
fn span_between(l: &ActiveEdgeTableEntry, r: &ActiveEdgeTableEntry, y: i32) -> (s: Span)
    requires
        entry_wf(*l),
        entry_wf(*r),
        x_le(*l, *r),
    ensures
        s == span_of(*l, *r, y as int),
        0 <= s.x_start <= s.x_end,
{
    let (ln, ld, rn, rd) = (l.x_num, l.x_den, r.x_num, r.x_den);
    proof {
        lemma_product_bound(rn as int, ld as int, rd as int);
        lemma_product_bound(ln as int, rd as int, ld as int);
        assert(0 < ld * rd <= COORD_MAX * COORD_MAX) by (nonlinear_arith)
            requires 0 < ld <= COORD_MAX, 0 < rd <= COORD_MAX;
        let (iln, ild) = (ln as int, ld as int);
        assert(0 <= (2 * iln + ild) / (2 * ild) <= COORD_MAX) by (nonlinear_arith)
            requires 0 <= iln <= COORD_MAX * ild, ild > 0;
        assert(rn * ld <= COORD_MAX * (ld * rd)) by (nonlinear_arith)
            requires 0 <= rn <= COORD_MAX * rd, ld > 0;
        lemma_div_at_most((rn * ld - ln * rd) as int, (ld * rd) as int, COORD_MAX as int);
    }
    let start = (2 * ln + ld) / (2 * ld);
    let steps = (rn * ld - ln * rd) / (ld * rd);
    Span { y, left: l.edge, right: r.edge, x_start: start as i64, x_end: (start + steps) as i64 }
}

/// Min of the lower ends of the first `k >= 1` edges.
pub open spec fn min_y_lower(et: Seq<EdgeTableEntry>, k: int) -> int
    decreases k,
{
    if k <= 1 {
        et[0].y_lower as int
    } else {
        let m = min_y_lower(et, k - 1);
        if et[k - 1].y_lower < m {
            et[k - 1].y_lower as int
        } else {
            m
        }
    }
}

/// Max of the upper ends of the first `k >= 1` edges.
pub open spec fn max_y_upper(et: Seq<EdgeTableEntry>, k: int) -> int
    decreases k,
{
    if k <= 1 {
        et[0].y_upper as int
    } else {
        let m = max_y_upper(et, k - 1);
        if et[k - 1].y_upper > m {
            et[k - 1].y_upper as int
        } else {
            m
        }
    }
}

/// A polygon fill in progress: the next scanline to fill is `y_scan`, and
/// the fill is over once it reaches `y_end`. After each step,
/// `active_edge_table` holds the crossings of the scanline just filled, in
/// ascending order of `x`.
#[derive(Clone, Debug)]
pub struct ScanlineFill {
    pub edge_table: EdgeTable,
    pub active_edge_table: ActiveEdgeTable,
    pub y_scan: i32,
    pub y_end: i32,
}

/// The fill state that `ScanlineFill::new` produces for the polygon `pts`:
/// its non-horizontal edges, no crossings yet, and the scanlines from the
/// lowest lower end up to, not including, the highest upper end.
pub open spec fn fill_started(f: ScanlineFill, pts: Seq<IntegerVector2d>) -> bool {
    let et = polygon_edges(pts, pts.len() as int);
    &&& f.edge_table.list@ == et
    &&& f.active_edge_table.list@.len() == 0
    &&& et.len() == 0 ==> f.y_scan == 0 && f.y_end == 0
    &&& et.len() > 0 ==> f.y_scan == min_y_lower(et, et.len() as int) && f.y_end == max_y_upper(
        et,
        et.len() as int,
    )
}

/// Every vertex has non-negative coordinates.
pub open spec fn non_negative(pts: Seq<IntegerVector2d>) -> bool {
    forall|i: int| 0 <= i < pts.len() ==> 0 <= #[trigger] pts[i].x && 0 <= pts[i].y
}

proof fn lemma_polygon_edges_wf(pts: Seq<IntegerVector2d>, k: int)
    requires
        non_negative(pts),
        0 <= k <= pts.len(),
    ensures
        polygon_edges(pts, k).len() <= k,
        forall|i: int| 0 <= i < polygon_edges(pts, k).len() ==> (#[trigger] polygon_edges(pts, k)[i]).wf(),
    decreases k,
{
    if k > 0 {
        lemma_polygon_edges_wf(pts, k - 1);
        let j = next_vertex(k - 1, pts.len() as int);
        assert(0 <= pts[j].x && 0 <= pts[j].y);
        assert(0 <= pts[k - 1].x && 0 <= pts[k - 1].y);
    }
}

impl ScanlineFill {
    /// Every edge is well formed.
    pub open spec fn wf(&self) -> bool {
        forall|i: int| 0 <= i < self.edge_table.list@.len() ==> (#[trigger] self.edge_table.list@[i]).wf()
    }

    /// Starts filling the closed polygon `points`, whose coordinates must be
    /// non-negative: builds its edge table, leaving out horizontal edges.
    pub fn new(points: &Vec<IntegerVector2d>) -> (f: ScanlineFill)
        requires
            non_negative(points@),
        ensures
            f.wf(),
            fill_started(f, points@),
    {
        let n = points.len();
        let mut edge_table = EdgeTable::new();
        let mut i: usize = 0;
        while i < n
            invariant
                0 <= i <= n,
                n == points@.len(),
                non_negative(points@),
                edge_table.list@ == polygon_edges(points@, i as int),
            decreases n - i,
        {
            let j = if i + 1 < n { i + 1 } else { 0 };
            let p1 = points[i];
            let p2 = points[j];
            if p1.y != p2.y {
                edge_table.add_edge(EdgeTableEntry::from_points(p1, p2, i));
            }
            i = i + 1;
        }
        proof {
            lemma_polygon_edges_wf(points@, n as int);
        }
        let m = edge_table.list.len();
        if m == 0 {
            return ScanlineFill { edge_table, active_edge_table: ActiveEdgeTable::new(), y_scan: 0, y_end: 0 };
        }
        let mut lo = edge_table.list[0].y_lower;
        let mut hi = edge_table.list[0].y_upper;
        let mut k: usize = 1;
        while k < m
            invariant
                1 <= k <= m,
                m == edge_table.list@.len(),
                lo == min_y_lower(edge_table.list@, k as int),
                hi == max_y_upper(edge_table.list@, k as int),
            decreases m - k,
        {
            let e = edge_table.list[k];
            if e.y_lower < lo {
                lo = e.y_lower;
            }
            if e.y_upper > hi {
                hi = e.y_upper;
            }
            k = k + 1;
        }
        ScanlineFill { edge_table, active_edge_table: ActiveEdgeTable::new(), y_scan: lo, y_end: hi }
    }

    /// Whether every scanline has been filled.
    pub fn is_done(&self) -> (r: bool)
        ensures
            r == (self.y_scan >= self.y_end),
    {
        self.y_scan >= self.y_end
    }

    /// Fills scanline `y_scan` and moves to the next one. The crossings of
    /// the edges active on that scanline are sorted by `x` into
    /// `active_edge_table`; consecutive pairs of them, first and second,
    /// third and fourth, and so on, bound the returned spans.
    pub fn step(&mut self) -> (spans: Vec<Span>)
        requires
            old(self).wf(),
            old(self).y_scan < old(self).y_end,
        ensures
            final(self).wf(),
            final(self).edge_table.list == old(self).edge_table.list,
            final(self).y_end == old(self).y_end,
            final(self).y_scan == old(self).y_scan + 1,
            final(self).active_edge_table.list@.to_multiset() == active_entries(
                old(self).edge_table.list@,
                old(self).y_scan as int,
                old(self).edge_table.list@.len() as int,
            ).to_multiset(),
            sorted_by_x(final(self).active_edge_table.list@),
            forall|i: int| 0 <= i < final(self).active_edge_table.list@.len()
                ==> entry_wf(#[trigger] final(self).active_edge_table.list@[i]),
            spans@.len() == final(self).active_edge_table.list@.len() / 2,
            forall|i: int| 0 <= i < spans@.len() ==> #[trigger] spans@[i] == span_of(
                final(self).active_edge_table.list@[2 * i],
                final(self).active_edge_table.list@[2 * i + 1],
                old(self).y_scan as int,
            ),
    {
        let y = self.y_scan;
        let m = self.edge_table.list.len();
        let mut aet = ActiveEdgeTable::new();
        let mut k: usize = 0;
        while k < m
            invariant
                0 <= k <= m,
                m == self.edge_table.list@.len(),
                self.wf(),
                aet.list@ == active_entries(self.edge_table.list@, y as int, k as int),
                forall|i: int| 0 <= i < aet.list@.len() ==> entry_wf(#[trigger] aet.list@[i]),
            decreases m - k,
        {
            let e = self.edge_table.list[k];
            if e.y_lower <= y && y < e.y_upper {
                aet.add_edge(ActiveEdgeTableEntry::new(e, y));
            }
            k = k + 1;
        }
        aet.sort();
        let len = aet.list.len();
        let count = len / 2;
        let mut spans: Vec<Span> = Vec::new();
        let mut i: usize = 0;
        while i < count
            invariant
                0 <= i <= count,
                len == aet.list@.len(),
                count == len / 2,
                sorted_by_x(aet.list@),
                forall|j: int| 0 <= j < aet.list@.len() ==> entry_wf(#[trigger] aet.list@[j]),
                spans@.len() == i,
                forall|j: int| 0 <= j < i ==> #[trigger] spans@[j] == span_of(aet.list@[2 * j], aet.list@[2 * j + 1], y as int),
            decreases count - i,
        {
            proof {
                assert(2 * i + 1 < aet.list@.len());
            }
            let l = aet.list[2 * i];
            let r = aet.list[2 * i + 1];
            spans.push(span_between(&l, &r, y));
            i = i + 1;
        }
        self.active_edge_table = aet;
        self.y_scan = y + 1;
        spans
    }
}

} // verus!
