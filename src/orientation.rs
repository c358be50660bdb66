//! Filling a polygon does not depend on the direction in which its vertices
//! are listed.
//!
//! Every crossing `x_num / x_den` is measured in units of one common
//! denominator, `common_den()`, which every edge height divides; crossings
//! then become plain integers, and the sorted crossings of a scanline are
//! determined by the multiset of those integers.
use vstd::prelude::*;
use vstd::multiset::Multiset;
use vstd::arithmetic::div_mod::{lemma_fundamental_div_mod_converse, lemma_mod_multiples_basic};
use vstd::relations::{sorted_by, total_ordering};
use vstd::seq_lib::lemma_sorted_unique;
use crate::scanline::{
    active_entries, edge_from, entry_at, entry_wf, next_vertex, non_negative, polygon_edges,
    sorted_by_x, span_of, x_le, ActiveEdgeTableEntry, EdgeTableEntry, IntegerVector2d, COORD_MAX,
};

verus! {

broadcast use vstd::seq_lib::group_to_multiset_ensures, vstd::multiset::group_multiset_axioms;

pub open spec fn factorial(n: nat) -> nat
    decreases n,
{
    if n == 0 {
        1
    } else {
        n * factorial((n - 1) as nat)
    }
}

/// A denominator that every edge height divides.
pub open spec fn common_den() -> int {
    factorial(COORD_MAX as nat) as int
}

/// A crossing in units of `1 / common_den()`.
pub open spec fn crossing_key(a: ActiveEdgeTableEntry) -> int {
    a.x_num * (common_den() / a.x_den as int)
}

proof fn lemma_factorial_positive(n: nat)
    ensures
        factorial(n) >= 1,
    decreases n,
{
    if n > 0 {
        lemma_factorial_positive((n - 1) as nat);
        let f = factorial((n - 1) as nat) as int;
        assert(n * f >= 1) by (nonlinear_arith)
            requires n >= 1, f >= 1;
    }
}

proof fn lemma_factorial_divisible(n: nat, d: int)
    requires
        1 <= d <= n,
    ensures
        factorial(n) as int % d == 0,
    decreases n,
{
    let f = factorial((n - 1) as nat) as int;
    if d == n {
        lemma_mod_multiples_basic(f, d);
        assert(factorial(n) as int == f * d);
    } else {
        lemma_factorial_divisible((n - 1) as nat, d);
        let q = f / d;
        assert(f == d * q) by (nonlinear_arith)
            requires f % d == 0, d >= 1, q == f / d;
        lemma_mod_multiples_basic(n * q, d);
        assert(factorial(n) as int == (n * q) * d) by (nonlinear_arith)
            requires factorial(n) as int == n * f, f == d * q;
    }
}

/// The common denominator is a positive multiple of a crossing's denominator.
proof fn lemma_common_den(a: ActiveEdgeTableEntry)
    requires
        entry_wf(a),
    ensures
        common_den() >= 1,
        (common_den() / a.x_den as int) >= 1,
        (a.x_den as int) * (common_den() / a.x_den as int) == common_den(),
{
    lemma_factorial_positive(COORD_MAX as nat);
    lemma_factorial_divisible(COORD_MAX as nat, a.x_den as int);
    let f = common_den();
    let d = a.x_den as int;
    assert(d * (f / d) == f) by (nonlinear_arith)
        requires f % d == 0, d >= 1;
    assert(f / d >= 1) by (nonlinear_arith)
        requires d * (f / d) == f, f >= 1, d >= 1;
}

/// Crossing order is the order of the keys.
proof fn lemma_key_monotone(a: ActiveEdgeTableEntry, b: ActiveEdgeTableEntry)
    requires
        entry_wf(a),
        entry_wf(b),
        x_le(a, b),
    ensures
        crossing_key(a) <= crossing_key(b),
{
    lemma_common_den(a);
    lemma_common_den(b);
    let f = common_den();
    let (an, ad, bn, bd) = (a.x_num as int, a.x_den as int, b.x_num as int, b.x_den as int);
    let ka = f / ad;
    let kb = f / bd;
    assert(an * bd * (ka * kb) <= bn * ad * (ka * kb)) by (nonlinear_arith)
        requires an * bd <= bn * ad, ka >= 1, kb >= 1;
    assert(an * ka * f <= bn * kb * f) by (nonlinear_arith)
        requires an * bd * (ka * kb) <= bn * ad * (ka * kb), ad * ka == f, bd * kb == f;
    assert(an * ka <= bn * kb) by (nonlinear_arith)
        requires an * ka * f <= bn * kb * f, f >= 1;
}

/// `(a * k) / (b * k) == a / b` for positive `b` and `k`.
proof fn lemma_div_cancel(a: int, b: int, k: int)
    requires
        b > 0,
        k > 0,
    ensures
        (a * k) / (b * k) == a / b,
{
    let q = a / b;
    let r = a % b;
    assert(a == q * b + r && 0 <= r < b) by (nonlinear_arith)
        requires b > 0, q == a / b, r == a % b;
    assert(a * k == q * (b * k) + r * k && 0 <= r * k < b * k) by (nonlinear_arith)
        requires a == q * b + r, 0 <= r < b, k > 0;
    lemma_fundamental_div_mod_converse(a * k, b * k, q, r * k);
}

proof fn lemma_mul_sub(a: int, b: int, k: int)
    ensures
        (a - b) * k == a * k - b * k,
{
    assert((a - b) * k == a * k - b * k) by (nonlinear_arith);
}

proof fn lemma_mul_four(a: int, b: int, c: int, d: int)
    ensures
        (a * b) * (c * d) == (a * d) * (b * c),
{
    assert((a * b) * (c * d) == (a * d) * (b * c)) by (nonlinear_arith);
}

/// A span's ends depend on its two crossings only through their keys.
proof fn lemma_span_by_keys(l: ActiveEdgeTableEntry, r: ActiveEdgeTableEntry, y: int)
    requires
        entry_wf(l),
        entry_wf(r),
    ensures
        ({
            let f = common_den();
            let start = (2 * crossing_key(l) + f) / (2 * f);
            &&& span_of(l, r, y).x_start == start as i64
            &&& span_of(l, r, y).x_end == (start + (crossing_key(r) - crossing_key(l)) / f) as i64
        }),
{
    lemma_common_den(l);
    lemma_common_den(r);
    let f = common_den();
    let (ln, ld, rn, rd) = (l.x_num as int, l.x_den as int, r.x_num as int, r.x_den as int);
    let kl = f / ld;
    let kr = f / rd;
    lemma_div_cancel(2 * ln + ld, 2 * ld, kl);
    assert((2 * ln + ld) * kl == 2 * (ln * kl) + f && (2 * ld) * kl == 2 * f) by (nonlinear_arith)
        requires ld * kl == f;
    assert(ld * rd > 0 && kl * kr > 0) by (nonlinear_arith)
        requires ld > 0, rd > 0, kl >= 1, kr >= 1;
    lemma_div_cancel(rn * ld - ln * rd, ld * rd, kl * kr);
    lemma_mul_sub(rn * ld, ln * rd, kl * kr);
    lemma_mul_four(rn, ld, kl, kr);
    lemma_mul_four(ln, rd, kr, kl);
    assert(kr * kl == kl * kr);
    assert((ld * rd) * (kl * kr) == (ld * kl) * (rd * kr)) by (nonlinear_arith);
    let d = (rn * kr) - (ln * kl);
    assert((rn * kr) * f - (ln * kl) * f == d * f) by (nonlinear_arith)
        requires d == (rn * kr) - (ln * kl);
    lemma_div_cancel(d, f, f);
}

/// The keys of a sequence of crossings.
pub open spec fn keys(s: Seq<ActiveEdgeTableEntry>) -> Seq<int> {
    s.map_values(|a: ActiveEdgeTableEntry| crossing_key(a))
}

/// Sequences holding the same crossings hold the same keys.
proof fn lemma_keys_multiset(a: Seq<ActiveEdgeTableEntry>, b: Seq<ActiveEdgeTableEntry>)
    requires
        a.to_multiset() == b.to_multiset(),
    ensures
        keys(a).to_multiset() == keys(b).to_multiset(),
    decreases a.len(),
{
    if a.len() == 0 {
        assert(b.to_multiset().len() == 0);
        assert(b.len() == 0);
        assert(keys(a) =~= keys(b));
    } else {
        let x = a.last();
        assert(a.to_multiset().count(x) > 0) by {
            assert(a.contains(x)) by {
                assert(a[a.len() - 1] == x);
            }
        }
        assert(b.contains(x));
        let i = choose|i: int| 0 <= i < b.len() && b[i] == x;
        let a2 = a.drop_last();
        let b2 = b.remove(i);
        assert(a =~= a2.push(x));
        assert(a2.to_multiset() =~= a.to_multiset().remove(x));
        assert(b2.to_multiset() =~= b.to_multiset().remove(x));
        lemma_keys_multiset(a2, b2);
        assert(keys(a) =~= keys(a2).push(crossing_key(x)));
        assert(keys(b2) =~= keys(b).remove(i));
        assert(keys(b).to_multiset() =~= keys(b2).to_multiset().insert(crossing_key(x))) by {
            assert(keys(b)[i] == crossing_key(x));
            assert(keys(b).remove(i).to_multiset() =~= keys(b).to_multiset().remove(crossing_key(x)));
        }
    }
}

/// The sides of a closed polygon: each vertex with the next.
pub open spec fn sides(pts: Seq<IntegerVector2d>) -> Seq<(IntegerVector2d, IntegerVector2d)> {
    Seq::new(pts.len(), |i: int| (pts[i], pts[next_vertex(i, pts.len() as int)]))
}

/// The key on scanline `y` of the side from `p` to `q`, if `y` crosses it.
pub open spec fn side_key(p: IntegerVector2d, q: IntegerVector2d, y: int) -> Option<int> {
    let e = edge_from(p, q, 0);
    if p.y != q.y && e.is_active_at(y) {
        Some(crossing_key(entry_at(e, y)))
    } else {
        None
    }
}

/// The keys on scanline `y` of the sides in `s` that it crosses.
pub open spec fn side_keys(s: Seq<(IntegerVector2d, IntegerVector2d)>, y: int) -> Multiset<int>
    decreases s.len(),
{
    if s.len() == 0 {
        Multiset::empty()
    } else {
        let prev = side_keys(s.drop_last(), y);
        match side_key(s.last().0, s.last().1, y) {
            Some(k) => prev.insert(k),
            None => prev,
        }
    }
}

proof fn lemma_side_keys_add(s: Seq<(IntegerVector2d, IntegerVector2d)>, t: Seq<(IntegerVector2d, IntegerVector2d)>, y: int)
    ensures
        side_keys(s + t, y) == side_keys(s, y).add(side_keys(t, y)),
    decreases t.len(),
{
    if t.len() == 0 {
        assert(s + t =~= s);
        assert(side_keys(s, y).add(Multiset::empty()) =~= side_keys(s, y));
    } else {
        lemma_side_keys_add(s, t.drop_last(), y);
        assert((s + t).drop_last() =~= s + t.drop_last());
        assert((s + t).last() == t.last());
        match side_key(t.last().0, t.last().1, y) {
            Some(k) => {
                assert(side_keys(s, y).add(side_keys(t.drop_last(), y)).insert(k) =~= side_keys(s, y).add(
                    side_keys(t.drop_last(), y).insert(k),
                ));
            },
            None => {},
        }
    }
}

proof fn lemma_side_keys_reverse(s: Seq<(IntegerVector2d, IntegerVector2d)>, y: int)
    ensures
        side_keys(s.reverse(), y) == side_keys(s, y),
    decreases s.len(),
{
    if s.len() > 0 {
        let x = s.last();
        let r = s.drop_last();
        lemma_side_keys_reverse(r, y);
        assert(s.reverse() =~= seq![x] + r.reverse());
        lemma_side_keys_add(seq![x], r.reverse(), y);
        assert(seq![x].drop_last() =~= Seq::<(IntegerVector2d, IntegerVector2d)>::empty());
        assert(seq![x].len() == 1 && seq![x].last() == x);
        assert(side_keys(Seq::<(IntegerVector2d, IntegerVector2d)>::empty(), y) =~= Multiset::empty());
        match side_key(x.0, x.1, y) {
            Some(k) => {
                assert(side_keys(seq![x], y) =~= Multiset::empty().insert(k));
                assert(side_keys(seq![x], y).add(side_keys(r, y)) =~= side_keys(r, y).insert(k));
            },
            None => {
                assert(side_keys(seq![x], y) =~= Multiset::empty());
                assert(side_keys(seq![x], y).add(side_keys(r, y)) =~= side_keys(r, y));
            },
        }
    }
}

/// Swapping the two ends of every side keeps the keys.
proof fn lemma_side_keys_swap(s: Seq<(IntegerVector2d, IntegerVector2d)>, y: int)
    ensures
        side_keys(s.map_values(|e: (IntegerVector2d, IntegerVector2d)| (e.1, e.0)), y) == side_keys(s, y),
    decreases s.len(),
{
    let sw = s.map_values(|e: (IntegerVector2d, IntegerVector2d)| (e.1, e.0));
    if s.len() > 0 {
        lemma_side_keys_swap(s.drop_last(), y);
        assert(sw.drop_last() =~= s.drop_last().map_values(|e: (IntegerVector2d, IntegerVector2d)| (e.1, e.0)));
        let (p, q) = s.last();
        assert(sw.last() == (q, p));
        assert(side_key(q, p, y) == side_key(p, q, y));
    }
}

/// The sides of the reversed polygon are the sides of the polygon, swapped.
proof fn lemma_reversed_sides(pts: Seq<IntegerVector2d>, y: int)
    requires
        pts.len() >= 1,
    ensures
        side_keys(sides(pts.reverse()), y) == side_keys(sides(pts), y),
{
    let n = pts.len() as int;
    let s = sides(pts);
    let head = s.take(n - 1);
    let x = seq![s[n - 1]];
    let t = (head.reverse() + x).map_values(|e: (IntegerVector2d, IntegerVector2d)| (e.1, e.0));
    assert(sides(pts.reverse()) =~= t) by {
        assert forall|k: int| 0 <= k < n implies sides(pts.reverse())[k] == t[k] by {
            if k < n - 1 {
                assert(head.reverse()[k] == s[n - 2 - k]);
            }
        }
    }
    lemma_side_keys_swap(head.reverse() + x, y);
    lemma_side_keys_add(head.reverse(), x, y);
    lemma_side_keys_reverse(head, y);
    lemma_side_keys_add(head, x, y);
    assert(head + x =~= s);
}

/// Edges of an edge table past its first `k` do not change the crossings
/// among those `k`.
proof fn lemma_active_entries_prefix(et: Seq<EdgeTableEntry>, e: EdgeTableEntry, y: int, k: int)
    requires
        0 <= k <= et.len(),
    ensures
        active_entries(et.push(e), y, k) == active_entries(et, y, k),
    decreases k,
{
    if k > 0 {
        lemma_active_entries_prefix(et, e, y, k - 1);
    }
}

/// The keys of the crossings of the first `k` vertices' edges are the keys
/// of the first `k` sides.
proof fn lemma_edges_keys(pts: Seq<IntegerVector2d>, y: int, k: int)
    requires
        non_negative(pts),
        0 <= k <= pts.len(),
    ensures
        ({
            let et = polygon_edges(pts, k);
            keys(active_entries(et, y, et.len() as int)).to_multiset() == side_keys(sides(pts).take(k), y)
        }),
    decreases k,
{
    if k == 0 {
        assert(keys(active_entries(polygon_edges(pts, 0), y, 0)) =~= Seq::<int>::empty());
        assert(sides(pts).take(0) =~= Seq::<(IntegerVector2d, IntegerVector2d)>::empty());
    } else {
        let i = k - 1;
        lemma_edges_keys(pts, y, i);
        let prev = polygon_edges(pts, i);
        let j = next_vertex(i, pts.len() as int);
        assert(sides(pts).take(k).drop_last() =~= sides(pts).take(i));
        assert(sides(pts).take(k).last() == (pts[i], pts[j]));
        if pts[i].y != pts[j].y {
            let e = edge_from(pts[i], pts[j], i as usize);
            lemma_active_entries_prefix(prev, e, y, prev.len() as int);
            assert(polygon_edges(pts, k) == prev.push(e));
            assert(prev.push(e)[prev.len() as int] == e);
            let a0 = active_entries(prev, y, prev.len() as int);
            if e.is_active_at(y) {
                assert(active_entries(prev.push(e), y, prev.len() as int + 1) == a0.push(entry_at(e, y)));
                assert(keys(a0.push(entry_at(e, y))) =~= keys(a0).push(crossing_key(entry_at(e, y))));
                assert(entry_at(e, y).x_num == entry_at(edge_from(pts[i], pts[j], 0), y).x_num);
            } else {
                assert(active_entries(prev.push(e), y, prev.len() as int + 1) == a0);
            }
        }
    }
}

/// Filling a polygon and filling it with its vertices in reverse order give
/// spans over the same pixels: on every scanline `y`, the crossings that a
/// fill step leaves sorted in the active edge table (`a` for the polygon,
/// `b` for its reverse) bound spans with the same ends.
pub proof fn lemma_fill_independent_of_orientation(
    pts: Seq<IntegerVector2d>,
    y: int,
    a: Seq<ActiveEdgeTableEntry>,
    b: Seq<ActiveEdgeTableEntry>,
)
    requires
        non_negative(pts),
        sorted_by_x(a),
        sorted_by_x(b),
        forall|i: int| 0 <= i < a.len() ==> entry_wf(#[trigger] a[i]),
        forall|i: int| 0 <= i < b.len() ==> entry_wf(#[trigger] b[i]),
        a.to_multiset() == active_entries(
            polygon_edges(pts, pts.len() as int),
            y,
            polygon_edges(pts, pts.len() as int).len() as int,
        ).to_multiset(),
        b.to_multiset() == active_entries(
            polygon_edges(pts.reverse(), pts.len() as int),
            y,
            polygon_edges(pts.reverse(), pts.len() as int).len() as int,
        ).to_multiset(),
    ensures
        a.len() == b.len(),
        forall|i: int|
            0 <= i < a.len() / 2 ==> {
                &&& (#[trigger] span_of(a[2 * i], a[2 * i + 1], y)).x_start == span_of(b[2 * i], b[2 * i + 1], y).x_start
                &&& span_of(a[2 * i], a[2 * i + 1], y).x_end == span_of(b[2 * i], b[2 * i + 1], y).x_end
            },
{
    let n = pts.len() as int;
    let q = pts.reverse();
    assert(non_negative(q)) by {
        assert forall|i: int| 0 <= i < q.len() implies 0 <= #[trigger] q[i].x && 0 <= q[i].y by {
            assert(q[i] == pts[n - 1 - i]);
        }
    }
    let ea = polygon_edges(pts, n);
    let eb = polygon_edges(q, n);
    lemma_keys_multiset(a, active_entries(ea, y, ea.len() as int));
    lemma_keys_multiset(b, active_entries(eb, y, eb.len() as int));
    lemma_edges_keys(pts, y, n);
    lemma_edges_keys(q, y, n);
    assert(sides(pts).take(n) =~= sides(pts));
    assert(sides(q).take(n) =~= sides(q));
    if n >= 1 {
        lemma_reversed_sides(pts, y);
    } else {
        assert(sides(q) =~= sides(pts));
    }
    let ka = keys(a);
    let kb = keys(b);
    assert(ka.to_multiset() == kb.to_multiset());
    let leq = |u: int, v: int| u <= v;
    assert(total_ordering(leq));
    assert(sorted_by(ka, leq)) by {
        assert forall|i: int, j: int| 0 <= i < j < ka.len() implies #[trigger] leq(ka[i], ka[j]) by {
            lemma_key_monotone(a[i], a[j]);
        }
    }
    assert(sorted_by(kb, leq)) by {
        assert forall|i: int, j: int| 0 <= i < j < kb.len() implies #[trigger] leq(kb[i], kb[j]) by {
            lemma_key_monotone(b[i], b[j]);
        }
    }
    lemma_sorted_unique(ka, kb, leq);
    assert(a.len() == ka.len() && b.len() == kb.len());
    assert forall|i: int| 0 <= i < a.len() / 2 implies {
        &&& (#[trigger] span_of(a[2 * i], a[2 * i + 1], y)).x_start == span_of(b[2 * i], b[2 * i + 1], y).x_start
        &&& span_of(a[2 * i], a[2 * i + 1], y).x_end == span_of(b[2 * i], b[2 * i + 1], y).x_end
    } by {
        lemma_span_by_keys(a[2 * i], a[2 * i + 1], y);
        lemma_span_by_keys(b[2 * i], b[2 * i + 1], y);
        assert(ka[2 * i] == kb[2 * i] && ka[2 * i + 1] == kb[2 * i + 1]);
    }
}

} // verus!
