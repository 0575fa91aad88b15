//! Convex-hull ordering of polygon vertices.
use vstd::prelude::*;
use crate::encoding::{all_on_grid, on_grid, orientation, turn, Point};

verus! {

/// Every cyclically consecutive triple turns strictly left.
pub open spec fn left_turning(s: Seq<Point>) -> bool {
    forall|i: int|
        0 <= i < s.len() ==> #[trigger] turn(s[i], s[(i + 1) % s.len() as int], s[(i + 2) % s.len() as int]) > 0
}

/// Every element of `s` occurs in `t`.
pub open spec fn drawn_from(s: Seq<Point>, t: Seq<Point>) -> bool {
    forall|i: int| 0 <= i < s.len() ==> t.contains(#[trigger] s[i])
}

/// `u` precedes `v` by `x`, then by `y`.
pub fn before(u: &Point, v: &Point) -> (r: bool)
    ensures
        r == (u.x < v.x || (u.x == v.x && u.y < v.y)),
{
    u.x < v.x || (u.x == v.x && u.y < v.y)
}

/// Sort by `x`, then `y` (insertion sort).
fn sort_points(v: &mut Vec<Point>)
    ensures
        final(v).len() == old(v).len(),
        drawn_from(final(v)@, old(v)@),
{
    let n = v.len();
    let ghost orig = v@;
    let mut i: usize = 1;
    while i < n
        invariant
            n == v.len(),
            drawn_from(v@, orig),
        decreases n - i,
    {
        let mut j = i;
        while j > 0 && before(&v[j], &v[j - 1])
            invariant
                n == v.len(),
                j <= i < n,
                drawn_from(v@, orig),
            decreases j,
        {
            let t = v[j];
            let u = v[j - 1];
            let ghost pre = v@;
            v.set(j, u);
            v.set(j - 1, t);
            assert forall|k: int| 0 <= k < v@.len() implies orig.contains(#[trigger] v@[k]) by {
                if k == j as int {
                    assert(pre[j - 1] == u);
                } else if k == j - 1 {
                    assert(pre[j as int] == t);
                } else {
                    assert(v@[k] == pre[k]);
                }
            }
            j -= 1;
        }
        i += 1;
    }
}

/// Some three points of `s` do not lie on one line.
pub open spec fn has_corner(s: Seq<Point>) -> bool {
    exists|i: int, j: int, k: int|
        0 <= i < s.len() && 0 <= j < s.len() && 0 <= k < s.len() && #[trigger] turn(s[i], s[j], s[k]) != 0
}

proof fn lemma_turn_symmetry(a: Point, b: Point, c: Point)
    ensures
        turn(a, b, c) == turn(b, c, a),
        turn(a, b, c) == turn(c, a, b),
        turn(a, c, b) == -turn(a, b, c),
{
    assert(turn(a, b, c) == turn(b, c, a)) by (nonlinear_arith);
    assert(turn(a, b, c) == turn(c, a, b)) by (nonlinear_arith);
    assert(turn(a, c, b) == -turn(a, b, c)) by (nonlinear_arith);
}

/// Order `vertices` as a counter-clockwise convex hull (monotone chain),
/// dropping points that are not strict corners. The result holds only input
/// points; it has three or more exactly when some three input points are
/// not collinear, and then every consecutive triple (wrapping around) turns
/// strictly left.
pub fn order_points(vertices: Vec<Point>) -> (r: Vec<Point>)
    requires
        all_on_grid(vertices@),
    ensures
        drawn_from(r@, vertices@),
        all_on_grid(r@),
        r.len() >= 3 ==> left_turning(r@),
        r.len() >= 3 <==> has_corner(vertices@),
        r@.no_duplicates(),
        r.len() <= vertices.len(),
        vertices.len() >= 1 ==> r.len() >= 1,
{
    let ghost input = vertices@;
    let hull = monotone_chain(vertices.clone());
    assert(vertices@ =~= input);
    proof { lemma_distinct_len(hull@, input); }
    if hull.len() >= 3 {
        proof {
            let (a, b, c) = (hull@[0], hull@[1], hull@[2]);
            let len = hull.len() as int;
            vstd::arithmetic::div_mod::lemma_small_mod(1, len as nat);
            vstd::arithmetic::div_mod::lemma_small_mod(2, len as nat);
            assert(turn(hull@[0int], hull@[(0int + 1) % len], hull@[(0int + 2) % len]) > 0);
            assert(input.contains(a) && input.contains(b) && input.contains(c));
            let i = choose|i: int| 0 <= i < input.len() && input[i] == a;
            let j = choose|j: int| 0 <= j < input.len() && input[j] == b;
            let k = choose|k: int| 0 <= k < input.len() && input[k] == c;
            assert(turn(input[i], input[j], input[k]) != 0);
        }
        return hull;
    }
    // The chain can only come out short for collinear input; should it not,
    // any non-collinear triple of the input is a valid hull.
    let n = vertices.len();
    let mut i: usize = 0;
    while i < n
        invariant
            n == vertices.len(),
            vertices@ == input,
            all_on_grid(input),
            i <= n,
            forall|a: int, b: int, c: int|
                0 <= a < i && 0 <= b < n && 0 <= c < n ==> #[trigger] turn(input[a], input[b], input[c]) == 0,
        decreases n - i,
    {
        let mut j: usize = 0;
        while j < n
            invariant
                n == vertices.len(),
                vertices@ == input,
                all_on_grid(input),
                i < n,
                j <= n,
                forall|a: int, b: int, c: int|
                    0 <= a < i && 0 <= b < n && 0 <= c < n ==> #[trigger] turn(input[a], input[b], input[c]) == 0,
                forall|b: int, c: int| 0 <= b < j && 0 <= c < n ==> #[trigger] turn(input[i as int], input[b], input[c]) == 0,
            decreases n - j,
        {
            let mut k: usize = 0;
            while k < n
                invariant
                    n == vertices.len(),
                    vertices@ == input,
                    all_on_grid(input),
                    i < n,
                    j < n,
                    k <= n,
                    forall|a: int, b: int, c: int|
                        0 <= a < i && 0 <= b < n && 0 <= c < n ==> #[trigger] turn(input[a], input[b], input[c]) == 0,
                    forall|b: int, c: int| 0 <= b < j && 0 <= c < n ==> #[trigger] turn(input[i as int], input[b], input[c]) == 0,
                    forall|c: int| 0 <= c < k ==> #[trigger] turn(input[i as int], input[j as int], input[c]) == 0,
                decreases n - k,
            {
                let (a, b, c) = (vertices[i], vertices[j], vertices[k]);
                assert(on_grid(input[i as int]) && on_grid(input[j as int]) && on_grid(input[k as int]));
                let t = orientation(&a, &b, &c);
                if t != 0 {
                    let tri = if t > 0 { vec![a, b, c] } else { vec![a, c, b] };
                    proof {
                        lemma_turn_symmetry(a, b, c);
                        lemma_turn_symmetry(tri@[0], tri@[1], tri@[2]);
                        assert(input.contains(a) && input.contains(b) && input.contains(c));
                        assert forall|q: int| 0 <= q < 3 implies #[trigger] turn(tri@[q], tri@[(q + 1) % 3], tri@[(q + 2) % 3]) > 0 by {
                            if q == 1 {
                                assert((1int + 1) % 3 == 2 && (1int + 2) % 3 == 0);
                            } else if q == 2 {
                                assert((2int + 1) % 3 == 0 && (2int + 2) % 3 == 1);
                            }
                        }
                        assert(has_corner(input));
                        lemma_turn_distinct(a, b, c);
                        assert(tri@.no_duplicates());
                        lemma_distinct_len(tri@, input);
                    }
                    return tri;
                }
                k += 1;
            }
            j += 1;
        }
        i += 1;
    }
    hull
}

/// Three points that turn are pairwise distinct.
proof fn lemma_turn_distinct(a: Point, b: Point, c: Point)
    requires
        turn(a, b, c) != 0,
    ensures
        a != b,
        b != c,
        a != c,
{
    if a == b {
        assert(turn(a, b, c) == 0) by (nonlinear_arith) requires a == b;
    }
    if b == c {
        assert(turn(a, b, c) == 0) by (nonlinear_arith) requires b == c;
    }
    if a == c {
        assert(turn(a, b, c) == 0) by (nonlinear_arith) requires a == c;
    }
}

/// Distinct points drawn from `t` are no more than `t` has.
proof fn lemma_distinct_len(s: Seq<Point>, t: Seq<Point>)
    requires
        s.no_duplicates(),
        drawn_from(s, t),
    ensures
        s.len() <= t.len(),
{
    s.unique_seq_to_set();
    t.lemma_cardinality_of_set();
    assert(s.to_set().subset_of(t.to_set())) by {
        assert forall|p: Point| s.to_set().contains(p) implies t.to_set().contains(p) by {
            let i = choose|i: int| 0 <= i < s.len() && s[i] == p;
            assert(t.contains(s[i]));
        }
    }
    vstd::set_lib::lemma_len_subset(s.to_set(), t.to_set());
}

/// Andrew's monotone chain, followed by `convexify`.
fn monotone_chain(vertices: Vec<Point>) -> (r: Vec<Point>)
    requires
        all_on_grid(vertices@),
    ensures
        drawn_from(r@, vertices@),
        all_on_grid(r@),
        r.len() >= 3 ==> left_turning(r@),
        r@.no_duplicates(),
        vertices.len() >= 1 ==> r.len() >= 1,
{
    let mut pts = vertices;
    let ghost orig = pts@;
    sort_points(&mut pts);
    let n = pts.len();
    if n == 0 {
        return Vec::new();
    }
    let mut hull: Vec<Point> = Vec::new();
    // lower chain
    let mut i: usize = 0;
    while i < n
        invariant
            n == pts.len(),
            i <= n,
            drawn_from(pts@, orig),
            all_on_grid(orig),
            drawn_from(hull@, orig),
            hull.len() <= i,
            i > 0 ==> hull.len() >= 1,
        decreases n - i,
    {
        proof { lemma_drawn_on_grid(pts@, orig); lemma_drawn_on_grid(hull@, orig); }
        while hull.len() >= 2
            && orientation(&hull[hull.len() - 2], &hull[hull.len() - 1], &pts[i]) <= 0
            invariant
                n == pts.len(),
                i < n,
                drawn_from(pts@, orig),
                all_on_grid(orig),
                all_on_grid(pts@),
                all_on_grid(hull@),
                drawn_from(hull@, orig),
                hull.len() <= i,
                i > 0 ==> hull.len() >= 1,
            decreases hull.len(),
        {
            hull.pop();
        }
        hull.push(pts[i]);
        i += 1;
    }
    // upper chain
    let lower = hull.len();
    let mut k: usize = n - 1;
    while k > 0
        invariant
            n == pts.len(),
            k < n,
            drawn_from(pts@, orig),
            all_on_grid(orig),
            drawn_from(hull@, orig),
            hull.len() <= 2 * n - k,
            hull.len() >= 1,
        decreases k,
    {
        let i = k - 1;
        proof { lemma_drawn_on_grid(pts@, orig); lemma_drawn_on_grid(hull@, orig); }
        while hull.len() > lower && hull.len() >= 2
            && orientation(&hull[hull.len() - 2], &hull[hull.len() - 1], &pts[i]) <= 0
            invariant
                n == pts.len(),
                i < n,
                drawn_from(pts@, orig),
                all_on_grid(orig),
                all_on_grid(pts@),
                all_on_grid(hull@),
                drawn_from(hull@, orig),
                hull.len() <= 2 * n - k,
                hull.len() >= 1,
            decreases hull.len(),
        {
            hull.pop();
        }
        hull.push(pts[i]);
        k -= 1;
    }
    // the chain closed on its first point
    if hull.len() > 1 {
        hull.pop();
    }
    proof { lemma_drawn_on_grid(hull@, orig); }
    let mut hull = dedup(hull);
    proof { lemma_drawn_on_grid(hull@, orig); }
    let ghost before = hull@;
    convexify(&mut hull);
    proof { lemma_drawn_trans(hull@, before, orig); }
    hull
}

proof fn lemma_drawn_trans(a: Seq<Point>, b: Seq<Point>, c: Seq<Point>)
    requires
        drawn_from(a, b),
        drawn_from(b, c),
    ensures
        drawn_from(a, c),
{
    assert forall|i: int| 0 <= i < a.len() implies c.contains(#[trigger] a[i]) by {
        let j = choose|j: int| 0 <= j < b.len() && b[j] == a[i];
        assert(c.contains(b[j]));
    }
}

/// `v` without repeated points, first occurrences kept in order.
fn dedup(v: Vec<Point>) -> (r: Vec<Point>)
    ensures
        r@.no_duplicates(),
        drawn_from(r@, v@),
        v.len() >= 1 ==> r.len() >= 1,
{
    let mut r: Vec<Point> = Vec::new();
    let mut i: usize = 0;
    while i < v.len()
        invariant
            i <= v.len(),
            r@.no_duplicates(),
            drawn_from(r@, v@),
            i > 0 ==> r.len() >= 1,
        decreases v.len() - i,
    {
        let p = v[i];
        let mut seen = false;
        let mut j: usize = 0;
        while j < r.len()
            invariant
                j <= r.len(),
                seen ==> r@.contains(p),
                !seen ==> forall|q: int| 0 <= q < j ==> r@[q] != p,
            decreases r.len() - j,
        {
            if r[j] == p {
                seen = true;
            }
            j += 1;
        }
        if !seen {
            let ghost pre = r@;
            r.push(p);
            assert forall|a: int| 0 <= a < r@.len() implies v@.contains(#[trigger] r@[a]) by {
                if a < pre.len() {
                    assert(r@[a] == pre[a]);
                } else {
                    assert(v@[i as int] == p);
                }
            }
        }
        i += 1;
    }
    r
}

proof fn lemma_drawn_on_grid(s: Seq<Point>, t: Seq<Point>)
    requires
        drawn_from(s, t),
        all_on_grid(t),
    ensures
        all_on_grid(s),
{
    assert forall|i: int| 0 <= i < s.len() implies #[trigger] on_grid(s[i]) by {
        assert(t.contains(s[i]));
    }
}

/// Remove points until every cyclic triple turns strictly left or fewer
/// than three points remain.
fn convexify(h: &mut Vec<Point>)
    requires
        all_on_grid(old(h)@),
        old(h)@.no_duplicates(),
    ensures
        drawn_from(final(h)@, old(h)@),
        all_on_grid(final(h)@),
        final(h).len() <= old(h).len(),
        final(h).len() >= 3 ==> left_turning(final(h)@),
        final(h)@.no_duplicates(),
        old(h).len() >= 1 ==> final(h).len() >= 1,
{
    let ghost orig = h@;
    assert(drawn_from(h@, orig)) by {
        assert forall|i: int| 0 <= i < h@.len() implies orig.contains(#[trigger] h@[i]) by {
            assert(orig[i] == h@[i]);
        }
    }
    loop
        invariant
            drawn_from(h@, orig),
            all_on_grid(orig),
            all_on_grid(h@),
            h.len() <= orig.len(),
            h@.no_duplicates(),
            orig.len() >= 1 ==> h.len() >= 1,
        ensures
            drawn_from(h@, orig),
            all_on_grid(h@),
            h.len() <= orig.len(),
            h.len() >= 3 ==> left_turning(h@),
            h@.no_duplicates(),
            orig.len() >= 1 ==> h.len() >= 1,
        decreases h.len(),
    {
        let n = h.len();
        if n < 3 {
            break;
        }
        let mut bad: usize = n;
        let mut i: usize = 0;
        while i < n
            invariant_except_break
                bad == n,
            invariant
                n == h.len(),
                n >= 3,
                i <= n,
                all_on_grid(h@),
                forall|j: int|
                    0 <= j < i ==> #[trigger] turn(h@[j], h@[(j + 1) % n as int], h@[(j + 2) % n as int]) > 0,
            ensures
                bad == n ==> i == n,
                bad <= n,
            decreases n - i,
        {
            let i1 = if i + 1 >= n { i + 1 - n } else { i + 1 };
            let i2 = if i >= n - 2 { i - (n - 2) } else { i + 2 };
            proof {
                lemma_wrap(i as int, 1, n as int);
                lemma_wrap(i as int, 2, n as int);
            }
            assert(on_grid(h@[i as int]) && on_grid(h@[i1 as int]) && on_grid(h@[i2 as int]));
            if orientation(&h[i], &h[i1], &h[i2]) <= 0 {
                bad = i1;
                break;
            }
            i += 1;
        }
        if bad == n {
            assert(left_turning(h@));
            break;
        }
        let ghost pre = h@;
        h.remove(bad);
        assert forall|j: int| 0 <= j < h@.len() implies orig.contains(#[trigger] h@[j]) by {
            if j < bad {
                assert(h@[j] == pre[j]);
            } else {
                assert(h@[j] == pre[j + 1]);
            }
            assert(orig.contains(pre[if j < bad { j } else { j + 1 }]));
        }
        assert forall|a: int, b: int| 0 <= a < h@.len() && 0 <= b < h@.len() && a != b implies h@[a] != h@[b] by {
            let aa = if a < bad { a } else { a + 1 };
            let bb = if b < bad { b } else { b + 1 };
            assert(h@[a] == pre[aa] && h@[b] == pre[bb]);
        }
        proof { lemma_drawn_on_grid(h@, orig); }
    }
}

proof fn lemma_wrap(i: int, k: int, n: int)
    requires
        0 <= i < n,
        0 <= k < n,
    ensures
        (i + k) % n == if i + k >= n { i + k - n } else { i + k },
{
    if i + k >= n {
        vstd::arithmetic::div_mod::lemma_fundamental_div_mod_converse(i + k, n, 1, i + k - n);
    } else {
        vstd::arithmetic::div_mod::lemma_small_mod((i + k) as nat, n as nat);
    }
}

} // verus!
