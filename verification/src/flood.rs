//! Breadth-first flooding of a square grid from a set of seed pixels, and the proof
//! that every pixel is reached from a nearest seed.
use vstd::arithmetic::div_mod::*;
use vstd::prelude::*;
use vstd::set_lib::*;

verus! {

/// Row and column of a pixel.
pub type Pixel = (int, int);

/// The pixel lies in the grid.
pub open spec fn in_grid(p: Pixel, side: nat) -> bool {
    0 <= p.0 < side && 0 <= p.1 < side
}

pub open spec fn abs_diff(a: int, b: int) -> int {
    if a <= b {
        b - a
    } else {
        a - b
    }
}

/// Steps between two pixels along rows and columns.
pub open spec fn dist(a: Pixel, b: Pixel) -> int {
    abs_diff(a.0, b.0) + abs_diff(a.1, b.1)
}

/// Progress of a flooding: the pixels still to expand, and for each reached pixel the
/// seed that it was reached from.
pub struct Flood {
    pub queue: Seq<Pixel>,
    pub source: Map<Pixel, Pixel>,
}

/// Reach `n` from `seed`, unless it lies outside or was reached before.
pub open spec fn offer(st: Flood, n: Pixel, seed: Pixel, side: nat) -> Flood {
    if in_grid(n, side) && !st.source.contains_key(n) {
        Flood { queue: st.queue.push(n), source: st.source.insert(n, seed) }
    } else {
        st
    }
}

/// Expand the first pixel of the queue: up, down, left, right.
pub open spec fn flood_step(st: Flood, side: nat) -> Flood {
    let p = st.queue[0];
    let seed = st.source[p];
    let s0 = Flood { queue: st.queue.drop_first(), source: st.source };
    let s1 = offer(s0, (p.0 - 1, p.1), seed, side);
    let s2 = offer(s1, (p.0 + 1, p.1), seed, side);
    let s3 = offer(s2, (p.0, p.1 - 1), seed, side);
    offer(s3, (p.0, p.1 + 1), seed, side)
}

/// Position of a pixel in row-major order.
pub open spec fn code(p: Pixel, side: nat) -> int {
    p.0 * side + p.1
}

/// The pixel at a row-major position.
pub open spec fn pixel_at(k: int, side: nat) -> Pixel {
    (k / side as int, k % side as int)
}

/// Positions of the pixels that have not been reached.
pub open spec fn not_reached(source: Map<Pixel, Pixel>, side: nat) -> Set<int> {
    set_int_range(0, (side * side) as int).filter(|k: int| !source.contains_key(pixel_at(k, side)))
}

pub proof fn lemma_code(p: Pixel, side: nat)
    requires
        in_grid(p, side),
    ensures
        0 <= code(p, side) < side * side,
        pixel_at(code(p, side), side) == p,
{
    lemma_fundamental_div_mod_converse(code(p, side), side as int, p.0, p.1);
    assert(p.0 * side + p.1 < side * side) by (nonlinear_arith)
        requires
            0 <= p.0 < side,
            0 <= p.1 < side,
    ;
    assert(0 <= p.0 * side) by (nonlinear_arith)
        requires
            0 <= p.0,
            0 <= side,
    ;
}

pub proof fn lemma_pixel_at(k: int, side: nat)
    requires
        0 <= k < side * side,
    ensures
        in_grid(pixel_at(k, side), side),
        code(pixel_at(k, side), side) == k,
{
    assert(side > 0) by (nonlinear_arith)
        requires
            0 <= k < side * side,
    ;
    lemma_fundamental_div_mod(k, side as int);
    lemma_mod_bound(k, side as int);
    let q = k / side as int;
    assert(side * q == q * side) by (nonlinear_arith);
    assert(0 <= q < side) by (nonlinear_arith)
        requires
            k == side * q + k % side as int,
            0 <= k % (side as int) < side,
            0 <= k < side * side,
    ;
}

pub proof fn lemma_unreached_finite(source: Map<Pixel, Pixel>, side: nat)
    ensures
        not_reached(source, side).finite(),
{
    assert(0 <= side * side) by (nonlinear_arith);
    lemma_int_range(0, (side * side) as int);
    set_int_range(0, (side * side) as int).lemma_len_filter(
        |k: int| !source.contains_key(pixel_at(k, side)),
    );
}

/// Reaching a new pixel leaves one pixel fewer not_reached.
pub proof fn lemma_reach(source: Map<Pixel, Pixel>, n: Pixel, seed: Pixel, side: nat)
    requires
        in_grid(n, side),
        !source.contains_key(n),
    ensures
        not_reached(source.insert(n, seed), side).len() + 1 == not_reached(source, side).len(),
{
    let before = not_reached(source, side);
    let after = not_reached(source.insert(n, seed), side);
    let k = code(n, side);
    lemma_code(n, side);
    lemma_unreached_finite(source, side);
    assert(before.contains(k));
    assert(after =~= before.remove(k)) by {
        assert forall|j: int| after.contains(j) == before.remove(k).contains(j) by {
            if 0 <= j < side * side {
                lemma_pixel_at(j, side);
            }
        }
    }
}

pub proof fn lemma_offer_measure(st: Flood, n: Pixel, seed: Pixel, side: nat)
    ensures
        ({
            let t = offer(st, n, seed, side);
            let a = not_reached(st.source, side).len();
            let b = not_reached(t.source, side).len();
            ||| b < a
            ||| b == a && t.queue.len() == st.queue.len()
        }),
{
    if in_grid(n, side) && !st.source.contains_key(n) {
        lemma_reach(st.source, n, seed, side);
    }
}

/// A step reaches new pixels or shortens the queue.
pub proof fn lemma_step_measure(st: Flood, side: nat)
    requires
        st.queue.len() > 0,
    ensures
        ({
            let t = flood_step(st, side);
            let a = not_reached(st.source, side).len();
            let b = not_reached(t.source, side).len();
            ||| b < a
            ||| b == a && t.queue.len() < st.queue.len()
        }),
{
    let p = st.queue[0];
    let seed = st.source[p];
    let s0 = Flood { queue: st.queue.drop_first(), source: st.source };
    let s1 = offer(s0, (p.0 - 1, p.1), seed, side);
    let s2 = offer(s1, (p.0 + 1, p.1), seed, side);
    let s3 = offer(s2, (p.0, p.1 - 1), seed, side);
    lemma_offer_measure(s0, (p.0 - 1, p.1), seed, side);
    lemma_offer_measure(s1, (p.0 + 1, p.1), seed, side);
    lemma_offer_measure(s2, (p.0, p.1 - 1), seed, side);
    lemma_offer_measure(s3, (p.0, p.1 + 1), seed, side);
}

/// Flood until nothing is left to expand.
pub open spec fn flood(st: Flood, side: nat) -> Flood
    decreases not_reached(st.source, side).len(), st.queue.len(),
{
    if st.queue.len() == 0 {
        st
    } else {
        proof {
            lemma_step_measure(st, side);
        }
        flood(flood_step(st, side), side)
    }
}

// ─── Nearest seeds ──────────────────────────────────────────────────────────

/// `s` is a seed that no other seed is closer to `p` than.
pub open spec fn nearest(p: Pixel, s: Pixel, seeds: Set<Pixel>) -> bool {
    seeds.contains(s) && forall|t: Pixel| #[trigger]
        seeds.contains(t) ==> dist(p, s) <= dist(p, t)
}

/// Distance at which a reached pixel was reached.
pub open spec fn level(st: Flood, p: Pixel) -> int {
    dist(p, st.source[p])
}

/// Each reached pixel comes from a nearest seed, and each seed from itself.
pub open spec fn sound(st: Flood, seeds: Set<Pixel>, side: nat) -> bool {
    &&& forall|s: Pixel| #[trigger]
        seeds.contains(s) ==> in_grid(s, side) && st.source.contains_key(s) && st.source[s] == s
    &&& forall|p: Pixel| #[trigger]
        st.source.contains_key(p) ==> in_grid(p, side) && nearest(p, st.source[p], seeds)
    &&& forall|i: int|
        0 <= i < st.queue.len() ==> st.source.contains_key(#[trigger] st.queue[i])
}

/// The grid neighbours of `p` have been reached.
pub open spec fn expanded(st: Flood, p: Pixel, side: nat) -> bool {
    forall|n: Pixel|
        #![trigger st.source.contains_key(n)]
        in_grid(n, side) && dist(p, n) == 1 ==> st.source.contains_key(n)
}

/// Pixels that left the queue are expanded, `current` aside.
pub open spec fn closed_but(st: Flood, current: Option<Pixel>, side: nat) -> bool {
    forall|p: Pixel| #[trigger]
        st.source.contains_key(p) && !st.queue.contains(p) && current != Some(p) ==> expanded(
            st,
            p,
            side,
        )
}

/// The queue is ordered by level and its levels lie within `lv` and `lv + 1`.
pub open spec fn ordered(st: Flood, lv: int) -> bool {
    &&& forall|i: int, j: int|
        0 <= i < j < st.queue.len() ==> level(st, #[trigger] st.queue[i]) <= level(
            st,
            #[trigger] st.queue[j],
        )
    &&& forall|i: int|
        0 <= i < st.queue.len() ==> lv <= level(st, #[trigger] st.queue[i]) <= lv + 1
}

/// Every pixel within `lv` steps of a seed has been reached.
pub open spec fn complete_to(st: Flood, lv: int, seeds: Set<Pixel>, side: nat) -> bool {
    forall|x: Pixel, s: Pixel|
        #![trigger st.source.contains_key(x), seeds.contains(s)]
        in_grid(x, side) && seeds.contains(s) && dist(x, s) <= lv ==> st.source.contains_key(x)
}

/// What holds between two steps.
pub open spec fn flood_inv(st: Flood, seeds: Set<Pixel>, side: nat) -> bool {
    &&& sound(st, seeds, side)
    &&& closed_but(st, None, side)
    &&& st.queue.len() > 0 ==> ordered(st, level(st, st.queue[0]))
    &&& st.queue.len() > 0 ==> complete_to(st, level(st, st.queue[0]), seeds, side)
}

/// What holds while the pixel `p` is expanded.
pub open spec fn expanding(st: Flood, p: Pixel, seeds: Set<Pixel>, side: nat) -> bool {
    &&& st.source.contains_key(p)
    &&& sound(st, seeds, side)
    &&& closed_but(st, Some(p), side)
    &&& ordered(st, level(st, p))
    &&& complete_to(st, level(st, p), seeds, side)
}

proof fn lemma_offer_inv(st: Flood, p: Pixel, n: Pixel, seeds: Set<Pixel>, side: nat)
    requires
        expanding(st, p, seeds, side),
        dist(p, n) == 1,
    ensures
        ({
            let t = offer(st, n, st.source[p], side);
            &&& expanding(t, p, seeds, side)
            &&& t.source[p] == st.source[p]
            &&& in_grid(n, side) ==> t.source.contains_key(n)
            &&& forall|x: Pixel| #[trigger]
                st.source.contains_key(x) ==> t.source.contains_key(x)
        }),
{
    let seed = st.source[p];
    let t = offer(st, n, seed, side);
    if in_grid(n, side) && !st.source.contains_key(n) {
        let lv = level(st, p);
        assert(nearest(p, seed, seeds));
        assert(n != p);
        assert forall|s: Pixel| #[trigger] seeds.contains(s) implies dist(n, seed) <= dist(n, s) by {
            assert(!(dist(n, s) <= lv));
        }
        assert(seeds.contains(seed));
        assert(dist(n, seed) == lv + 1);
        assert(nearest(n, seed, seeds));
        assert forall|x: Pixel| #[trigger] t.source.contains_key(x) implies in_grid(x, side)
            && nearest(x, t.source[x], seeds) by {
            if x != n {
                assert(st.source.contains_key(x));
            }
        }
        assert forall|s: Pixel| #[trigger] seeds.contains(s) implies in_grid(s, side)
            && t.source.contains_key(s) && t.source[s] == s by {}
        assert forall|i: int| 0 <= i < t.queue.len() implies t.source.contains_key(
            #[trigger] t.queue[i],
        ) by {
            if i < st.queue.len() {
                assert(t.queue[i] == st.queue[i]);
            }
        }
        assert(sound(t, seeds, side));
        assert forall|x: Pixel| #[trigger]
            t.source.contains_key(x) && !t.queue.contains(x) && Some(p) != Some(x) implies expanded(
            t,
            x,
            side,
        ) by {
            assert(t.queue[t.queue.len() - 1] == n);
            assert(x != n);
            assert(st.source.contains_key(x));
            if st.queue.contains(x) {
                let i = choose|i: int| 0 <= i < st.queue.len() && st.queue[i] == x;
                assert(t.queue[i] == x);
            }
            assert(expanded(st, x, side));
        }
        assert(closed_but(t, Some(p), side));
        assert forall|i: int| 0 <= i < t.queue.len() implies lv <= level(t, #[trigger] t.queue[i])
            <= lv + 1 by {
            if i < st.queue.len() {
                assert(t.queue[i] == st.queue[i]);
                assert(st.source.contains_key(st.queue[i]));
            }
        }
        assert forall|i: int, j: int| 0 <= i < j < t.queue.len() implies level(
            t,
            #[trigger] t.queue[i],
        ) <= level(t, #[trigger] t.queue[j]) by {
            assert(t.queue[i] == st.queue[i]);
            assert(st.source.contains_key(st.queue[i]));
            if j < st.queue.len() {
                assert(t.queue[j] == st.queue[j]);
                assert(st.source.contains_key(st.queue[j]));
            } else {
                assert(t.queue[j] == n);
                assert(level(t, n) == lv + 1);
            }
        }
        assert(ordered(t, lv));
        assert(complete_to(t, lv, seeds, side)) by {
            assert forall|x: Pixel, s: Pixel|
                #![trigger t.source.contains_key(x), seeds.contains(s)]
                in_grid(x, side) && seeds.contains(s) && dist(x, s)
                    <= lv implies t.source.contains_key(x) by {
                assert(st.source.contains_key(x));
            }
        }
    }
}

/// One step from `x` towards another pixel `s`.
pub open spec fn towards(x: Pixel, s: Pixel) -> Pixel {
    if x.0 < s.0 {
        (x.0 + 1, x.1)
    } else if x.0 > s.0 {
        (x.0 - 1, x.1)
    } else if x.1 < s.1 {
        (x.0, x.1 + 1)
    } else {
        (x.0, x.1 - 1)
    }
}

/// A step starts by taking the first pixel out of the queue.
proof fn lemma_step_start(st: Flood, seeds: Set<Pixel>, side: nat)
    requires
        flood_inv(st, seeds, side),
        st.queue.len() > 0,
    ensures
        expanding(
            Flood { queue: st.queue.drop_first(), source: st.source },
            st.queue[0],
            seeds,
            side,
        ),
{
    let p = st.queue[0];
    assert(st.source.contains_key(p));
    let s0 = Flood { queue: st.queue.drop_first(), source: st.source };
    let lv = level(st, p);
    assert forall|x: Pixel| #[trigger]
        s0.source.contains_key(x) && !s0.queue.contains(x) && Some(p) != Some(x) implies expanded(
        s0,
        x,
        side,
    ) by {
        if st.queue.contains(x) {
            let i = choose|i: int| 0 <= i < st.queue.len() && st.queue[i] == x;
            assert(i > 0);
            assert(s0.queue[i - 1] == x);
        }
        assert(expanded(st, x, side));
    }
    assert forall|i: int| 0 <= i < s0.queue.len() implies lv <= level(s0, #[trigger] s0.queue[i])
        <= lv + 1 by {
        assert(s0.queue[i] == st.queue[i + 1]);
    }
    assert forall|i: int, j: int| 0 <= i < j < s0.queue.len() implies level(
        s0,
        #[trigger] s0.queue[i],
    ) <= level(s0, #[trigger] s0.queue[j]) by {
        assert(s0.queue[i] == st.queue[i + 1]);
        assert(s0.queue[j] == st.queue[j + 1]);
    }
    assert forall|i: int| 0 <= i < s0.queue.len() implies s0.source.contains_key(
        #[trigger] s0.queue[i],
    ) by {
        assert(s0.queue[i] == st.queue[i + 1]);
    }
}

/// A step keeps the invariant.
proof fn lemma_step_inv(st: Flood, seeds: Set<Pixel>, side: nat)
    requires
        flood_inv(st, seeds, side),
        st.queue.len() > 0,
    ensures
        flood_inv(flood_step(st, side), seeds, side),
{
    let p = st.queue[0];
    assert(st.source.contains_key(p));
    let seed = st.source[p];
    let s0 = Flood { queue: st.queue.drop_first(), source: st.source };
    let s1 = offer(s0, (p.0 - 1, p.1), seed, side);
    let s2 = offer(s1, (p.0 + 1, p.1), seed, side);
    let s3 = offer(s2, (p.0, p.1 - 1), seed, side);
    let s4 = offer(s3, (p.0, p.1 + 1), seed, side);
    let lv = level(st, p);
    assert(expanding(s0, p, seeds, side)) by {
        lemma_step_start(st, seeds, side);
    }
    lemma_offer_inv(s0, p, (p.0 - 1, p.1), seeds, side);
    lemma_offer_inv(s1, p, (p.0 + 1, p.1), seeds, side);
    lemma_offer_inv(s2, p, (p.0, p.1 - 1), seeds, side);
    lemma_offer_inv(s3, p, (p.0, p.1 + 1), seeds, side);
    assert(expanded(s4, p, side)) by {
        assert forall|n: Pixel|
            #![trigger s4.source.contains_key(n)]
            in_grid(n, side) && dist(p, n) == 1 implies s4.source.contains_key(n) by {
            assert(n == (p.0 - 1, p.1) || n == (p.0 + 1, p.1) || n == (p.0, p.1 - 1) || n == (
                p.0,
                p.1 + 1,
            ));
            assert(s1.source.contains_key(n) || s2.source.contains_key(n) || s3.source.contains_key(
                n,
            ) || s4.source.contains_key(n));
        }
    }
    assert(closed_but(s4, None, side));
    if s4.queue.len() > 0 {
        let q = s4.queue[0];
        let lq = level(s4, q);
        assert(lv <= lq <= lv + 1);
        assert(ordered(s4, lq)) by {
            assert forall|i: int| 0 <= i < s4.queue.len() implies lq <= level(
                s4,
                #[trigger] s4.queue[i],
            ) <= lq + 1 by {
                if i > 0 {
                    assert(level(s4, s4.queue[0]) <= level(s4, s4.queue[i]));
                }
            }
        }
        assert(complete_to(s4, lq, seeds, side)) by {
            if lq == lv + 1 {
                assert forall|x: Pixel, s: Pixel|
                    #![trigger s4.source.contains_key(x), seeds.contains(s)]
                    in_grid(x, side) && seeds.contains(s) && dist(x, s)
                        <= lq implies s4.source.contains_key(x) by {
                    if dist(x, s) == lq {
                        lemma_step_back(s4, x, s, lv, seeds, side);
                    }
                }
            }
        }
    }
}

/// A pixel one step beyond a complete level is reached once that level is expanded.
proof fn lemma_step_back(
    st: Flood,
    x: Pixel,
    s: Pixel,
    lv: int,
    seeds: Set<Pixel>,
    side: nat,
)
    requires
        sound(st, seeds, side),
        closed_but(st, None, side),
        complete_to(st, lv, seeds, side),
        lv >= 0,
        forall|i: int|
            0 <= i < st.queue.len() ==> level(st, #[trigger] st.queue[i]) > lv,
        in_grid(x, side),
        seeds.contains(s),
        dist(x, s) == lv + 1,
    ensures
        st.source.contains_key(x),
{
    let q = towards(x, s);
    assert(in_grid(s, side));
    assert(in_grid(q, side));
    assert(dist(q, s) == lv);
    assert(dist(q, x) == 1);
    assert(st.source.contains_key(q));
    assert(nearest(q, st.source[q], seeds));
    assert(level(st, q) <= lv);
    assert(!st.queue.contains(q));
    assert(expanded(st, q, side));
}

/// Flooding keeps the invariant and empties the queue.
proof fn lemma_flood_inv(st: Flood, seeds: Set<Pixel>, side: nat)
    requires
        flood_inv(st, seeds, side),
    ensures
        flood_inv(flood(st, side), seeds, side),
        flood(st, side).queue.len() == 0,
    decreases not_reached(st.source, side).len(), st.queue.len(),
{
    if st.queue.len() > 0 {
        lemma_step_measure(st, side);
        lemma_step_inv(st, seeds, side);
        lemma_flood_inv(flood_step(st, side), seeds, side);
    }
}

proof fn lemma_all_reached(st: Flood, x: Pixel, s: Pixel, seeds: Set<Pixel>, side: nat)
    requires
        flood_inv(st, seeds, side),
        st.queue.len() == 0,
        in_grid(x, side),
        seeds.contains(s),
    ensures
        st.source.contains_key(x),
    decreases dist(x, s),
{
    if dist(x, s) > 0 {
        let q = towards(x, s);
        assert(in_grid(s, side));
        lemma_all_reached(st, q, s, seeds, side);
        assert(dist(q, x) == 1);
        assert(!st.queue.contains(q));
        assert(expanded(st, q, side));
    } else {
        assert(x == s);
    }
}

/// Start of a flooding: the seeds, queued in some order, each reached from itself.
pub open spec fn starts_from(st: Flood, seeds: Set<Pixel>, side: nat) -> bool {
    &&& forall|s: Pixel| #[trigger] seeds.contains(s) ==> in_grid(s, side) && st.queue.contains(s)
    &&& forall|p: Pixel| #[trigger] st.source.contains_key(p) <==> seeds.contains(p)
    &&& forall|p: Pixel| seeds.contains(p) ==> #[trigger] st.source[p] == p
    &&& forall|i: int| 0 <= i < st.queue.len() ==> seeds.contains(#[trigger] st.queue[i])
}

/// The invariant holds at the start.
proof fn lemma_start_inv(st: Flood, seeds: Set<Pixel>, side: nat)
    requires
        starts_from(st, seeds, side),
    ensures
        flood_inv(st, seeds, side),
{
    assert forall|p: Pixel| #[trigger] st.source.contains_key(p) implies in_grid(p, side)
        && nearest(p, st.source[p], seeds) by {
        assert(seeds.contains(p));
        assert(st.source[p] == p);
    }
    assert forall|p: Pixel| #[trigger] st.source.contains_key(p) && !st.queue.contains(p)
        && None::<Pixel> != Some(p) implies expanded(st, p, side) by {
        assert(seeds.contains(p));
    }
    if st.queue.len() > 0 {
        assert forall|i: int| 0 <= i < st.queue.len() implies level(st, #[trigger] st.queue[i])
            == 0 by {
            assert(seeds.contains(st.queue[i]));
            assert(st.source[st.queue[i]] == st.queue[i]);
        }
        assert(level(st, st.queue[0]) == 0);
        assert forall|x: Pixel, s: Pixel|
            #![trigger st.source.contains_key(x), seeds.contains(s)]
            in_grid(x, side) && seeds.contains(s) && dist(x, s)
                <= 0 implies st.source.contains_key(x) by {
            assert(x == s);
        }
    }
}

/// Flooding reaches every pixel of the grid where there is a seed at all, each pixel
/// from a nearest seed and each seed from itself, and reaches nothing outside.
pub proof fn flood_reaches_nearest(st: Flood, seeds: Set<Pixel>, side: nat)
    requires
        starts_from(st, seeds, side),
    ensures
        ({
            let f = flood(st, side);
            &&& forall|p: Pixel| #[trigger]
                f.source.contains_key(p) <==> in_grid(p, side) && exists|s: Pixel|
                    seeds.contains(s)
            &&& forall|p: Pixel| #[trigger]
                f.source.contains_key(p) ==> nearest(p, f.source[p], seeds)
            &&& forall|s: Pixel| #[trigger] seeds.contains(s) ==> f.source[s] == s
        }),
{
    lemma_start_inv(st, seeds, side);
    lemma_flood_inv(st, seeds, side);
    let f = flood(st, side);
    assert forall|p: Pixel| #[trigger] f.source.contains_key(p) <==> in_grid(p, side) && exists|
        s: Pixel,
    |
        seeds.contains(s) by {
        if f.source.contains_key(p) {
            assert(seeds.contains(f.source[p]));
        }
        if in_grid(p, side) && exists|s: Pixel| seeds.contains(s) {
            let s = choose|s: Pixel| seeds.contains(s);
            lemma_all_reached(f, p, s, seeds, side);
        }
    }
}

/// Where everything has been reached, flooding changes no source.
pub proof fn lemma_flood_full(st: Flood, side: nat)
    requires
        forall|p: Pixel| in_grid(p, side) ==> #[trigger] st.source.contains_key(p),
    ensures
        flood(st, side).source == st.source,
    decreases not_reached(st.source, side).len(), st.queue.len(),
{
    if st.queue.len() > 0 {
        lemma_step_measure(st, side);
        lemma_flood_full(flood_step(st, side), side);
    }
}

// ─── First of the nearest seeds ─────────────────────────────────────────────

/// A pixel is another one or comes before it row by row.
pub open spec fn not_after(a: Pixel, b: Pixel) -> bool {
    a.0 < b.0 || (a.0 == b.0 && a.1 <= b.1)
}

/// `s` is, row by row, the first of the seeds that are nearest to `p`.
pub open spec fn first_nearest(p: Pixel, s: Pixel, seeds: Set<Pixel>) -> bool {
    &&& nearest(p, s, seeds)
    &&& forall|t: Pixel| #[trigger]
        seeds.contains(t) && dist(p, t) == dist(p, s) ==> not_after(s, t)
}

/// Each reached pixel comes from the first of its nearest seeds. In the queue, pixels of a
/// level are ordered by their seeds, and those of the next level come from no later seeds.
spec fn ranked(st: Flood, seeds: Set<Pixel>) -> bool {
    &&& forall|p: Pixel| #[trigger]
        st.source.contains_key(p) ==> first_nearest(p, st.source[p], seeds)
    &&& forall|i: int, j: int|
        0 <= i < j < st.queue.len() && level(st, #[trigger] st.queue[i]) == level(
            st,
            #[trigger] st.queue[j],
        ) ==> not_after(st.source[st.queue[i]], st.source[st.queue[j]])
    &&& forall|i: int, j: int|
        0 <= i < st.queue.len() && 0 <= j < st.queue.len() && level(st, #[trigger] st.queue[i])
            == level(st, #[trigger] st.queue[j]) + 1 ==> not_after(
            st.source[st.queue[i]],
            st.source[st.queue[j]],
        )
}

/// While `p` is expanded, its seed stands between those of its own level and those of the
/// next one.
spec fn ranked_around(st: Flood, p: Pixel, seeds: Set<Pixel>) -> bool {
    &&& ranked(st, seeds)
    &&& forall|i: int|
        0 <= i < st.queue.len() && level(st, #[trigger] st.queue[i]) == level(st, p) ==> not_after(
            st.source[p],
            st.source[st.queue[i]],
        )
    &&& forall|i: int|
        0 <= i < st.queue.len() && level(st, #[trigger] st.queue[i]) == level(st, p) + 1
            ==> not_after(st.source[st.queue[i]], st.source[p])
}

/// A pixel that is reached while `p` is expanded comes from the first of its nearest seeds.
proof fn lemma_reached_first(st: Flood, p: Pixel, n: Pixel, seeds: Set<Pixel>, side: nat)
    requires
        expanding(st, p, seeds, side),
        ranked_around(st, p, seeds),
        dist(p, n) == 1,
        in_grid(n, side),
        !st.source.contains_key(n),
    ensures
        first_nearest(n, st.source[p], seeds),
        dist(n, st.source[p]) == level(st, p) + 1,
{
    let seed = st.source[p];
    let lv = level(st, p);
    assert(nearest(p, seed, seeds));
    assert forall|s: Pixel| #[trigger] seeds.contains(s) implies dist(n, s) >= lv + 1 by {
        assert(!(dist(n, s) <= lv));
    }
    assert(seeds.contains(seed));
    assert forall|t: Pixel| #[trigger] seeds.contains(t) && dist(n, t) == dist(n, seed) implies not_after(
        seed,
        t,
    ) by {
        let q = towards(n, t);
        assert(in_grid(t, side));
        assert(dist(n, t) == lv + 1);
        assert(in_grid(q, side) && dist(q, t) == lv && dist(q, n) == 1);
        assert(st.source.contains_key(q));
        let s = st.source[q];
        assert(first_nearest(q, s, seeds));
        assert(dist(q, s) <= lv);
        assert(dist(n, s) >= lv + 1);
        assert(level(st, q) == lv);
        assert(not_after(s, t));
        if q != p {
            if !st.queue.contains(q) {
                assert(expanded(st, q, side));
                assert(st.source.contains_key(n));
            }
            let i = choose|i: int| 0 <= i < st.queue.len() && st.queue[i] == q;
            assert(level(st, st.queue[i]) == lv);
            assert(not_after(seed, s));
        }
    }
}

/// Offering a pixel keeps the ranks.
proof fn lemma_offer_rank(st: Flood, p: Pixel, n: Pixel, seeds: Set<Pixel>, side: nat)
    requires
        expanding(st, p, seeds, side),
        ranked_around(st, p, seeds),
        dist(p, n) == 1,
    ensures
        ranked_around(offer(st, n, st.source[p], side), p, seeds),
{
    let seed = st.source[p];
    let t = offer(st, n, seed, side);
    if in_grid(n, side) && !st.source.contains_key(n) {
        let lv = level(st, p);
        let last = st.queue.len() as int;
        lemma_reached_first(st, p, n, seeds, side);
        assert(n != p);
        assert(t.source[p] == seed && t.source[n] == seed);
        assert(t.queue[last] == n);
        assert(level(t, n) == lv + 1 && level(t, p) == lv);
        assert forall|i: int| 0 <= i < last implies (#[trigger] t.queue[i]) == st.queue[i]
            && t.source[t.queue[i]] == st.source[st.queue[i]] && level(t, t.queue[i]) == level(
            st,
            st.queue[i],
        ) && lv <= level(t, t.queue[i]) <= lv + 1 by {
            assert(st.source.contains_key(st.queue[i]));
        }
        assert forall|x: Pixel| #[trigger] t.source.contains_key(x) implies first_nearest(
            x,
            t.source[x],
            seeds,
        ) by {
            if x != n {
                assert(st.source.contains_key(x));
            }
        }
        assert forall|i: int, j: int|
            0 <= i < j < t.queue.len() && level(t, #[trigger] t.queue[i]) == level(
                t,
                #[trigger] t.queue[j],
            ) implies not_after(t.source[t.queue[i]], t.source[t.queue[j]]) by {
            assert(t.queue[i] == st.queue[i]);
            if j < last {
                assert(t.queue[j] == st.queue[j]);
            }
        }
        assert forall|i: int, j: int|
            0 <= i < t.queue.len() && 0 <= j < t.queue.len() && level(t, #[trigger] t.queue[i])
                == level(t, #[trigger] t.queue[j]) + 1 implies not_after(
            t.source[t.queue[i]],
            t.source[t.queue[j]],
        ) by {
            if j == last {
                assert(level(t, t.queue[i]) <= lv + 1);
            } else {
                assert(t.queue[j] == st.queue[j]);
                if i < last {
                    assert(t.queue[i] == st.queue[i]);
                }
            }
        }
        assert forall|i: int| 0 <= i < t.queue.len() && level(t, #[trigger] t.queue[i]) == level(
            t,
            p,
        ) implies not_after(t.source[p], t.source[t.queue[i]]) by {
            assert(i < last);
            assert(t.queue[i] == st.queue[i]);
        }
        assert forall|i: int| 0 <= i < t.queue.len() && level(t, #[trigger] t.queue[i]) == level(
            t,
            p,
        ) + 1 implies not_after(t.source[t.queue[i]], t.source[p]) by {
            if i < last {
                assert(t.queue[i] == st.queue[i]);
            }
        }
    }
}

/// A step keeps the ranks.
proof fn lemma_step_rank(st: Flood, seeds: Set<Pixel>, side: nat)
    requires
        flood_inv(st, seeds, side),
        ranked(st, seeds),
        st.queue.len() > 0,
    ensures
        ranked(flood_step(st, side), seeds),
{
    let p = st.queue[0];
    assert(st.source.contains_key(p));
    let seed = st.source[p];
    let s0 = Flood { queue: st.queue.drop_first(), source: st.source };
    let s1 = offer(s0, (p.0 - 1, p.1), seed, side);
    let s2 = offer(s1, (p.0 + 1, p.1), seed, side);
    let s3 = offer(s2, (p.0, p.1 - 1), seed, side);
    lemma_step_start(st, seeds, side);
    assert(forall|i: int| 0 <= i < s0.queue.len() ==> #[trigger] s0.queue[i] == st.queue[i + 1]);
    assert(ranked_around(s0, p, seeds)) by {
        assert forall|i: int, j: int|
            0 <= i < j < s0.queue.len() && level(s0, #[trigger] s0.queue[i]) == level(
                s0,
                #[trigger] s0.queue[j],
            ) implies not_after(s0.source[s0.queue[i]], s0.source[s0.queue[j]]) by {
            assert(s0.queue[i] == st.queue[i + 1] && s0.queue[j] == st.queue[j + 1]);
        }
        assert forall|i: int, j: int|
            0 <= i < s0.queue.len() && 0 <= j < s0.queue.len() && level(s0, #[trigger] s0.queue[i])
                == level(s0, #[trigger] s0.queue[j]) + 1 implies not_after(
            s0.source[s0.queue[i]],
            s0.source[s0.queue[j]],
        ) by {
            assert(s0.queue[i] == st.queue[i + 1] && s0.queue[j] == st.queue[j + 1]);
        }
        assert forall|i: int| 0 <= i < s0.queue.len() && level(s0, #[trigger] s0.queue[i]) == level(
            s0,
            p,
        ) implies not_after(s0.source[p], s0.source[s0.queue[i]]) by {
            assert(level(st, st.queue[0]) == level(st, st.queue[i + 1]));
        }
        assert forall|i: int| 0 <= i < s0.queue.len() && level(s0, #[trigger] s0.queue[i]) == level(
            s0,
            p,
        ) + 1 implies not_after(s0.source[s0.queue[i]], s0.source[p]) by {
            assert(level(st, st.queue[i + 1]) == level(st, st.queue[0]) + 1);
        }
    }
    lemma_offer_inv(s0, p, (p.0 - 1, p.1), seeds, side);
    lemma_offer_inv(s1, p, (p.0 + 1, p.1), seeds, side);
    lemma_offer_inv(s2, p, (p.0, p.1 - 1), seeds, side);
    lemma_offer_rank(s0, p, (p.0 - 1, p.1), seeds, side);
    lemma_offer_rank(s1, p, (p.0 + 1, p.1), seeds, side);
    lemma_offer_rank(s2, p, (p.0, p.1 - 1), seeds, side);
    lemma_offer_rank(s3, p, (p.0, p.1 + 1), seeds, side);
}

/// Flooding keeps the ranks.
proof fn lemma_flood_rank(st: Flood, seeds: Set<Pixel>, side: nat)
    requires
        flood_inv(st, seeds, side),
        ranked(st, seeds),
    ensures
        ranked(flood(st, side), seeds),
    decreases not_reached(st.source, side).len(), st.queue.len(),
{
    if st.queue.len() > 0 {
        lemma_step_measure(st, side);
        lemma_step_inv(st, seeds, side);
        lemma_step_rank(st, seeds, side);
        lemma_flood_rank(flood_step(st, side), seeds, side);
    }
}

/// Flooding from seeds that are queued row by row reaches each pixel from the first, row by
/// row, of the seeds that are nearest to it.
pub proof fn flood_prefers_first(st: Flood, seeds: Set<Pixel>, side: nat)
    requires
        starts_from(st, seeds, side),
        forall|i: int, j: int|
            0 <= i < j < st.queue.len() ==> not_after(#[trigger] st.queue[i], #[trigger] st.queue[j]),
    ensures
        forall|p: Pixel| #[trigger]
            flood(st, side).source.contains_key(p) ==> first_nearest(
                p,
                flood(st, side).source[p],
                seeds,
            ),
{
    lemma_start_inv(st, seeds, side);
    assert forall|p: Pixel| #[trigger] st.source.contains_key(p) implies first_nearest(
        p,
        st.source[p],
        seeds,
    ) by {
        assert(seeds.contains(p));
        assert(st.source[p] == p);
    }
    assert forall|i: int| 0 <= i < st.queue.len() implies level(st, #[trigger] st.queue[i]) == 0
        && st.source[st.queue[i]] == st.queue[i] by {
        assert(seeds.contains(st.queue[i]));
    }
    assert(ranked(st, seeds));
    lemma_flood_rank(st, seeds, side);
}

} // verus!
