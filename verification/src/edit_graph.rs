//! The edit graph of two lists of lines: which points are reached from the
//! start with a given number of deletions and insertions, and the furthest
//! point that the forward search of a diff finds on each diagonal.

use vstd::prelude::*;

verus! {

/// Line `x` of the old side equals line `y` of the new side: a free step
/// from `(x, y)` to `(x + 1, y + 1)`.
pub open spec fn diag_ok(a: Seq<Seq<char>>, b: Seq<Seq<char>>, x: int, y: int) -> bool {
    0 <= x < a.len() && 0 <= y < b.len() && a[x] == b[y]
}

/// The free step from `(x, x - k)` along diagonal `k`.
pub open spec fn diag_step(a: Seq<Seq<char>>, b: Seq<Seq<char>>, x: int, k: int) -> bool {
    diag_ok(a, b, x, x - k)
}

/// The point `(x, y)` is reached from `(0, 0)` with at most `d` deletions
/// (steps in `x`) and insertions (steps in `y`), the other steps free.
/// Points past the ends of the sides count; no free step leads there.
pub open spec fn reach(a: Seq<Seq<char>>, b: Seq<Seq<char>>, d: nat, x: int, y: int) -> bool
    decreases d, x + y,
{
    if x < 0 || y < 0 {
        false
    } else if x == 0 && y == 0 {
        true
    } else {
        ||| (x > 0 && y > 0 && diag_ok(a, b, x - 1, y - 1) && reach(a, b, d, x - 1, y - 1))
        ||| (d > 0 && x > 0 && reach(a, b, (d - 1) as nat, x - 1, y))
        ||| (d > 0 && y > 0 && reach(a, b, (d - 1) as nat, x, y - 1))
    }
}

/// Where the free steps along diagonal `k` from `x` end.
pub open spec fn snake(a: Seq<Seq<char>>, b: Seq<Seq<char>>, x: int, k: int) -> int
    decreases a.len() - x,
{
    if diag_step(a, b, x, k) {
        snake(a, b, x + 1, k)
    } else {
        x
    }
}

/// The furthest `x` that the forward search finds on diagonal `k` in round
/// `d`: one step down from diagonal `k + 1` or right from `k - 1` (the
/// further of the two, down at the lower end, right at the upper end), then
/// the free steps.
pub open spec fn front(a: Seq<Seq<char>>, b: Seq<Seq<char>>, d: nat, k: int) -> int
    decreases d,
{
    let s = if d == 0 {
        0
    } else if k == -d || (k != d && front(a, b, (d - 1) as nat, k - 1) < front(a, b, (d - 1) as nat, k + 1)) {
        front(a, b, (d - 1) as nat, k + 1)
    } else {
        front(a, b, (d - 1) as nat, k - 1) + 1
    };
    snake(a, b, s, k)
}

/// Where round `d` starts on diagonal `k`, before the free steps.
pub open spec fn start_of(a: Seq<Seq<char>>, b: Seq<Seq<char>>, d: nat, k: int) -> int {
    if d == 0 {
        0
    } else if k == -d || (k != d && front(a, b, (d - 1) as nat, k - 1) < front(a, b, (d - 1) as nat, k + 1)) {
        front(a, b, (d - 1) as nat, k + 1)
    } else {
        front(a, b, (d - 1) as nat, k - 1) + 1
    }
}

/// Round `d` reaches the end of both sides on diagonal `k`.
pub open spec fn stops(a: Seq<Seq<char>>, b: Seq<Seq<char>>, d: nat, k: int) -> bool {
    front(a, b, d, k) >= a.len() && front(a, b, d, k) - k >= b.len()
}

/// Round `d` reaches the end of both sides on some diagonal it visits.
pub open spec fn round_stops(a: Seq<Seq<char>>, b: Seq<Seq<char>>, d: nat) -> bool {
    exists|ks: int| in_round(d as int, ks) && #[trigger] stops(a, b, d, ks)
}

/// A diagonal that round `d` visits.
pub open spec fn in_round(d: int, k: int) -> bool {
    -d <= k <= d && (k + d) % 2 == 0
}

/// A point reached with `d` steps lies on a diagonal between `-d` and `d`.
pub proof fn lemma_reach_band(a: Seq<Seq<char>>, b: Seq<Seq<char>>, d: nat, x: int, y: int)
    requires
        reach(a, b, d, x, y),
    ensures
        -d <= x - y <= d,
        x >= 0,
        y >= 0,
    decreases d, x + y,
{
    if x == 0 && y == 0 {
    } else if x > 0 && y > 0 && diag_ok(a, b, x - 1, y - 1) && reach(a, b, d, x - 1, y - 1) {
        lemma_reach_band(a, b, d, x - 1, y - 1);
    } else if d > 0 && x > 0 && reach(a, b, (d - 1) as nat, x - 1, y) {
        lemma_reach_band(a, b, (d - 1) as nat, x - 1, y);
    } else {
        lemma_reach_band(a, b, (d - 1) as nat, x, y - 1);
    }
}

/// What is reached with `d` steps is reached with `d + 1`.
pub proof fn lemma_reach_mono(a: Seq<Seq<char>>, b: Seq<Seq<char>>, d: nat, x: int, y: int)
    requires
        reach(a, b, d, x, y),
    ensures
        reach(a, b, d + 1, x, y),
    decreases d, x + y,
{
    if x == 0 && y == 0 {
    } else if x > 0 && y > 0 && diag_ok(a, b, x - 1, y - 1) && reach(a, b, d, x - 1, y - 1) {
        lemma_reach_mono(a, b, d, x - 1, y - 1);
    } else if d > 0 && x > 0 && reach(a, b, (d - 1) as nat, x - 1, y) {
        lemma_reach_mono(a, b, (d - 1) as nat, x - 1, y);
    } else {
        lemma_reach_mono(a, b, (d - 1) as nat, x, y - 1);
    }
}

/// The steps taken to a point have the parity of `x + y`: with a count of
/// the other parity, one step fewer suffices.
pub proof fn lemma_reach_parity(a: Seq<Seq<char>>, b: Seq<Seq<char>>, d: nat, x: int, y: int)
    requires
        reach(a, b, d, x, y),
        (d + x + y) % 2 == 1,
    ensures
        d >= 1,
        reach(a, b, (d - 1) as nat, x, y),
    decreases d, x + y,
{
    if x == 0 && y == 0 {
    } else if x > 0 && y > 0 && diag_ok(a, b, x - 1, y - 1) && reach(a, b, d, x - 1, y - 1) {
        lemma_reach_parity(a, b, d, x - 1, y - 1);
    } else if d > 0 && x > 0 && reach(a, b, (d - 1) as nat, x - 1, y) {
        lemma_reach_parity(a, b, (d - 1) as nat, x - 1, y);
    } else {
        lemma_reach_parity(a, b, (d - 1) as nat, x, y - 1);
    }
}

/// A point past the ends is reached only if the end of both sides, or the
/// point held back to the ends, is reached as cheaply.
pub proof fn lemma_reach_clamp(a: Seq<Seq<char>>, b: Seq<Seq<char>>, d: nat, x: int, y: int)
    requires
        reach(a, b, d, x, y),
    ensures
        reach(a, b, d, if x < a.len() { x } else { a.len() as int }, if y < b.len() { y } else { b.len() as int }),
    decreases d, x + y,
{
    let n = a.len() as int;
    let m = b.len() as int;
    if x <= n && y <= m {
    } else if x > 0 && y > 0 && diag_ok(a, b, x - 1, y - 1) && reach(a, b, d, x - 1, y - 1) {
    } else if d > 0 && x > 0 && reach(a, b, (d - 1) as nat, x - 1, y) {
        lemma_reach_clamp(a, b, (d - 1) as nat, x - 1, y);
        let cy = if y < m { y } else { m };
        if x > n {
            lemma_reach_mono(a, b, (d - 1) as nat, n, cy);
        } else {
            assert(reach(a, b, d, x, cy));
        }
    } else {
        lemma_reach_clamp(a, b, (d - 1) as nat, x, y - 1);
        let cx = if x < n { x } else { n };
        if y > m {
            lemma_reach_mono(a, b, (d - 1) as nat, cx, m);
        } else {
            assert(reach(a, b, d, cx, y));
        }
    }
}

/// Deleting every old line and inserting every new one reaches the end.
pub proof fn lemma_reach_axes(a: Seq<Seq<char>>, b: Seq<Seq<char>>, x: nat, y: nat)
    ensures
        reach(a, b, x + y, x as int, y as int),
    decreases x + y,
{
    if x == 0 && y == 0 {
    } else if y > 0 {
        lemma_reach_axes(a, b, x, (y - 1) as nat);
    } else {
        lemma_reach_axes(a, b, (x - 1) as nat, y);
    }
}

/// The free steps from `s` go no backwards, all of them are free steps,
/// and they end where no free step is left.
pub proof fn lemma_snake(a: Seq<Seq<char>>, b: Seq<Seq<char>>, s: int, k: int)
    ensures
        snake(a, b, s, k) >= s,
        !diag_step(a, b, snake(a, b, s, k), k),
        forall|i: int| s <= i < snake(a, b, s, k) ==> #[trigger] diag_step(a, b, i, k),
    decreases a.len() - s,
{
    if diag_step(a, b, s, k) {
        lemma_snake(a, b, s + 1, k);
    }
}

/// The free steps keep a point reached.
pub proof fn lemma_snake_reach(a: Seq<Seq<char>>, b: Seq<Seq<char>>, d: nat, s: int, k: int)
    requires
        reach(a, b, d, s, s - k),
    ensures
        reach(a, b, d, snake(a, b, s, k), snake(a, b, s, k) - k),
    decreases a.len() - s,
{
    if diag_step(a, b, s, k) {
        assert(reach(a, b, d, s + 1, s + 1 - k));
        lemma_snake_reach(a, b, d, s + 1, k);
    }
}

/// The point that round `d` finds on a diagonal it visits is reached with
/// `d` steps, and the free steps start from a reached point too.
pub proof fn lemma_front_reached(a: Seq<Seq<char>>, b: Seq<Seq<char>>, d: nat, k: int)
    requires
        in_round(d as int, k),
    ensures
        start_of(a, b, d, k) >= 0,
        start_of(a, b, d, k) - k >= 0,
        reach(a, b, d, start_of(a, b, d, k), start_of(a, b, d, k) - k),
        front(a, b, d, k) == snake(a, b, start_of(a, b, d, k), k),
        front(a, b, d, k) >= start_of(a, b, d, k),
        front(a, b, d, k) - k >= 0,
        reach(a, b, d, front(a, b, d, k), front(a, b, d, k) - k),
    decreases d,
{
    let s = start_of(a, b, d, k);
    if d > 0 {
        let d1 = (d - 1) as nat;
        if k == -d || (k != d && front(a, b, d1, k - 1) < front(a, b, d1, k + 1)) {
            lemma_front_reached(a, b, d1, k + 1);
            let x = front(a, b, d1, k + 1);
            assert(reach(a, b, d, x, x - k));
        } else {
            lemma_front_reached(a, b, d1, k - 1);
            let x = front(a, b, d1, k - 1);
            assert(reach(a, b, d, x + 1, x + 1 - k));
        }
    }
    lemma_snake(a, b, s, k);
    lemma_snake_reach(a, b, d, s, k);
}

/// Nothing reached with `d` steps lies beyond what round `d` finds on its
/// diagonal.
pub proof fn lemma_front_furthest(a: Seq<Seq<char>>, b: Seq<Seq<char>>, d: nat, x: int, y: int)
    requires
        reach(a, b, d, x, y),
        (x - y + d) % 2 == 0,
    ensures
        x <= front(a, b, d, x - y),
    decreases d, x + y,
{
    let k = x - y;
    lemma_reach_band(a, b, d, x, y);
    lemma_front_reached(a, b, d, k);
    if x == 0 && y == 0 {
    } else if x > 0 && y > 0 && diag_ok(a, b, x - 1, y - 1) && reach(a, b, d, x - 1, y - 1) {
        lemma_front_furthest(a, b, d, x - 1, y - 1);
        lemma_snake(a, b, start_of(a, b, d, k), k);
        assert(diag_step(a, b, x - 1, k));
    } else if d > 0 && x > 0 && reach(a, b, (d - 1) as nat, x - 1, y) {
        let d1 = (d - 1) as nat;
        lemma_reach_band(a, b, d1, x - 1, y);
        lemma_front_furthest(a, b, d1, x - 1, y);
    } else {
        let d1 = (d - 1) as nat;
        lemma_reach_band(a, b, d1, x, y - 1);
        lemma_front_furthest(a, b, d1, x, y - 1);
    }
}

/// When the end of both sides is reached with `d` steps of its parity,
/// round `d` stops on its diagonal.
pub proof fn lemma_stops_when_reached(a: Seq<Seq<char>>, b: Seq<Seq<char>>, d: nat)
    requires
        reach(a, b, d, a.len() as int, b.len() as int),
        (d + a.len() + b.len()) % 2 == 0,
    ensures
        in_round(d as int, a.len() - b.len()),
        stops(a, b, d, a.len() - b.len()),
{
    let n = a.len() as int;
    let m = b.len() as int;
    lemma_reach_band(a, b, d, n, m);
    assert((n - m + d) % 2 == 0);
    lemma_front_furthest(a, b, d, n, m);
}

/// Round `n + m` stops at the latest.
pub proof fn lemma_stops_in_time(a: Seq<Seq<char>>, b: Seq<Seq<char>>)
    ensures
        in_round((a.len() + b.len()) as int, a.len() - b.len()),
        stops(a, b, (a.len() + b.len()) as nat, a.len() - b.len()),
{
    lemma_reach_axes(a, b, a.len(), b.len());
    lemma_stops_when_reached(a, b, (a.len() + b.len()) as nat);
}

/// When no round before `dd` stops, the end of both sides is not reached
/// with fewer than `dd` steps.
pub proof fn lemma_no_cheaper(a: Seq<Seq<char>>, b: Seq<Seq<char>>, dd: nat, c: nat)
    requires
        forall|d2: nat, k: int| d2 < dd && in_round(d2 as int, k) ==> !#[trigger] stops(a, b, d2, k),
        reach(a, b, c, a.len() as int, b.len() as int),
    ensures
        c >= dd,
{
    let kk = a.len() - b.len();
    if c < dd {
        if (c + a.len() + b.len()) % 2 == 1 {
            lemma_reach_parity(a, b, c, a.len() as int, b.len() as int);
            lemma_stops_when_reached(a, b, (c - 1) as nat);
            assert(!stops(a, b, (c - 1) as nat, kk));
        } else {
            lemma_stops_when_reached(a, b, c);
            assert(!stops(a, b, c, kk));
        }
    }
}

/// In the first round that stops, the diagonal of the end of both sides is
/// visited, its furthest point is at or past the end, and its free steps
/// start at or before the end.
pub proof fn lemma_first_stop(a: Seq<Seq<char>>, b: Seq<Seq<char>>, dd: nat, ks: int)
    requires
        in_round(dd as int, ks),
        stops(a, b, dd, ks),
        forall|d2: nat, k: int| d2 < dd && in_round(d2 as int, k) ==> !#[trigger] stops(a, b, d2, k),
    ensures
        in_round(dd as int, a.len() - b.len()),
        a.len() <= front(a, b, dd, a.len() - b.len()),
        start_of(a, b, dd, a.len() - b.len()) <= a.len(),
{
    let n = a.len() as int;
    let m = b.len() as int;
    let kk = n - m;
    lemma_front_reached(a, b, dd, ks);
    let x = front(a, b, dd, ks);
    lemma_reach_clamp(a, b, dd, x, x - ks);
    if (dd + n + m) % 2 == 1 {
        lemma_reach_parity(a, b, dd, n, m);
        lemma_stops_when_reached(a, b, (dd - 1) as nat);
        assert(!stops(a, b, (dd - 1) as nat, kk));
    }
    lemma_stops_when_reached(a, b, dd);
    if dd > 0 {
        let d1 = (dd - 1) as nat;
        if kk == -dd || (kk != dd && front(a, b, d1, kk - 1) < front(a, b, d1, kk + 1)) {
            if start_of(a, b, dd, kk) > n {
                assert(in_round(d1 as int, kk + 1));
                assert(!stops(a, b, d1, kk + 1));
            }
        } else {
            if start_of(a, b, dd, kk) > n {
                assert(in_round(d1 as int, kk - 1));
                assert(!stops(a, b, d1, kk - 1));
            }
        }
    }
}

} // verus!
