//! The pairwise force between participants and the step that applies it.
//!
//! The force that `other` exerts on `me` is `g / d` times the displacement
//! `me - other`, where `d` is the distance between the two. The distance is
//! taken exactly, whole or not, and each component of the force is rounded
//! toward zero: a component `q` is the whole number nearest to zero with
//! `q * q * d * d <= a * a < (|q| + 1) * (|q| + 1) * d * d`, where `a` is `g`
//! times the displacement along that axis and `d * d` is the whole sum of
//! the squared displacements. Two participants at the same place exert
//! nothing on each other, so a participant never acts on itself.
//!
//! A step reads every position before it moves any: the force on each
//! participant is summed over the whole set as it stood when the step began,
//! and is applied once. The sum starts at zero for every participant. A step
//! does not move a participant after each single pair, and it carries no sum
//! over from one participant to the next.

use vstd::prelude::*;
use crate::sqrt::{floor_sqrt, isqrt, lemma_floor_sqrt_bounds, lemma_floor_sqrt_zero};
use crate::vector::{displaced, Force, Position, Vector};

verus! {

/// The quotient of `a` by the square root of `n`, rounded toward zero, for
/// a positive `n`.
pub open spec fn root_quotient(a: int, n: nat) -> int {
    let size = floor_sqrt(((a * a) / (n as int)) as nat) as int;
    if a >= 0 {
        size
    } else {
        -size
    }
}

/// `q` is the quotient of `a` by the square root of `n`, rounded toward
/// zero: it has the sign of `a`, its square times `n` is at most the square
/// of `a`, and the same is not so of the next whole number away from zero.
pub open spec fn is_root_quotient(q: int, a: int, n: nat) -> bool {
    if a >= 0 {
        0 <= q && q * q * n <= a * a < (q + 1) * (q + 1) * n
    } else {
        q <= 0 && q * q * n <= a * a < (q - 1) * (q - 1) * n
    }
}

/// The square of the distance between `a` and `b`.
pub open spec fn distance_squared(a: Position, b: Position) -> nat {
    ((a.x - b.x) * (a.x - b.x) + (a.y - b.y) * (a.y - b.y)) as nat
}

/// The force that `other` exerts on `me` under the attraction constant `g`.
pub open spec fn pair_force(me: Position, other: Position, g: int) -> Vector {
    let n = distance_squared(me, other);
    if n > 0 {
        Vector { x: root_quotient(g * (me.x - other.x), n), y: root_quotient(g * (me.y - other.y), n) }
    } else {
        Vector::zero()
    }
}

/// The sum of the forces that all of `others` exert on `me`.
pub open spec fn net_force(me: Position, others: Seq<Position>, g: int) -> Vector
    decreases others.len(),
{
    if others.len() == 0 {
        Vector::zero()
    } else {
        net_force(me, others.drop_last(), g).plus(pair_force(me, others.last(), g))
    }
}

/// The positions of `selves` after one step under the forces of `others`.
pub open spec fn stepped(selves: Seq<Position>, others: Seq<Position>, g: int) -> Seq<Position> {
    Seq::new(selves.len(), |i: int| displaced(selves[i], net_force(selves[i], others, g)))
}

/// The sum of the net forces that `others` exert on each of `selves`.
pub open spec fn total_force(selves: Seq<Position>, others: Seq<Position>, g: int) -> Vector
    decreases selves.len(),
{
    if selves.len() == 0 {
        Vector::zero()
    } else {
        total_force(selves.drop_last(), others, g).plus(net_force(selves.last(), others, g))
    }
}

/// The largest size that a component of a pairwise force can have.
pub open spec fn force_limit() -> int {
    0x8000_0000
}

/// The square of a difference of two coordinates fits in 64 bits.
proof fn lemma_square_bound(d: int)
    requires
        -0x1_0000_0000 < d < 0x1_0000_0000,
    ensures
        0 <= d * d < 0x1_0000_0000_0000_0000,
{
    assert(0 <= d * d < 0x1_0000_0000_0000_0000) by (nonlinear_arith)
        requires
            -0x1_0000_0000 < d < 0x1_0000_0000,
    ;
}

/// The constant times a difference of two coordinates fits in 64 bits, and
/// the square of that product in 126.
proof fn lemma_product_bound(g: int, d: int)
    requires
        -0x8000_0000 <= g <= 0x8000_0000,
        -0x1_0000_0000 < d < 0x1_0000_0000,
    ensures
        -0x8000_0000_0000_0000 < g * d < 0x8000_0000_0000_0000,
        0 <= (g * d) * (g * d) < 0x4000_0000_0000_0000_0000_0000_0000_0000,
{
    let a = g * d;
    assert(-0x8000_0000_0000_0000 < a < 0x8000_0000_0000_0000) by (nonlinear_arith)
        requires
            a == g * d,
            -0x8000_0000 <= g <= 0x8000_0000,
            -0x1_0000_0000 < d < 0x1_0000_0000,
    ;
    assert(0 <= a * a < 0x4000_0000_0000_0000_0000_0000_0000_0000) by (nonlinear_arith)
        requires
            -0x8000_0000_0000_0000 < a < 0x8000_0000_0000_0000,
    ;
}

/// The squared distance is the sum of the squared displacements, the same
/// in both directions, and no less than either of them.
proof fn lemma_distance_squared(a: Position, b: Position)
    ensures
        distance_squared(a, b) == (a.x - b.x) * (a.x - b.x) + (a.y - b.y) * (a.y - b.y),
        distance_squared(a, b) == distance_squared(b, a),
        (a.x - b.x) * (a.x - b.x) <= distance_squared(a, b),
        (a.y - b.y) * (a.y - b.y) <= distance_squared(a, b),
        distance_squared(a, b) == 0 <==> a == b,
{
    let dx = a.x - b.x;
    let dy = a.y - b.y;
    assert(dx * dx >= 0 && dy * dy >= 0) by (nonlinear_arith);
    assert(dx * dx + dy * dy == (-dx) * (-dx) + (-dy) * (-dy)) by (nonlinear_arith);
    assert(b.x - a.x == -dx && b.y - a.y == -dy);
    assert(dx * dx + dy * dy == 0 <==> dx == 0 && dy == 0) by (nonlinear_arith);
}

/// `root_quotient` gives the quotient that `is_root_quotient` describes.
pub proof fn lemma_root_quotient_is(a: int, n: nat)
    requires
        n > 0,
    ensures
        is_root_quotient(root_quotient(a, n), a, n),
{
    let s = a * a;
    assert(s >= 0) by (nonlinear_arith)
        requires
            s == a * a,
    ;
    let m = s / (n as int);
    assert(0 <= m && m * n <= s < (m + 1) * n) by (nonlinear_arith)
        requires
            m == s / (n as int),
            s >= 0,
            n > 0,
    ;
    lemma_floor_sqrt_bounds(m as nat);
    let q = floor_sqrt(m as nat) as int;
    assert(q * q * n <= s && s < (q + 1) * (q + 1) * n) by (nonlinear_arith)
        requires
            q * q <= m,
            m < (q + 1) * (q + 1),
            m * n <= s < (m + 1) * n,
            n > 0,
    ;
    if a < 0 {
        assert((-q) * (-q) * n == q * q * n && (-q - 1) * (-q - 1) * n == (q + 1) * (q + 1) * n)
            by (nonlinear_arith);
    }
}

/// A quotient by the root of `n` is zero exactly when the square of what is
/// divided is less than `n`.
proof fn lemma_root_quotient_zero(a: int, n: nat)
    requires
        n > 0,
    ensures
        root_quotient(a, n) == 0 <==> a * a < n,
{
    let s = a * a;
    assert(s >= 0) by (nonlinear_arith)
        requires
            s == a * a,
    ;
    let m = s / (n as int);
    assert(0 <= m && (m == 0 <==> s < n)) by (nonlinear_arith)
        requires
            m == s / (n as int),
            s >= 0,
            n > 0,
    ;
    lemma_floor_sqrt_zero(m as nat);
}

/// The quotient of a product `g * c` by the root of `n` is no larger than
/// `g` where the square of `c` is no larger than `n`.
proof fn lemma_root_quotient_bounded(g: int, c: int, n: nat)
    requires
        n > 0,
        c * c <= n,
    ensures
        g >= 0 ==> -g <= root_quotient(g * c, n) <= g,
        g <= 0 ==> g <= root_quotient(g * c, n) <= -g,
{
    let a = g * c;
    lemma_root_quotient_is(a, n);
    let q = root_quotient(a, n);
    let size = if q >= 0 { q } else { -q };
    let bound = if g >= 0 { g } else { -g };
    assert(size * size * n <= a * a) by (nonlinear_arith)
        requires
            q * q * n <= a * a,
            size == q || size == -q,
    ;
    assert(a * a <= bound * bound * n) by (nonlinear_arith)
        requires
            a == g * c,
            bound == g || bound == -g,
            c * c <= n,
    ;
    assert(size <= bound) by (nonlinear_arith)
        requires
            size * size * n <= bound * bound * n,
            n > 0,
            size >= 0,
            bound >= 0,
    ;
}

/// No component of a pairwise force is larger than the attraction constant.
pub proof fn lemma_pair_force_bounded(me: Position, other: Position, g: int)
    ensures
        g >= 0 ==> -g <= pair_force(me, other, g).x <= g,
        g >= 0 ==> -g <= pair_force(me, other, g).y <= g,
        g <= 0 ==> g <= pair_force(me, other, g).x <= -g,
        g <= 0 ==> g <= pair_force(me, other, g).y <= -g,
{
    let n = distance_squared(me, other);
    if n > 0 {
        lemma_distance_squared(me, other);
        lemma_root_quotient_bounded(g, me.x - other.x, n);
        lemma_root_quotient_bounded(g, me.y - other.y, n);
    }
}

/// Two participants at the same place, and so any participant and itself,
/// exert no force on each other.
pub proof fn lemma_no_force_at_zero_distance(me: Position, other: Position, g: int)
    ensures
        distance_squared(me, other) == 0 <==> me == other,
        me == other ==> pair_force(me, other, g) == Vector::zero(),
{
    lemma_distance_squared(me, other);
}

/// Between two participants at different places the force on `me` is the
/// displacement from `other` to `me`, scaled by `g / d` and rounded toward
/// zero in each component, `d` being their exact distance. It lies along
/// the line that connects the two and, for a positive `g`, points from
/// `other` toward `me`.
pub proof fn lemma_force_along_connecting_line(me: Position, other: Position, g: int)
    requires
        me != other,
    ensures
        distance_squared(me, other) > 0,
        is_root_quotient(
            pair_force(me, other, g).x,
            g * (me.x - other.x),
            distance_squared(me, other),
        ),
        is_root_quotient(
            pair_force(me, other, g).y,
            g * (me.y - other.y),
            distance_squared(me, other),
        ),
        g > 0 ==> pair_force(me, other, g).x * (me.x - other.x) >= 0,
        g > 0 ==> pair_force(me, other, g).y * (me.y - other.y) >= 0,
{
    let n = distance_squared(me, other);
    let dx = me.x - other.x;
    let dy = me.y - other.y;
    let f = pair_force(me, other, g);
    lemma_distance_squared(me, other);
    lemma_root_quotient_is(g * dx, n);
    lemma_root_quotient_is(g * dy, n);
    if g > 0 {
        lemma_quotient_keeps_sign(f.x, g, dx, n);
        lemma_quotient_keeps_sign(f.y, g, dy, n);
    }
}

/// For a positive `g` the rounded quotient of `g * c` has the sign of `c`.
proof fn lemma_quotient_keeps_sign(q: int, g: int, c: int, n: nat)
    requires
        g > 0,
        is_root_quotient(q, g * c, n),
    ensures
        q * c >= 0,
{
    assert(q * c >= 0) by (nonlinear_arith)
        requires
            g > 0,
            (g * c >= 0 && q >= 0) || (g * c < 0 && q <= 0),
    ;
}

/// The force of `b` on `a` is the opposite of the force of `a` on `b`.
pub proof fn lemma_pair_force_antisymmetric(a: Position, b: Position, g: int)
    ensures
        pair_force(a, b, g) == pair_force(b, a, g).negated(),
{
    let dx = a.x - b.x;
    let dy = a.y - b.y;
    let n = distance_squared(a, b);
    lemma_distance_squared(a, b);
    assert(b.x - a.x == -dx && b.y - a.y == -dy);
    assert(g * dx + g * (-dx) == 0 && g * dy + g * (-dy) == 0) by (nonlinear_arith);
    if n > 0 {
        lemma_root_quotient_odd(g * dx, g * (-dx), n);
        lemma_root_quotient_odd(g * dy, g * (-dy), n);
    }
}

/// Quotients of opposite numbers are opposite.
proof fn lemma_root_quotient_odd(a: int, b: int, n: nat)
    requires
        n > 0,
        a + b == 0,
    ensures
        root_quotient(a, n) == -root_quotient(b, n),
{
    assert(a * a == b * b) by (nonlinear_arith)
        requires
            a + b == 0,
    ;
    if a == 0 {
        assert(a * a == 0) by (nonlinear_arith)
            requires
                a == 0,
        ;
        lemma_root_quotient_zero(a, n);
    }
}

/// Under a constant of size two or more, participants at different places
/// feel each other: at least one component of the force is not zero.
pub proof fn lemma_force_is_felt(me: Position, other: Position, g: int)
    requires
        me != other,
        g >= 2 || g <= -2,
    ensures
        pair_force(me, other, g) != Vector::zero(),
{
    let n = distance_squared(me, other);
    let dx = me.x - other.x;
    let dy = me.y - other.y;
    lemma_distance_squared(me, other);
    lemma_root_quotient_zero(g * dx, n);
    lemma_root_quotient_zero(g * dy, n);
    // The longer of the two displacements, doubled, is longer than the distance.
    assert((g * dx) * (g * dx) >= n || (g * dy) * (g * dy) >= n) by (nonlinear_arith)
        requires
            n == dx * dx + dy * dy,
            g >= 2 || g <= -2,
    ;
}

/// A participant adds nothing to the force on itself: the sum over a set
/// that holds `me` at index `i` is the sum over the others alone.
pub proof fn lemma_net_force_skips_self(me: Position, all: Seq<Position>, i: int, g: int)
    requires
        0 <= i < all.len(),
        all[i] == me,
    ensures
        net_force(me, all, g) == net_force(me, all.remove(i), g),
    decreases all.len(),
{
    let last = all.len() - 1;
    if i == last {
        lemma_no_force_at_zero_distance(me, all.last(), g);
        assert(all.remove(i) == all.drop_last());
    } else {
        lemma_net_force_skips_self(me, all.drop_last(), i, g);
        assert(all.remove(i).drop_last() == all.drop_last().remove(i));
        assert(all.remove(i).last() == all.last());
    }
}

/// In a step of two participants each is moved by the force of the other
/// alone, and the two displacements are opposite.
pub proof fn lemma_two_body_forces(a: Position, b: Position, g: int)
    ensures
        net_force(a, seq![a, b], g) == pair_force(a, b, g),
        net_force(b, seq![a, b], g) == pair_force(b, a, g),
        net_force(a, seq![a, b], g) == net_force(b, seq![a, b], g).negated(),
{
    let both = seq![a, b];
    lemma_net_force_skips_self(a, both, 0, g);
    lemma_net_force_skips_self(b, both, 1, g);
    assert(both.remove(0) == seq![b]);
    assert(both.remove(1) == seq![a]);
    lemma_net_force_of_one(a, b, g);
    lemma_net_force_of_one(b, a, g);
    lemma_pair_force_antisymmetric(a, b, g);
}

/// The force of a set of one is the force of its member.
pub proof fn lemma_net_force_of_one(me: Position, other: Position, g: int)
    ensures
        net_force(me, seq![other], g) == pair_force(me, other, g),
{
    let one = seq![other];
    assert(one.drop_last().len() == 0);
    assert(net_force(me, one.drop_last(), g) == Vector::zero());
    assert(one.last() == other);
}

/// One more participant among `others` changes the total force on `selves`
/// by the opposite of the force that `selves` exert on the newcomer.
proof fn lemma_total_force_with_one_more(
    selves: Seq<Position>,
    others: Seq<Position>,
    newcomer: Position,
    g: int,
)
    ensures
        total_force(selves, others.push(newcomer), g) == total_force(selves, others, g).plus(
            net_force(newcomer, selves, g).negated(),
        ),
    decreases selves.len(),
{
    let more = others.push(newcomer);
    assert(more.drop_last() == others);
    assert(more.last() == newcomer);
    if selves.len() > 0 {
        let me = selves.last();
        lemma_total_force_with_one_more(selves.drop_last(), others, newcomer, g);
        lemma_pair_force_antisymmetric(me, newcomer, g);
    }
}

/// In a set of participants that act on one another the forces cancel:
/// summed over all of them, the net forces are zero.
pub proof fn lemma_forces_cancel(all: Seq<Position>, g: int)
    ensures
        total_force(all, all, g) == Vector::zero(),
    decreases all.len(),
{
    if all.len() > 0 {
        let rest = all.drop_last();
        let me = all.last();
        assert(rest.push(me) == all);
        lemma_forces_cancel(rest, g);
        lemma_total_force_with_one_more(rest, rest, me, g);
        lemma_no_force_at_zero_distance(me, me, g);
    }
}

/// A force that is not zero moves a position, unless the position is pinned
/// at an end of the coordinate range.
pub proof fn lemma_displaced_moves(p: Position, f: Vector)
    requires
        f != Vector::zero(),
        i32::MIN <= p.x + f.x <= i32::MAX,
        i32::MIN <= p.y + f.y <= i32::MAX,
    ensures
        displaced(p, f) != p,
{
}

/// After one step of two participants at different places, under a constant
/// of size two or more and away from the ends of the coordinate range, both
/// have moved, and each has moved by the opposite of what the other has.
pub proof fn lemma_two_body_step_moves_both(a: Position, b: Position, g: int)
    requires
        a != b,
        g >= 2 || g <= -2,
        i32::MIN <= a.x + pair_force(a, b, g).x <= i32::MAX,
        i32::MIN <= a.y + pair_force(a, b, g).y <= i32::MAX,
        i32::MIN <= b.x + pair_force(b, a, g).x <= i32::MAX,
        i32::MIN <= b.y + pair_force(b, a, g).y <= i32::MAX,
    ensures
        stepped(seq![a, b], seq![a, b], g)[0] != a,
        stepped(seq![a, b], seq![a, b], g)[1] != b,
        stepped(seq![a, b], seq![a, b], g)[0].x - a.x == -(stepped(seq![a, b], seq![a, b], g)[1].x
            - b.x),
        stepped(seq![a, b], seq![a, b], g)[0].y - a.y == -(stepped(seq![a, b], seq![a, b], g)[1].y
            - b.y),
{
    lemma_two_body_forces(a, b, g);
    lemma_force_is_felt(a, b, g);
    lemma_force_is_felt(b, a, g);
    lemma_displaced_moves(a, pair_force(a, b, g));
    lemma_displaced_moves(b, pair_force(b, a, g));
}

/// Computes the force that `other` exerts on `me`.
pub fn force_between(me: Position, other: Position, g: i32) -> (f: Force)
    ensures
        f@ == pair_force(me, other, g as int),
        me == other ==> f == (Force { x: 0, y: 0 }),
{
    let dx: i128 = me.x as i128 - other.x as i128;
    let dy: i128 = me.y as i128 - other.y as i128;
    proof {
        lemma_no_force_at_zero_distance(me, other, g as int);
        lemma_square_bound(dx as int);
        lemma_square_bound(dy as int);
    }
    let n: u128 = (dx * dx + dy * dy) as u128;
    if n > 0 {
        Force { x: component(g, dx, n), y: component(g, dy, n) }
    } else {
        Force { x: 0, y: 0 }
    }
}

/// Computes one component of a force: `g` times the displacement `c` along
/// that axis, divided by the root of the squared distance `n`.
fn component(g: i32, c: i128, n: u128) -> (q: i128)
    requires
        -0x1_0000_0000 < c < 0x1_0000_0000,
        n > 0,
    ensures
        q == root_quotient(g * c, n as nat),
{
    proof {
        lemma_product_bound(g as int, c as int);
    }
    let a: i128 = g as i128 * c;
    let size = isqrt((a * a) as u128 / n);
    if a >= 0 {
        size as i128
    } else {
        -(size as i128)
    }
}

/// Computes the sum of the forces that all of `others` exert on `me`.
pub fn net_force_on(me: Position, others: &Vec<Position>, g: i32) -> (f: Force)
    ensures
        f@ == net_force(me, others@, g as int),
{
    let mut total = Force { x: 0, y: 0 };
    let mut j: usize = 0;
    while j < others.len()
        invariant
            j <= others.len(),
            total@ == net_force(me, others@.take(j as int), g as int),
            -(j * force_limit()) <= total.x <= j * force_limit(),
            -(j * force_limit()) <= total.y <= j * force_limit(),
        decreases others.len() - j,
    {
        let f = force_between(me, others[j], g);
        proof {
            lemma_pair_force_bounded(me, others@[j as int], g as int);
            assert(others@.take(j + 1).drop_last() == others@.take(j as int));
        }
        total = Force { x: total.x + f.x, y: total.y + f.y };
        j += 1;
    }
    assert(others@.take(j as int) == others@);
    total
}

/// Moves every position of `selves` by the force that `others` exert on it.
/// `others` is not changed, so every force is taken from the positions as
/// they stood before the call.
pub fn apply_forces(selves: &mut Vec<Position>, others: &Vec<Position>, g: i32)
    ensures
        final(selves)@ == stepped(old(selves)@, others@, g as int),
{
    let mut i: usize = 0;
    while i < selves.len()
        invariant
            i <= selves.len(),
            selves.len() == old(selves).len(),
            forall|k: int| 0 <= k < i ==> selves@[k] == #[trigger] stepped(old(selves)@, others@, g as int)[k],
            forall|k: int| i <= k < selves.len() ==> selves@[k] == old(selves)@[k],
        decreases selves.len() - i,
    {
        let me = selves[i];
        let f = net_force_on(me, others, g);
        selves.set(i, me.displace(f));
        i += 1;
    }
    assert(selves@ =~= stepped(old(selves)@, others@, g as int));
}

/// Runs one step on a set of participants that act on one another: every
/// participant is moved by the sum of the forces of all of them, taken from
/// the positions as they stood before the step.
pub fn pairwise_force_step(positions: &mut Vec<Position>, g: i32)
    ensures
        final(positions)@ == stepped(old(positions)@, old(positions)@, g as int),
        forall|i: int|
            0 <= i < old(positions)@.len() ==> #[trigger] final(positions)@[i] == displaced(
                old(positions)@[i],
                net_force(old(positions)@[i], old(positions)@.remove(i), g as int),
            ),
{
    let mut moved: Vec<Position> = Vec::new();
    let mut i: usize = 0;
    while i < positions.len()
        invariant
            i <= positions.len(),
            *positions == *old(positions),
            moved.len() == i,
            forall|k: int| 0 <= k < i ==> moved@[k] == #[trigger] stepped(positions@, positions@, g as int)[k],
        decreases positions.len() - i,
    {
        let me = positions[i];
        let f = net_force_on(me, positions, g);
        moved.push(me.displace(f));
        i += 1;
    }
    proof {
        assert(moved@ =~= stepped(positions@, positions@, g as int));
        assert forall|i: int| 0 <= i < positions@.len() implies #[trigger] moved@[i] == displaced(
            positions@[i],
            net_force(positions@[i], positions@.remove(i), g as int),
        ) by {
            lemma_net_force_skips_self(positions@[i], positions@, i, g as int);
        }
    }
    *positions = moved;
}

} // verus!
