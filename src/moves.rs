//! The eight encoded moves of a leaper, their vectors, and the inverse-pair filter.

use vstd::prelude::*;

verus! {

/// A point of the integer lattice, read as the Gaussian integer `re + im·i`.
#[derive(Clone, Copy, Debug, PartialEq, Eq, Structural)]
pub struct GaussInt {
    pub re: i32,
    pub im: i32,
}

impl GaussInt {
    pub open spec fn view(self) -> (int, int) {
        (self.re as int, self.im as int)
    }

    pub fn new(re: i32, im: i32) -> (r: GaussInt)
        ensures
            r.re == re,
            r.im == im,
    {
        GaussInt { re, im }
    }
}

pub open spec fn abs(x: int) -> int {
    if x < 0 {
        -x
    } else {
        x
    }
}

/// Largest absolute coordinate that any single move can contribute.
pub open spec fn step_bound(a: int, b: int) -> int {
    abs(a) + abs(b)
}

/// The vector of encoded move `mv` (in `0..8`): the base `(a, ±b)`, with `-b` when
/// `mv / 4 == 1`, turned by a quarter turn `mv % 4` times counter-clockwise.
pub open spec fn move_vector(mv: int, a: int, b: int) -> (int, int) {
    let y = if mv / 4 == 0 {
        b
    } else {
        -b
    };
    let m = mv % 4;
    if m == 0 {
        (a, y)
    } else if m == 1 {
        (-y, a)
    } else if m == 2 {
        (-a, -y)
    } else {
        (y, -a)
    }
}

/// Sum of the vectors of all moves of `s`.
pub open spec fn net(s: Seq<u8>, a: int, b: int) -> (int, int)
    decreases s.len(),
{
    if s.len() == 0 {
        (0, 0)
    } else {
        let p = net(s.drop_last(), a, b);
        let v = move_vector(s.last() as int, a, b);
        (p.0 + v.0, p.1 + v.1)
    }
}

/// Every element of `s` is an encoded move.
pub open spec fn all_moves_valid(s: Seq<u8>) -> bool {
    forall|i: int| 0 <= i < s.len() ==> s[i] < 8
}

/// The `k`-th listed inverse pair, `k` in `0..4`.
pub open spec fn inverse_pair(k: int) -> (u8, u8) {
    if k == 0 {
        (0, 2)
    } else if k == 1 {
        (1, 3)
    } else if k == 2 {
        (4, 6)
    } else {
        (5, 7)
    }
}

/// `s` holds both moves of some listed inverse pair, wherever they stand.
pub open spec fn has_cancelling_pair(s: Seq<u8>) -> bool {
    exists|k: int| 0 <= k < 4 && s.contains(#[trigger] inverse_pair(k).0) && s.contains(inverse_pair(k).1)
}

/// The two moves of each listed inverse pair are exact opposites, whatever `a` and `b` are.
pub proof fn lemma_inverse_pairs_cancel(k: int, a: int, b: int)
    requires
        0 <= k < 4,
    ensures
        move_vector(inverse_pair(k).0 as int, a, b).0 + move_vector(inverse_pair(k).1 as int, a, b).0 == 0,
        move_vector(inverse_pair(k).0 as int, a, b).1 + move_vector(inverse_pair(k).1 as int, a, b).1 == 0,
{
}

/// Each coordinate of a move's vector is bounded by `|a| + |b|`.
pub proof fn lemma_move_vector_bounded(mv: int, a: int, b: int)
    ensures
        abs(move_vector(mv, a, b).0) <= step_bound(a, b),
        abs(move_vector(mv, a, b).1) <= step_bound(a, b),
{
}

/// Each coordinate of the net displacement of `s` is bounded by `|s| (|a| + |b|)`.
pub proof fn lemma_net_bounded(s: Seq<u8>, a: int, b: int)
    ensures
        abs(net(s, a, b).0) <= s.len() * step_bound(a, b),
        abs(net(s, a, b).1) <= s.len() * step_bound(a, b),
    decreases s.len(),
{
    if s.len() > 0 {
        lemma_net_bounded(s.drop_last(), a, b);
        lemma_move_vector_bounded(s.last() as int, a, b);
        assert(s.len() * step_bound(a, b) == (s.len() - 1) * step_bound(a, b) + step_bound(a, b))
            by (nonlinear_arith);
    }
}

/// The vector of an encoded move, as a Gaussian integer.
pub fn move_to_complex(move_: u8, a: i32, b: i32) -> (r: GaussInt)
    requires
        move_ < 8,
        a > i32::MIN,
        b > i32::MIN,
    ensures
        r@ == move_vector(move_ as int, a as int, b as int),
{
    let n: u8 = move_ / 4;
    let m: u8 = move_ % 4;
    let y: i32 = if n == 0 {
        b
    } else {
        -b
    };
    if m == 0 {
        GaussInt::new(a, y)
    } else if m == 1 {
        GaussInt::new(-y, a)
    } else if m == 2 {
        GaussInt::new(-a, -y)
    } else {
        GaussInt::new(y, -a)
    }
}

fn contains_move(moves: &[u8], target: u8) -> (r: bool)
    ensures
        r == moves@.contains(target),
{
    let mut i: usize = 0;
    while i < moves.len()
        invariant
            i <= moves@.len(),
            forall|j: int| 0 <= j < i ==> moves@[j] != target,
        decreases moves.len() - i,
    {
        if moves[i] == target {
            return true;
        }
        i = i + 1;
    }
    false
}

fn inverse_pair_at(k: usize) -> (r: (u8, u8))
    requires
        k < 4,
    ensures
        r == inverse_pair(k as int),
{
    if k == 0 {
        (0, 2)
    } else if k == 1 {
        (1, 3)
    } else if k == 2 {
        (4, 6)
    } else {
        (5, 7)
    }
}

/// Checks whether a sequence of moves holds both moves of some inverse pair
/// (anywhere in it): such a sequence could be shortened without changing where it ends.
pub fn check_for_inverses(moves: &[u8]) -> (r: bool)
    ensures
        r == has_cancelling_pair(moves@),
{
    let mut k: usize = 0;
    while k < 4
        invariant
            k <= 4,
            forall|j: int|
                0 <= j < k ==> !(moves@.contains(#[trigger] inverse_pair(j).0) && moves@.contains(
                    inverse_pair(j).1,
                )),
        decreases 4 - k,
    {
        let (p, q) = inverse_pair_at(k);
        if contains_move(moves, p) && contains_move(moves, q) {
            return true;
        }
        k = k + 1;
    }
    false
}

/// Net displacement of a sequence of moves.
pub fn net_displacement(moves: &[u8], a: i32, b: i32) -> (r: GaussInt)
    requires
        all_moves_valid(moves@),
        moves@.len() * step_bound(a as int, b as int) <= i32::MAX,
    ensures
        r@ == net(moves@, a as int, b as int),
{
    let mut x: i32 = 0;
    let mut y: i32 = 0;
    let mut i: usize = 0;
    while i < moves.len()
        invariant
            i <= moves@.len(),
            all_moves_valid(moves@),
            moves@.len() * step_bound(a as int, b as int) <= i32::MAX,
            (x as int, y as int) == net(moves@.subrange(0, i as int), a as int, b as int),
        decreases moves.len() - i,
    {
        proof {
            let pre = moves@.subrange(0, i as int);
            let next = moves@.subrange(0, i + 1);
            assert(next.drop_last() =~= pre);
            lemma_net_bounded(next, a as int, b as int);
            lemma_move_vector_bounded(moves@[i as int] as int, a as int, b as int);
            assert((i + 1) * step_bound(a as int, b as int) <= moves@.len() * step_bound(a as int, b as int))
                by (nonlinear_arith)
                requires i + 1 <= moves@.len(), step_bound(a as int, b as int) >= 0;
            assert(step_bound(a as int, b as int) <= i32::MAX) by (nonlinear_arith)
                requires moves@.len() >= 1, moves@.len() * step_bound(a as int, b as int) <= i32::MAX,
                    step_bound(a as int, b as int) >= 0;
        }
        let v = move_to_complex(moves[i], a, b);
        x = x + v.re;
        y = y + v.im;
        i = i + 1;
    }
    assert(moves@.subrange(0, moves@.len() as int) =~= moves@);
    (GaussInt { re: x, im: y })
}

} // verus!
