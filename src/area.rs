//! The search for the ordering of a move sequence whose walk has the smallest
//! bounding rectangle.

use crate::bounding::{walk_area, walk_box, ComplexBox};
use crate::displacement::{walks_fit, DispAndMoves};
use crate::enumerate::{all_orderings, factorial, listing_fits, orderings_of, views_of};
use crate::moves::{
    all_moves_valid, lemma_move_vector_bounded, lemma_net_bounded, move_to_complex, net,
    step_bound, GaussInt,
};
use vstd::prelude::*;

verus! {

broadcast use vstd::seq_lib::group_to_multiset_ensures;

/// `list[i]` has the least walk area in `list`, and every ordering before it has
/// a larger one.
pub open spec fn is_first_least_area(list: Seq<Seq<u8>>, i: int, a: int, b: int) -> bool {
    &&& 0 <= i < list.len()
    &&& forall|j: int| 0 <= j < list.len() ==> walk_area(#[trigger] list[j], a, b) >= walk_area(list[i], a, b)
    &&& forall|j: int| 0 <= j < i ==> walk_area(#[trigger] list[j], a, b) > walk_area(list[i], a, b)
}

/// The net displacement of two sequences one after the other is the sum of theirs.
pub proof fn lemma_net_append(s: Seq<u8>, t: Seq<u8>, a: int, b: int)
    ensures
        net(s + t, a, b) == (net(s, a, b).0 + net(t, a, b).0, net(s, a, b).1 + net(t, a, b).1),
    decreases t.len(),
{
    if t.len() == 0 {
        assert(s + t =~= s);
    } else {
        lemma_net_append(s, t.drop_last(), a, b);
        assert((s + t).drop_last() =~= s + t.drop_last());
    }
}

/// Walking the same moves in another order ends at the same point.
pub proof fn lemma_reorder_keeps_net(s: Seq<u8>, t: Seq<u8>, a: int, b: int)
    requires
        s.to_multiset() == t.to_multiset(),
    ensures
        net(s, a, b) == net(t, a, b),
    decreases s.len(),
{
    if s.len() == 0 {
        s.to_multiset_ensures();
        t.to_multiset_ensures();
        assert(t.len() == 0);
        assert(t =~= s);
    } else {
        let x = s.last();
        let s1 = s.drop_last();
        assert(s1.push(x) =~= s);
        assert(s.contains(x));
        assert(t.to_multiset().count(x) > 0);
        assert(t.contains(x));
        let j = choose|j: int| 0 <= j < t.len() && t[j] == x;
        let t1 = t.remove(j);
        assert(s1.to_multiset() =~= t1.to_multiset());
        lemma_reorder_keeps_net(s1, t1, a, b);
        let head = t.subrange(0, j);
        let tail = t.subrange(j + 1, t.len() as int);
        assert(t1 =~= head + tail);
        assert(t =~= head + (seq![x] + tail));
        lemma_net_append(head, tail, a, b);
        lemma_net_append(head, seq![x] + tail, a, b);
        lemma_net_append(seq![x], tail, a, b);
        assert(seq![x].drop_last() =~= Seq::<u8>::empty());
        assert(net(seq![x].drop_last(), a, b) == (0int, 0int));
    }
}

/// Area of the bounding rectangle of the walk from the origin through `moves`.
pub fn path_area(moves: &[u8], a: i32, b: i32) -> (r: u64)
    requires
        all_moves_valid(moves@),
        moves@.len() * step_bound(a as int, b as int) <= i32::MAX,
    ensures
        r == walk_area(moves@, a as int, b as int),
{
    let mut c_box = ComplexBox::at_origin();
    let mut pos = GaussInt::new(0, 0);
    let mut i: usize = 0;
    while i < moves.len()
        invariant
            i <= moves@.len(),
            all_moves_valid(moves@),
            moves@.len() * step_bound(a as int, b as int) <= i32::MAX,
            pos@ == net(moves@.subrange(0, i as int), a as int, b as int),
            c_box@ == walk_box(moves@.subrange(0, i as int), a as int, b as int),
            c_box.wf(),
        decreases moves.len() - i,
    {
        proof {
            let next = moves@.subrange(0, i + 1);
            assert(next.drop_last() =~= moves@.subrange(0, i as int));
            lemma_net_bounded(next, a as int, b as int);
            lemma_move_vector_bounded(moves@[i as int] as int, a as int, b as int);
            assert((i + 1) * step_bound(a as int, b as int) <= moves@.len() * step_bound(a as int, b as int))
                by (nonlinear_arith)
                requires i + 1 <= moves@.len(), step_bound(a as int, b as int) >= 0;
            assert(step_bound(a as int, b as int) <= i32::MAX) by (nonlinear_arith)
                requires moves@.len() >= 1, moves@.len() * step_bound(a as int, b as int) <= i32::MAX,
                    step_bound(a as int, b as int) >= 0;
        }
        let v = move_to_complex(moves[i], a, b);
        pos = GaussInt::new(pos.re + v.re, pos.im + v.im);
        c_box.update_from_complex(pos);
        i = i + 1;
    }
    assert(moves@.subrange(0, moves@.len() as int) =~= moves@);
    c_box.get_area()
}

/// The first ordering of least walk area in `orderings`, with its area; `None`
/// when `orderings` is empty.
pub fn min_area_among(orderings: &Vec<Vec<u8>>, a: i32, b: i32) -> (r: Option<(Vec<u8>, u64)>)
    requires
        walks_fit(views_of(orderings@), a as int, b as int),
    ensures
        r is None <==> orderings@.len() == 0,
        r matches Some(p) ==> exists|i: int|
            #[trigger] is_first_least_area(views_of(orderings@), i, a as int, b as int)
                && p.0@ == orderings@[i]@ && p.1 == walk_area(orderings@[i]@, a as int, b as int),
{
    let ghost list = views_of(orderings@);
    if orderings.len() == 0 {
        return None;
    }
    let mut best_idx: usize = 0;
    assert(list[0] == orderings@[0]@);
    let mut min_area: u64 = path_area(orderings[0].as_slice(), a, b);
    let mut i: usize = 1;
    while i < orderings.len()
        invariant
            list == views_of(orderings@),
            walks_fit(list, a as int, b as int),
            1 <= i <= orderings@.len(),
            best_idx < i,
            min_area == walk_area(list[best_idx as int], a as int, b as int),
            forall|j: int| 0 <= j < i ==> walk_area(#[trigger] list[j], a as int, b as int) >= min_area,
            forall|j: int| 0 <= j < best_idx ==> walk_area(#[trigger] list[j], a as int, b as int) > min_area,
        decreases orderings.len() - i,
    {
        assert(list[i as int] == orderings@[i as int]@);
        let area = path_area(orderings[i].as_slice(), a, b);
        if area < min_area {
            min_area = area;
            best_idx = i;
        }
        i = i + 1;
    }
    let best = orderings[best_idx].clone();
    assert(best@ =~= orderings@[best_idx as int]@);
    assert(is_first_least_area(list, best_idx as int, a as int, b as int));
    Some((best, min_area))
}

/// The ordering of `lam.moves` whose walk has the smallest bounding rectangle, with
/// that area; of equal ones, the first in the order of `orderings_of`. `None` when
/// there are no moves.
pub fn get_min_rect_area(lam: &DispAndMoves, a: i32, b: i32) -> (r: Option<(Vec<u8>, u64)>)
    requires
        all_moves_valid(lam.moves@),
        lam.moves@.len() * step_bound(a as int, b as int) <= i32::MAX,
        listing_fits(factorial(lam.moves@.len())),
    ensures
        r is None <==> lam.moves@.len() == 0,
        r matches Some(p) ==> exists|i: int|
            #[trigger] is_first_least_area(orderings_of(lam.moves@), i, a as int, b as int)
                && p.0@ == orderings_of(lam.moves@)[i],
        r matches Some(p) ==> {
            &&& p.0@.to_multiset() == lam.moves@.to_multiset()
            &&& p.1 == walk_area(p.0@, a as int, b as int)
            &&& p.1 <= walk_area(lam.moves@, a as int, b as int)
            &&& net(p.0@, a as int, b as int) == net(lam.moves@, a as int, b as int)
        },
{
    if lam.moves.len() == 0 {
        return None;
    }
    let perms = all_orderings(&lam.moves);
    let ghost list = views_of(perms@);
    assert(list =~= orderings_of(lam.moves@));
    assert forall|i: int| 0 <= i < list.len() implies all_moves_valid(#[trigger] list[i])
        && list[i].len() * step_bound(a as int, b as int) <= i32::MAX by {
        assert(list[i] == perms@[i]@);
        assert(list[i].to_multiset() == lam.moves@.to_multiset());
        list[i].to_multiset_ensures();
        lam.moves@.to_multiset_ensures();
        assert(list[i].len() == lam.moves@.len());
        assert forall|k: int| 0 <= k < list[i].len() implies list[i][k] < 8 by {
            assert(list[i].contains(list[i][k]));
            assert(lam.moves@.to_multiset().count(list[i][k]) > 0);
            assert(lam.moves@.contains(list[i][k]));
        }
    }
    let r = min_area_among(&perms, a, b);
    proof {
        if r is Some {
            let p = r->Some_0;
            let i = choose|i: int|
                #[trigger] is_first_least_area(list, i, a as int, b as int) && p.0@ == perms@[i]@
                    && p.1 == walk_area(perms@[i]@, a as int, b as int);
            assert(list[i] == perms@[i]@);
            assert(list[0] == lam.moves@);
            assert(walk_area(list[0], a as int, b as int) >= p.1);
            lemma_reorder_keeps_net(p.0@, lam.moves@, a as int, b as int);
        }
    }
    r
}

} // verus!
