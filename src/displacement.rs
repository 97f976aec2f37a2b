//! The search for the shortest nonzero net displacement over all move sequences
//! of a given length.

use crate::enumerate::{all_sequences, listing_fits, sequence_at, sequence_count, views_of};
use crate::moves::{
    all_moves_valid, check_for_inverses, has_cancelling_pair, lemma_net_bounded, net,
    net_displacement, step_bound, GaussInt,
};
use vstd::prelude::*;

verus! {

/// The winner of a displacement search: the parameters, the net displacement
/// reached and the sequence of encoded moves that reaches it.
#[derive(Debug)]
pub struct DispAndMoves {
    pub a: i32,
    pub b: i32,
    pub displacement: GaussInt,
    pub moves: Vec<u8>,
}

impl DispAndMoves {
    pub fn new(a: i32, b: i32, displacement: GaussInt, moves: Vec<u8>) -> (r: DispAndMoves)
        ensures
            r.a == a,
            r.b == b,
            r.displacement == displacement,
            r.moves@ == moves@,
    {
        DispAndMoves { a, b, displacement, moves }
    }
}

pub open spec fn norm_sqr(p: (int, int)) -> int {
    p.0 * p.0 + p.1 * p.1
}

/// A sequence that the search may answer with: no listed inverse pair in it, and
/// a nonzero net displacement.
pub open spec fn is_candidate(s: Seq<u8>, a: int, b: int) -> bool {
    !has_cancelling_pair(s) && net(s, a, b) != (0int, 0int)
}

/// `list[i]` is a candidate of least squared displacement, and no candidate
/// before it is as short.
pub open spec fn is_first_minimal(list: Seq<Seq<u8>>, i: int, a: int, b: int) -> bool {
    &&& 0 <= i < list.len()
    &&& is_candidate(list[i], a, b)
    &&& forall|j: int|
        0 <= j < list.len() && is_candidate(#[trigger] list[j], a, b) ==> norm_sqr(net(list[j], a, b))
            >= norm_sqr(net(list[i], a, b))
    &&& forall|j: int|
        0 <= j < i && is_candidate(#[trigger] list[j], a, b) ==> norm_sqr(net(list[j], a, b))
            > norm_sqr(net(list[i], a, b))
}

/// `r` is what a search over `list` answers: nothing when `list` holds no
/// candidate, else the first candidate of least squared displacement.
pub open spec fn is_search_result(list: Seq<Seq<u8>>, a: int, b: int, r: Option<DispAndMoves>) -> bool {
    match r {
        None => forall|i: int| 0 <= i < list.len() ==> !is_candidate(#[trigger] list[i], a, b),
        Some(d) => {
            &&& d.a == a
            &&& d.b == b
            &&& exists|i: int|
                #[trigger] is_first_minimal(list, i, a, b) && d.moves@ == list[i]
                    && d.displacement@ == net(list[i], a, b)
        },
    }
}

/// All move sequences of length `steps`, in lexicographic order.
pub open spec fn move_sequences(steps: nat) -> Seq<Seq<u8>> {
    Seq::new(sequence_count(8, steps), |i: int| sequence_at(8, i as nat, steps))
}

/// Every element of `list` is a sequence of encoded moves short enough for its
/// walk to stay within `i32`.
pub open spec fn walks_fit(list: Seq<Seq<u8>>, a: int, b: int) -> bool {
    forall|i: int|
        0 <= i < list.len() ==> all_moves_valid(#[trigger] list[i]) && list[i].len() * step_bound(a, b)
            <= i32::MAX
}

/// A sequence from the lexicographic listing has the listed length and only letters
/// of the alphabet.
pub proof fn lemma_sequence_at_shape(base: nat, index: nat, len: nat)
    requires
        0 < base <= 256,
    ensures
        sequence_at(base, index, len).len() == len,
        forall|k: int| 0 <= k < len ==> #[trigger] sequence_at(base, index, len)[k] < base,
    decreases len,
{
    if len > 0 {
        lemma_sequence_at_shape(base, index / base, (len - 1) as nat);
        let s = sequence_at(base, index, len);
        assert(index % base < base);
        assert forall|k: int| 0 <= k < len implies #[trigger] s[k] < base by {
            if k < len - 1 {
                assert(s[k] == sequence_at(base, index / base, (len - 1) as nat)[k]);
            }
        }
    }
}

/// Squared magnitude of a point whose coordinates are above `i32::MIN`.
fn norm_sqr_of(p: GaussInt) -> (r: i64)
    requires
        p.re > i32::MIN,
        p.im > i32::MIN,
    ensures
        r == norm_sqr(p@),
{
    let x: i64 = p.re as i64;
    let y: i64 = p.im as i64;
    assert(x * x <= 0x3fff_ffff_0000_0001) by (nonlinear_arith)
        requires -0x8000_0000 < x < 0x8000_0000;
    assert(y * y <= 0x3fff_ffff_0000_0001) by (nonlinear_arith)
        requires -0x8000_0000 < y < 0x8000_0000;
    assert(x * x >= 0 && y * y >= 0) by (nonlinear_arith);
    x * x + y * y
}

/// The first candidate of least squared displacement in `candidates`, if any.
pub fn best_displacement(candidates: &Vec<Vec<u8>>, a: i32, b: i32) -> (r: Option<DispAndMoves>)
    requires
        walks_fit(views_of(candidates@), a as int, b as int),
    ensures
        is_search_result(views_of(candidates@), a as int, b as int, r),
{
    let ghost list = views_of(candidates@);
    let mut found: bool = false;
    let mut best_idx: usize = 0;
    let mut best_disp: GaussInt = GaussInt::new(0, 0);
    let mut best_norm: i64 = 0;
    let mut i: usize = 0;
    while i < candidates.len()
        invariant
            list == views_of(candidates@),
            walks_fit(list, a as int, b as int),
            i <= candidates@.len(),
            !found ==> forall|j: int| 0 <= j < i ==> !is_candidate(#[trigger] list[j], a as int, b as int),
            found ==> {
                &&& best_idx < i
                &&& is_candidate(list[best_idx as int], a as int, b as int)
                &&& best_disp@ == net(list[best_idx as int], a as int, b as int)
                &&& best_norm == norm_sqr(best_disp@)
                &&& forall|j: int|
                    0 <= j < i && is_candidate(#[trigger] list[j], a as int, b as int) ==> norm_sqr(
                        net(list[j], a as int, b as int),
                    ) >= best_norm
                &&& forall|j: int|
                    0 <= j < best_idx && is_candidate(#[trigger] list[j], a as int, b as int)
                        ==> norm_sqr(net(list[j], a as int, b as int)) > best_norm
            },
        decreases candidates.len() - i,
    {
        let moves = &candidates[i];
        assert(list[i as int] == moves@);
        if !check_for_inverses(moves.as_slice()) {
            let res = net_displacement(moves.as_slice(), a, b);
            if res.re != 0 || res.im != 0 {
                proof {
                    lemma_net_bounded(moves@, a as int, b as int);
                }
                let n = norm_sqr_of(res);
                if !found || n < best_norm {
                    found = true;
                    best_idx = i;
                    best_disp = res;
                    best_norm = n;
                }
            }
        }
        i = i + 1;
    }
    if found {
        let moves = candidates[best_idx].clone();
        assert(moves@ =~= list[best_idx as int]);
        let r = DispAndMoves::new(a, b, best_disp, moves);
        assert(is_first_minimal(list, best_idx as int, a as int, b as int));
        Some(r)
    } else {
        None
    }
}

/// The shortest nonzero net displacement over all sequences of `steps` moves that
/// hold no inverse pair; of equally short ones, the first in lexicographic order.
/// `None` when there is no such sequence (as for `steps == 0`).
pub fn get_min_displacement(a: i32, b: i32, steps: usize) -> (r: Option<DispAndMoves>)
    requires
        steps * step_bound(a as int, b as int) <= i32::MAX,
        listing_fits(sequence_count(8, steps as nat)),
    ensures
        is_search_result(move_sequences(steps as nat), a as int, b as int, r),
        r matches Some(d) ==> d.moves@.len() == steps && !has_cancelling_pair(d.moves@)
            && d.displacement@ != (0int, 0int) && d.displacement@ == net(d.moves@, a as int, b as int),
{
    let seqs = all_sequences(8, steps);
    let ghost list = views_of(seqs@);
    assert(list =~= move_sequences(steps as nat));
    assert forall|i: int| 0 <= i < list.len() implies all_moves_valid(#[trigger] list[i])
        && list[i].len() * step_bound(a as int, b as int) <= i32::MAX by {
        lemma_sequence_at_shape(8, i as nat, steps as nat);
    }
    let r = best_displacement(&seqs, a, b);
    proof {
        if r is Some {
            let d = r->Some_0;
            let i = choose|i: int|
                #[trigger] is_first_minimal(list, i, a as int, b as int) && d.moves@ == list[i]
                    && d.displacement@ == net(list[i], a as int, b as int);
            lemma_sequence_at_shape(8, i as nat, steps as nat);
        }
    }
    r
}

/// With no moves there is nothing to answer: the search over sequences of length
/// zero finds no candidate.
pub proof fn lemma_no_steps_no_candidate(a: int, b: int, r: Option<DispAndMoves>)
    requires
        is_search_result(move_sequences(0), a, b, r),
    ensures
        r is None,
{
    let list = move_sequences(0);
    assert(list.len() == 1);
    assert(list[0] == Seq::<u8>::empty());
    if let Some(d) = r {
        let i = choose|i: int|
            #[trigger] is_first_minimal(list, i, a, b) && d.moves@ == list[i] && d.displacement@ == net(
                list[i],
                a,
                b,
            );
        assert(i == 0);
        assert(net(list[0], a, b) == (0int, 0int));
    }
}

/// A search answers the same, field for field, whenever it is run on the same
/// listing and parameters.
pub proof fn lemma_search_result_unique(
    list: Seq<Seq<u8>>,
    a: int,
    b: int,
    r1: Option<DispAndMoves>,
    r2: Option<DispAndMoves>,
)
    requires
        is_search_result(list, a, b, r1),
        is_search_result(list, a, b, r2),
    ensures
        r1 is None <==> r2 is None,
        r1 matches Some(d1) ==> r2 matches Some(d2) && d1.a == d2.a && d1.b == d2.b
            && d1.displacement == d2.displacement && d1.moves@ == d2.moves@,
{
    if let Some(d1) = r1 {
        let i1 = choose|i: int|
            #[trigger] is_first_minimal(list, i, a, b) && d1.moves@ == list[i] && d1.displacement@
                == net(list[i], a, b);
        if let Some(d2) = r2 {
            let i2 = choose|i: int|
                #[trigger] is_first_minimal(list, i, a, b) && d2.moves@ == list[i] && d2.displacement@
                    == net(list[i], a, b);
            assert(i1 == i2) by {
                assert(is_candidate(list[i1], a, b));
                assert(is_candidate(list[i2], a, b));
            }
        } else {
            assert(is_candidate(list[i1], a, b));
        }
    } else if let Some(d2) = r2 {
        let i2 = choose|i: int|
            #[trigger] is_first_minimal(list, i, a, b) && d2.moves@ == list[i] && d2.displacement@
                == net(list[i], a, b);
        assert(is_candidate(list[i2], a, b));
    }
}

} // verus!
