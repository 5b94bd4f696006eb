//! Frontier heuristic reorderer.
//!
//! Newly generated candidate moves are merged into the pending-work queue so
//! that moves of helper vehicles that can clear the exit vehicle's lane are
//! tried first and moves of vertical vehicles and of the exit vehicle itself
//! are tried last. The tie-break between the two front tiers is pinned down
//! exactly: rightward moves of non-exit vehicles come before leftward moves
//! of non-exit horizontal vehicles, and within each front tier the batch is
//! reversed (later candidates of the batch are tried first).

use std::collections::VecDeque;
use vstd::prelude::*;

use crate::state::State;

verus! {

/// Back tier: the pending move belongs to a vertically oriented vehicle.
pub open spec fn tier_back_v(s: State) -> bool {
    s.next_move.car.dir == 'V'
}

/// Front tier: a leftward move of a non-exit horizontal vehicle.
pub open spec fn tier_front_l(s: State) -> bool {
    &&& !tier_back_v(s)
    &&& s.next_move.car.dir == 'H'
    &&& s.next_move.car.id != 0
    &&& s.next_move.move_dir == 'L'
}

/// Front tier: a rightward move of any other non-exit vehicle.
pub open spec fn tier_front_r(s: State) -> bool {
    &&& !tier_back_v(s)
    &&& !tier_front_l(s)
    &&& s.next_move.car.id != 0
    &&& s.next_move.move_dir == 'R'
}

/// Back tier: everything else, the exit vehicle's own moves included.
pub open spec fn tier_back_rest(s: State) -> bool {
    !tier_back_v(s) && !tier_front_l(s) && !tier_front_r(s)
}

/// The members of the batch that land in the rightward front tier.
pub open spec fn sel_front_r(new: Seq<State>) -> Seq<State> {
    new.filter(|s: State| tier_front_r(s))
}

/// The members of the batch that land in the leftward front tier.
pub open spec fn sel_front_l(new: Seq<State>) -> Seq<State> {
    new.filter(|s: State| tier_front_l(s))
}

/// The members of the batch that land in the vertical back tier.
pub open spec fn sel_back_v(new: Seq<State>) -> Seq<State> {
    new.filter(|s: State| tier_back_v(s))
}

/// The members of the batch that land in the residual back tier.
pub open spec fn sel_back_rest(new: Seq<State>) -> Seq<State> {
    new.filter(|s: State| tier_back_rest(s))
}

/// The next pending-work queue: the reversed rightward front tier, then the
/// reversed leftward front tier, then the old queue, then the vertical back
/// tier and the residual back tier in batch order.
pub open spec fn reorder(old: Seq<State>, new: Seq<State>) -> Seq<State> {
    sel_front_r(new).reverse() + sel_front_l(new).reverse() + old + sel_back_v(new)
        + sel_back_rest(new)
}

pub proof fn lemma_sel_front_r_push(s: Seq<State>, x: State)
    ensures
        sel_front_r(s.push(x)) == if tier_front_r(x) {
            sel_front_r(s).push(x)
        } else {
            sel_front_r(s)
        },
{
    reveal_with_fuel(Seq::<State>::filter, 2);
    assert(s.push(x).drop_last() =~= s);
}

pub proof fn lemma_sel_front_l_push(s: Seq<State>, x: State)
    ensures
        sel_front_l(s.push(x)) == if tier_front_l(x) {
            sel_front_l(s).push(x)
        } else {
            sel_front_l(s)
        },
{
    reveal_with_fuel(Seq::<State>::filter, 2);
    assert(s.push(x).drop_last() =~= s);
}

pub proof fn lemma_sel_back_v_push(s: Seq<State>, x: State)
    ensures
        sel_back_v(s.push(x)) == if tier_back_v(x) {
            sel_back_v(s).push(x)
        } else {
            sel_back_v(s)
        },
{
    reveal_with_fuel(Seq::<State>::filter, 2);
    assert(s.push(x).drop_last() =~= s);
}

pub proof fn lemma_sel_back_rest_push(s: Seq<State>, x: State)
    ensures
        sel_back_rest(s.push(x)) == if tier_back_rest(x) {
            sel_back_rest(s).push(x)
        } else {
            sel_back_rest(s)
        },
{
    reveal_with_fuel(Seq::<State>::filter, 2);
    assert(s.push(x).drop_last() =~= s);
}

/// Merge the freshly generated batch `new_states` into the pending queue
/// `old_states` according to the tier policy of [`reorder`].
pub fn heueristics(old_states: VecDeque<State>, new_states: VecDeque<State>) -> (r: VecDeque<
    State,
>)
    ensures
        r@ == reorder(old_states@, new_states@),
{
    let mut old_states = old_states;
    let mut new_states = new_states;
    let ghost new0 = new_states@;
    let ghost old0 = old_states@;
    let mut front_r: VecDeque<State> = VecDeque::new();
    let mut front_l: VecDeque<State> = VecDeque::new();
    let mut back_v: VecDeque<State> = VecDeque::new();
    let mut back_rest: VecDeque<State> = VecDeque::new();
    let ghost mut k: int = 0;
    while new_states.len() > 0
        invariant
            0 <= k <= new0.len(),
            new_states@ == new0.skip(k),
            old_states@ == old0,
            front_r@ == sel_front_r(new0.take(k)).reverse(),
            front_l@ == sel_front_l(new0.take(k)).reverse(),
            back_v@ == sel_back_v(new0.take(k)),
            back_rest@ == sel_back_rest(new0.take(k)),
        decreases new0.len() - k,
    {
        let popped = new_states.pop_front();
        let st = popped.unwrap();
        proof {
            assert(st == new0[k]);
            assert(new0.take(k + 1) =~= new0.take(k).push(st));
            lemma_sel_front_r_push(new0.take(k), st);
            lemma_sel_front_l_push(new0.take(k), st);
            lemma_sel_back_v_push(new0.take(k), st);
            lemma_sel_back_rest_push(new0.take(k), st);
            assert(sel_front_r(new0.take(k)).push(st).reverse() =~= seq![st] + sel_front_r(
                new0.take(k),
            ).reverse());
            assert(sel_front_l(new0.take(k)).push(st).reverse() =~= seq![st] + sel_front_l(
                new0.take(k),
            ).reverse());
        }
        if st.next_move.car.dir == 'V' {
            back_v.push_back(st);
        } else if st.next_move.car.dir == 'H' && st.next_move.car.id != 0
            && st.next_move.move_dir == 'L' {
            front_l.push_front(st);
        } else if st.next_move.car.id != 0 && st.next_move.move_dir == 'R' {
            front_r.push_front(st);
        } else {
            back_rest.push_back(st);
        }
        proof {
            assert(new0.skip(k + 1) =~= new0.skip(k).subrange(1, new0.skip(k).len() as int));
            k = k + 1;
        }
    }
    proof {
        assert(new0.take(k) =~= new0);
    }
    let mut r = front_r;
    r.append(&mut front_l);
    r.append(&mut old_states);
    r.append(&mut back_v);
    r.append(&mut back_rest);
    proof {
        assert(r@ =~= reorder(old0, new0));
    }
    r
}

} // verus!
