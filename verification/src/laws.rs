//! Laws of the model: generated moves preserve well-formedness, steps are
//! never sideways, and the goal predicate depends only on the exit vehicle.

use vstd::prelude::*;

use crate::model::{
    aligned, car_wf, config_wf, occ, on_grid, overlap, shifted, spec_can_move, target_x, target_y,
    Car,
};
use crate::state::{
    apply_cm, first_with_id, legal_moves, lemma_first_with_id, lemma_first_with_id_unique,
    lemma_legal_moves_ok, move_applies, move_generated, spec_goal, CarMove,
};

verus! {

/// A vehicle never steps sideways: for any direction not aligned with its
/// orientation, the step is illegal in every configuration.
pub proof fn lemma_sideways_never_steps(cars: Seq<Car>, i: int, d: char)
    requires
        0 <= i < cars.len(),
        !aligned(cars[i], d),
    ensures
        !spec_can_move(cars[i], d, cars),
{
}

/// A cell occupied by a once-shifted vehicle was occupied by the vehicle
/// before the shift, or is the single cell beyond its old leading edge.
proof fn lemma_occ_shifted(c: Car, d: char, x: int, y: int)
    requires
        car_wf(c),
        aligned(c, d),
        occ(shifted(c, d), x, y),
    ensures
        occ(c, x, y) || (x == target_x(c, d) && y == target_y(c, d)),
{
}

/// A legal step keeps the stepping vehicle well formed.
proof fn lemma_shifted_wf(c: Car, d: char)
    requires
        car_wf(c),
        aligned(c, d),
        on_grid(target_x(c, d), target_y(c, d)),
    ensures
        car_wf(shifted(c, d)),
{
}

/// Applying an applicable move to a well-formed configuration yields a
/// well-formed configuration of the same length with the same identifiers in
/// the same places.
pub proof fn lemma_move_preserves_config_wf(cars: Seq<Car>, m: CarMove)
    requires
        config_wf(cars),
        move_applies(cars, m),
    ensures
        config_wf(apply_cm(cars, m)),
        apply_cm(cars, m).len() == cars.len(),
        forall|j: int| 0 <= j < cars.len() ==> (#[trigger] apply_cm(cars, m)[j]).id == cars[j].id,
{
    let i = first_with_id(cars, m.car.id);
    lemma_first_with_id(cars, m.car.id);
    let c = cars[i];
    let d = m.move_dir;
    let mc = shifted(c, d);
    lemma_shifted_wf(c, d);
    let new = apply_cm(cars, m);
    assert(new =~= cars.update(i, mc));
    assert forall|p: int, q: int|
        0 <= p < new.len() && 0 <= q < new.len() && p != q implies !overlap(
        #[trigger] new[p],
        #[trigger] new[q],
    ) by {
        if overlap(new[p], new[q]) {
            let (x, y) = choose|x: int, y: int| occ(new[p], x, y) && occ(new[q], x, y);
            if p == i || q == i {
                let o = if p == i {
                    q
                } else {
                    p
                };
                assert(occ(mc, x, y) && occ(cars[o], x, y));
                lemma_occ_shifted(c, d, x, y);
                if occ(c, x, y) {
                    assert(occ(cars[i], x, y) && occ(cars[o], x, y));
                    assert(overlap(cars[i], cars[o]));
                } else {
                    assert(cars[o].id != c.id);
                    assert(!occ(cars[o], target_x(c, d), target_y(c, d)));
                }
            } else {
                assert(occ(cars[p], x, y) && occ(cars[q], x, y));
                assert(overlap(cars[p], cars[q]));
            }
        }
    }
}

/// Applying any generated move to a well-formed configuration yields a
/// well-formed configuration: no two vehicles overlap and every vehicle stays
/// within the grid bounds.
pub proof fn lemma_generated_move_preserves_wf(cars: Seq<Car>, m: CarMove)
    requires
        config_wf(cars),
        move_generated(cars, m),
    ensures
        move_applies(cars, m),
        config_wf(apply_cm(cars, m)),
{
    let i = choose|i: int| 0 <= i < cars.len() && cars[i] == m.car;
    lemma_first_with_id_unique(cars, i);
    lemma_move_preserves_config_wf(cars, m);
}

/// Every move the generator returns, applied to the well-formed configuration
/// it was generated from, yields a well-formed configuration.
pub proof fn lemma_generated_moves_sound(cars: Seq<Car>)
    requires
        config_wf(cars),
    ensures
        forall|k: int|
            0 <= k < legal_moves(cars).len() ==> config_wf(
                apply_cm(cars, #[trigger] legal_moves(cars)[k]),
            ),
{
    lemma_legal_moves_ok(cars);
    assert forall|k: int|
        0 <= k < legal_moves(cars).len() implies config_wf(
        apply_cm(cars, #[trigger] legal_moves(cars)[k]),
    ) by {
        lemma_generated_move_preserves_wf(cars, legal_moves(cars)[k]);
    }
}

/// The goal predicate is a pure function of the exit vehicle's leading
/// coordinate and length: two configurations whose first vehicles with
/// identifier 0 agree on those agree on the goal. In particular, re-evaluating
/// it on an unchanged configuration always returns the same answer.
pub proof fn lemma_goal_depends_on_exit_vehicle(a: Seq<Car>, b: Seq<Car>)
    requires
        first_with_id(a, 0) >= 0,
        first_with_id(b, 0) >= 0,
        a[first_with_id(a, 0)].x == b[first_with_id(b, 0)].x,
        a[first_with_id(a, 0)].len == b[first_with_id(b, 0)].len,
    ensures
        spec_goal(a) == spec_goal(b),
{
}

} // verus!
