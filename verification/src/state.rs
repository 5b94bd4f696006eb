//! Board configurations, moves, the move generator, and move application.

use std::collections::VecDeque;
use vstd::prelude::*;

use crate::frontier::{heueristics, reorder};
use crate::model::{car_wf, shifted, spec_can_move, Car, X};

verus! {

/// One candidate move: a snapshot of the vehicle to move and the direction
/// (`'U'`, `'D'`, `'L'` or `'R'`) in which it steps one cell.
#[derive(Debug, Copy, Clone, Hash, PartialEq, Eq)]
pub struct CarMove {
    pub car: Car,
    pub move_dir: char,
}

/// A search node: a board configuration, the moves taken from the initial
/// configuration to reach it, and one pending move that has not yet been
/// applied to the stored configuration.
#[derive(Debug, Clone, Hash, PartialEq, Eq)]
pub struct State {
    pub cars: Vec<Car>,
    pub history: Vec<CarMove>,
    pub next_move: CarMove,
}

/// Index of the first vehicle in `cars` carrying identifier `id`, or -1 if
/// there is none.
pub open spec fn first_with_id(cars: Seq<Car>, id: u8) -> int
    decreases cars.len(),
{
    if cars.len() == 0 {
        -1
    } else if cars[0].id == id {
        0
    } else {
        let r = first_with_id(cars.drop_first(), id);
        if r < 0 {
            -1
        } else {
            r + 1
        }
    }
}

pub proof fn lemma_first_with_id(cars: Seq<Car>, id: u8)
    ensures
        first_with_id(cars, id) >= 0 ==> 0 <= first_with_id(cars, id) < cars.len()
            && cars[first_with_id(cars, id)].id == id && (forall|j: int|
            0 <= j < first_with_id(cars, id) ==> cars[j].id != id),
        first_with_id(cars, id) < 0 ==> forall|j: int| 0 <= j < cars.len() ==> cars[j].id != id,
    decreases cars.len(),
{
    let r = first_with_id(cars, id);
    if cars.len() == 0 {
    } else if cars[0].id == id {
    } else {
        let tail = cars.drop_first();
        lemma_first_with_id(tail, id);
        let rt = first_with_id(tail, id);
        assert(forall|j: int| 1 <= j < cars.len() ==> cars[j] == tail[j - 1]);
        if rt >= 0 {
            assert(cars[r].id == id);
            assert forall|j: int| 0 <= j < r implies cars[j].id != id by {
                if j >= 1 {
                    assert(tail[j - 1].id != id);
                }
            }
        } else {
            assert forall|j: int| 0 <= j < cars.len() implies cars[j].id != id by {
                if j >= 1 {
                    assert(tail[j - 1].id != id);
                }
            }
        }
    }
}

/// The first index with a given identifier depends only on the sequence of
/// identifiers.
pub proof fn lemma_first_with_id_same_ids(a: Seq<Car>, b: Seq<Car>, id: u8)
    requires
        a.len() == b.len(),
        forall|i: int| 0 <= i < a.len() ==> a[i].id == b[i].id,
    ensures
        first_with_id(a, id) == first_with_id(b, id),
    decreases a.len(),
{
    if a.len() > 0 {
        assert(forall|i: int|
            0 <= i < a.drop_first().len() ==> a.drop_first()[i].id == b.drop_first()[i].id);
        lemma_first_with_id_same_ids(a.drop_first(), b.drop_first(), id);
    }
}

/// With pairwise-distinct identifiers, the first index with the identifier of
/// `cars[i]` is `i` itself.
pub proof fn lemma_first_with_id_unique(cars: Seq<Car>, i: int)
    requires
        0 <= i < cars.len(),
        forall|p: int, q: int|
            #![trigger cars[p].id, cars[q].id]
            0 <= p < q < cars.len() ==> cars[p].id != cars[q].id,
    ensures
        first_with_id(cars, cars[i].id) == i,
{
    lemma_first_with_id(cars, cars[i].id);
}

/// The configuration after moving the first vehicle with identifier `id` one
/// cell in direction `d`; unchanged when no vehicle carries `id`.
pub open spec fn apply_to_cars(cars: Seq<Car>, id: u8, d: char) -> Seq<Car> {
    let i = first_with_id(cars, id);
    if i >= 0 {
        cars.update(i, shifted(cars[i], d))
    } else {
        cars
    }
}

/// The configuration after applying one move.
pub open spec fn apply_cm(cars: Seq<Car>, m: CarMove) -> Seq<Car> {
    apply_to_cars(cars, m.car.id, m.move_dir)
}

/// The configuration reached by applying the moves of `ms` in order,
/// starting from `cars`.
pub open spec fn replay(cars: Seq<Car>, ms: Seq<CarMove>) -> Seq<Car>
    decreases ms.len(),
{
    if ms.len() == 0 {
        cars
    } else {
        replay(apply_cm(cars, ms[0]), ms.drop_first())
    }
}

/// The move `m` is applicable to `cars`: its vehicle snapshot is the first
/// vehicle with its identifier, and the step is legal there.
pub open spec fn move_applies(cars: Seq<Car>, m: CarMove) -> bool {
    let i = first_with_id(cars, m.car.id);
    &&& 0 <= i
    &&& cars[i] == m.car
    &&& spec_can_move(m.car, m.move_dir, cars)
}

/// Every move of `ms`, applied in order from `cars`, is applicable to the
/// configuration it meets.
pub open spec fn valid_replay(cars: Seq<Car>, ms: Seq<CarMove>) -> bool
    decreases ms.len(),
{
    if ms.len() == 0 {
        true
    } else {
        move_applies(cars, ms[0]) && valid_replay(apply_cm(cars, ms[0]), ms.drop_first())
    }
}

pub proof fn lemma_replay_push(cars: Seq<Car>, ms: Seq<CarMove>, m: CarMove)
    ensures
        replay(cars, ms.push(m)) == apply_cm(replay(cars, ms), m),
    decreases ms.len(),
{
    if ms.len() == 0 {
        assert(ms.push(m).drop_first() =~= Seq::<CarMove>::empty());
        assert(replay(cars, ms.push(m)) == replay(apply_cm(cars, m), Seq::<CarMove>::empty()));
        assert(replay(apply_cm(cars, m), Seq::<CarMove>::empty()) == apply_cm(cars, m));
        assert(replay(cars, ms) == cars);
    } else {
        assert(ms.push(m).drop_first() =~= ms.drop_first().push(m));
        assert(ms.push(m)[0] == ms[0]);
        lemma_replay_push(apply_cm(cars, ms[0]), ms.drop_first(), m);
    }
}

pub proof fn lemma_valid_replay_push(cars: Seq<Car>, ms: Seq<CarMove>, m: CarMove)
    requires
        valid_replay(cars, ms),
        move_applies(replay(cars, ms), m),
    ensures
        valid_replay(cars, ms.push(m)),
    decreases ms.len(),
{
    if ms.len() == 0 {
        assert(ms.push(m).drop_first() =~= Seq::<CarMove>::empty());
        assert(replay(cars, ms) == cars);
        assert(ms.push(m)[0] == m);
        assert(valid_replay(apply_cm(cars, m), Seq::<CarMove>::empty()));
    } else {
        assert(ms.push(m).drop_first() =~= ms.drop_first().push(m));
        assert(ms.push(m)[0] == ms[0]);
        lemma_valid_replay_push(apply_cm(cars, ms[0]), ms.drop_first(), m);
    }
}

/// The goal predicate: the first vehicle with identifier 0 rests flush
/// against the right edge of the grid, that is, its leading coordinate equals
/// the grid width minus its length.
pub open spec fn spec_goal(cars: Seq<Car>) -> bool {
    let i = first_with_id(cars, 0);
    i >= 0 && cars[i].x == X - cars[i].len
}

/// The legal moves of one vehicle, in the canonical direction order.
pub open spec fn moves_for(c: Car, cars: Seq<Car>) -> Seq<CarMove> {
    (if spec_can_move(c, 'U', cars) {
        seq![CarMove { car: c, move_dir: 'U' }]
    } else {
        Seq::empty()
    }) + (if spec_can_move(c, 'D', cars) {
        seq![CarMove { car: c, move_dir: 'D' }]
    } else {
        Seq::empty()
    }) + (if spec_can_move(c, 'L', cars) {
        seq![CarMove { car: c, move_dir: 'L' }]
    } else {
        Seq::empty()
    }) + (if spec_can_move(c, 'R', cars) {
        seq![CarMove { car: c, move_dir: 'R' }]
    } else {
        Seq::empty()
    })
}

/// The legal moves of the first `n` vehicles of the configuration, vehicles
/// in configuration order, directions in the canonical order.
pub open spec fn legal_moves_upto(cars: Seq<Car>, n: int) -> Seq<CarMove>
    decreases n,
{
    if n <= 0 {
        Seq::empty()
    } else {
        legal_moves_upto(cars, n - 1) + moves_for(cars[n - 1], cars)
    }
}

/// All legal single-step moves of the configuration.
pub open spec fn legal_moves(cars: Seq<Car>) -> Seq<CarMove> {
    legal_moves_upto(cars, cars.len() as int)
}

/// A generated move pairs a vehicle of the configuration with a step that is
/// legal for it there.
pub open spec fn move_generated(cars: Seq<Car>, m: CarMove) -> bool {
    &&& exists|i: int| 0 <= i < cars.len() && cars[i] == m.car
    &&& spec_can_move(m.car, m.move_dir, cars)
}

pub proof fn lemma_legal_moves_upto_ok(cars: Seq<Car>, n: int)
    requires
        0 <= n <= cars.len(),
    ensures
        forall|k: int|
            0 <= k < legal_moves_upto(cars, n).len() ==> move_generated(
                cars,
                #[trigger] legal_moves_upto(cars, n)[k],
            ),
    decreases n,
{
    if n > 0 {
        lemma_legal_moves_upto_ok(cars, n - 1);
        let c = cars[n - 1];
        let extra = moves_for(c, cars);
        assert(forall|k: int| 0 <= k < extra.len() ==> extra[k].car == c);
        assert(forall|k: int|
            0 <= k < extra.len() ==> spec_can_move(c, (#[trigger] extra[k]).move_dir, cars));
        assert(forall|k: int|
            0 <= k < legal_moves_upto(cars, n).len() ==> #[trigger] legal_moves_upto(cars, n)[k]
                == if k < legal_moves_upto(cars, n - 1).len() {
                legal_moves_upto(cars, n - 1)[k]
            } else {
                extra[k - legal_moves_upto(cars, n - 1).len()]
            });
    }
}

/// Every move the generator returns is a legal move of a vehicle of the
/// configuration.
pub proof fn lemma_legal_moves_ok(cars: Seq<Car>)
    ensures
        forall|k: int|
            0 <= k < legal_moves(cars).len() ==> move_generated(
                cars,
                #[trigger] legal_moves(cars)[k],
            ),
{
    lemma_legal_moves_upto_ok(cars, cars.len() as int);
}

proof fn lemma_legal_moves_upto_complete(cars: Seq<Car>, n: int, i: int, m: CarMove)
    requires
        0 <= i < n <= cars.len(),
        cars[i] == m.car,
        spec_can_move(m.car, m.move_dir, cars),
    ensures
        legal_moves_upto(cars, n).contains(m),
    decreases n,
{
    if n - 1 == i {
        let mf = moves_for(m.car, cars);
        let d = m.move_dir;
        let u: int = if spec_can_move(m.car, 'U', cars) {
            1
        } else {
            0
        };
        let dd: int = if spec_can_move(m.car, 'D', cars) {
            1
        } else {
            0
        };
        let l: int = if spec_can_move(m.car, 'L', cars) {
            1
        } else {
            0
        };
        let idx: int = if d == 'U' {
            0
        } else if d == 'D' {
            u
        } else if d == 'L' {
            u + dd
        } else {
            u + dd + l
        };
        if !(d == 'U' || d == 'D' || d == 'L' || d == 'R') {
            assert(false);
        }
        assert(0 <= idx < mf.len() && mf[idx] == m);
        assert(mf.contains(m));
        let base = legal_moves_upto(cars, n - 1).len();
        assert(legal_moves_upto(cars, n)[base + idx] == m);
        assert(legal_moves_upto(cars, n).contains(m));
    } else {
        lemma_legal_moves_upto_complete(cars, n - 1, i, m);
        let j = choose|j: int|
            0 <= j < legal_moves_upto(cars, n - 1).len() && #[trigger] legal_moves_upto(
                cars,
                n - 1,
            )[j] == m;
        assert(legal_moves_upto(cars, n)[j] == m);
        assert(legal_moves_upto(cars, n).contains(m));
    }
}

/// The generator is complete: every applicable move of the configuration is
/// among the generated moves.
pub proof fn lemma_legal_moves_complete(cars: Seq<Car>, m: CarMove)
    requires
        move_applies(cars, m),
    ensures
        legal_moves(cars).contains(m),
{
    lemma_first_with_id(cars, m.car.id);
    let i = first_with_id(cars, m.car.id);
    lemma_legal_moves_upto_complete(cars, cars.len() as int, i, m);
}

/// Unrolling a legal replay at step `j`: the move applies to the intermediate
/// configuration, and applying it gives the next one.
pub proof fn lemma_valid_replay_step(cars: Seq<Car>, ms: Seq<CarMove>, j: int)
    requires
        valid_replay(cars, ms),
        0 <= j < ms.len(),
    ensures
        move_applies(replay(cars, ms.take(j)), ms[j]),
        replay(cars, ms.take(j + 1)) == apply_cm(replay(cars, ms.take(j)), ms[j]),
    decreases j,
{
    if j == 0 {
        assert(ms.take(0) =~= Seq::<CarMove>::empty());
        assert(replay(cars, ms.take(0)) == cars);
        let one = ms.take(1);
        assert(one.len() == 1 && one[0] == ms[0]);
        assert(one.drop_first() =~= Seq::<CarMove>::empty());
        assert(replay(cars, one) == replay(apply_cm(cars, ms[0]), Seq::<CarMove>::empty()));
        assert(replay(apply_cm(cars, ms[0]), Seq::<CarMove>::empty()) == apply_cm(cars, ms[0]));
    } else {
        let c1 = apply_cm(cars, ms[0]);
        let tail = ms.drop_first();
        lemma_valid_replay_step(c1, tail, j - 1);
        assert(ms.take(j).drop_first() =~= tail.take(j - 1));
        assert(ms.take(j)[0] == ms[0]);
        assert(replay(cars, ms.take(j)) == replay(c1, tail.take(j - 1)));
        assert(ms.take(j + 1).drop_first() =~= tail.take(j));
        assert(ms.take(j + 1)[0] == ms[0]);
        assert(replay(cars, ms.take(j + 1)) == replay(c1, tail.take(j)));
        assert(tail[j - 1] == ms[j]);
    }
}

/// The generator returns at most four moves per vehicle.
pub proof fn lemma_legal_moves_upto_len(cars: Seq<Car>, n: int)
    requires
        0 <= n <= cars.len(),
    ensures
        legal_moves_upto(cars, n).len() <= 4 * n,
    decreases n,
{
    if n > 0 {
        lemma_legal_moves_upto_len(cars, n - 1);
    }
}

/// A fresh copy of a vector of plain copyable values.
pub(crate) fn copy_vec<T: Copy>(v: &Vec<T>) -> (r: Vec<T>)
    ensures
        r@ == v@,
{
    let mut r: Vec<T> = Vec::new();
    let mut i: usize = 0;
    while i < v.len()
        invariant
            0 <= i <= v@.len(),
            r@ == v@.take(i as int),
        decreases v@.len() - i,
    {
        r.push(v[i]);
        proof {
            assert(r@ =~= v@.take(i + 1 as int));
        }
        i = i + 1;
    }
    proof {
        assert(r@ =~= v@);
    }
    r
}

/// Index of the first vehicle of `cars` with identifier `id`, if any.
pub fn find_car_index(cars: &Vec<Car>, id: u8) -> (r: Option<usize>)
    ensures
        match r {
            Some(i) => i as int == first_with_id(cars@, id),
            None => first_with_id(cars@, id) < 0,
        },
{
    let mut i: usize = 0;
    while i < cars.len()
        invariant
            0 <= i <= cars@.len(),
            forall|j: int| 0 <= j < i ==> cars@[j].id != id,
        decreases cars@.len() - i,
    {
        if cars[i].id == id {
            proof {
                lemma_first_with_id(cars@, id);
            }
            return Some(i);
        }
        i = i + 1;
    }
    proof {
        lemma_first_with_id(cars@, id);
    }
    None
}

/// The batch of fresh search nodes that one realized node hands to the
/// frontier: one node per legal move, each owning its own copies of the
/// parent's configuration and path, with that move pending.
pub open spec fn is_batch_for(b: Seq<State>, s: State) -> bool {
    &&& b.len() == legal_moves(s.cars@).len()
    &&& forall|j: int|
        0 <= j < b.len() ==> (#[trigger] b[j]).cars@ == s.cars@ && b[j].history@ == s.history@
            && b[j].next_move == legal_moves(s.cars@)[j]
}

impl State {
    /// Enumerate the legal single-step moves of this configuration: vehicles
    /// in configuration order, directions in the canonical order up, down,
    /// left, right.
    pub fn all_valid_moves(&self) -> (r: Vec<CarMove>)
        ensures
            r@ == legal_moves(self.cars@),
    {
        let mut result: Vec<CarMove> = Vec::new();
        let mut i: usize = 0;
        while i < self.cars.len()
            invariant
                0 <= i <= self.cars@.len(),
                result@ == legal_moves_upto(self.cars@, i as int),
            decreases self.cars@.len() - i,
        {
            let car = self.cars[i];
            if car.can_move('U', &self.cars) {
                result.push(CarMove { car, move_dir: 'U' });
            }
            if car.can_move('D', &self.cars) {
                result.push(CarMove { car, move_dir: 'D' });
            }
            if car.can_move('L', &self.cars) {
                result.push(CarMove { car, move_dir: 'L' });
            }
            if car.can_move('R', &self.cars) {
                result.push(CarMove { car, move_dir: 'R' });
            }
            proof {
                assert(result@ =~= legal_moves_upto(self.cars@, i + 1 as int));
            }
            i = i + 1;
        }
        result
    }

    /// Wrap each candidate move into a fresh search node carrying its own
    /// copies of this node's configuration and path.
    pub fn moves_to_states(&self, car_moves: Vec<CarMove>) -> (r: VecDeque<State>)
        ensures
            r@.len() == car_moves@.len(),
            forall|j: int|
                0 <= j < r@.len() ==> (#[trigger] r@[j]).cars@ == self.cars@ && r@[j].history@
                    == self.history@ && r@[j].next_move == car_moves@[j],
    {
        let mut r: VecDeque<State> = VecDeque::new();
        let mut i: usize = 0;
        while i < car_moves.len()
            invariant
                0 <= i <= car_moves@.len(),
                r@.len() == i,
                forall|j: int|
                    0 <= j < i ==> (#[trigger] r@[j]).cars@ == self.cars@ && r@[j].history@
                        == self.history@ && r@[j].next_move == car_moves@[j],
            decreases car_moves@.len() - i,
        {
            let st = State {
                cars: copy_vec(&self.cars),
                history: copy_vec(&self.history),
                next_move: car_moves[i],
            };
            r.push_back(st);
            i = i + 1;
        }
        r
    }

    /// Realize one move: displace the first vehicle carrying the move's
    /// identifier by one cell and append the move to the path.
    pub fn apply_move(&mut self, car_move: CarMove)
        requires
            0 <= first_with_id(old(self).cars@, car_move.car.id),
            car_wf(old(self).cars@[first_with_id(old(self).cars@, car_move.car.id)]),
        ensures
            final(self).cars@ == apply_to_cars(
                old(self).cars@,
                car_move.car.id,
                car_move.move_dir,
            ),
            final(self).history@ == old(self).history@.push(car_move),
            final(self).next_move == old(self).next_move,
    {
        proof {
            lemma_first_with_id(self.cars@, car_move.car.id);
        }
        match find_car_index(&self.cars, car_move.car.id) {
            Some(idx) => {
                let mut c = self.cars[idx];
                c.car_move(car_move.move_dir);
                self.cars.set(idx, c);
                self.history.push(car_move);
            },
            None => {
                proof {
                    assert(false);
                }
            },
        }
    }

    /// Seed the frontier: the batch of this node's legal moves, reordered by
    /// the heuristic against an empty pending queue.
    pub fn initial_states(&self) -> (r: VecDeque<State>)
        ensures
            exists|b: Seq<State>|
                #[trigger] is_batch_for(b, *self) && r@ == reorder(Seq::empty(), b),
    {
        let batch = self.moves_to_states(self.all_valid_moves());
        let ghost b = batch@;
        let r = heueristics(VecDeque::new(), batch);
        proof {
            assert(is_batch_for(b, *self));
        }
        r
    }

    /// Merge the batch of this node's legal moves into the pending queue
    /// according to the heuristic policy.
    pub fn generate_new_states(&self, old_states: VecDeque<State>) -> (r: VecDeque<State>)
        ensures
            exists|b: Seq<State>|
                #[trigger] is_batch_for(b, *self) && r@ == reorder(old_states@, b),
    {
        let batch = self.moves_to_states(self.all_valid_moves());
        let ghost b = batch@;
        let r = heueristics(old_states, batch);
        proof {
            assert(is_batch_for(b, *self));
        }
        r
    }
}

} // verus!
