//! Vehicle and board model: vehicle geometry, the cell-occupancy test, grid
//! bounds, collision checks, and the single-step legality test.

use vstd::prelude::*;

verus! {

/// Grid width in cells.
pub const X: i8 = 6;

/// Grid height in cells.
pub const Y: i8 = 6;

/// One vehicle: anchor cell `(x, y)`, length along its orientation axis, and
/// orientation `'H'` (horizontal) or `'V'` (vertical). The vehicle with
/// identifier 0 is the exit vehicle, whose arrival at the right edge wins.
#[derive(Debug, Copy, Clone, Hash, PartialEq, Eq)]
pub struct Car {
    pub id: u8,
    pub x: i8,
    pub y: i8,
    pub len: i8,
    pub dir: char,
}

/// The cell `(x, y)` lies within the span of cells occupied by `c`.
pub open spec fn occ(c: Car, x: int, y: int) -> bool {
    if c.dir == 'V' {
        c.x == x && c.y <= y < c.y + c.len
    } else if c.dir == 'H' {
        c.y == y && c.x <= x < c.x + c.len
    } else {
        false
    }
}

/// The cell `(x, y)` lies on the grid.
pub open spec fn on_grid(x: int, y: int) -> bool {
    0 <= x < X && 0 <= y < Y
}

/// A well-formed vehicle: a valid orientation, length at least two, and every
/// occupied cell on the grid.
pub open spec fn car_wf(c: Car) -> bool {
    &&& c.dir == 'H' || c.dir == 'V'
    &&& c.len >= 2
    &&& 0 <= c.x && 0 <= c.y
    &&& c.dir == 'H' ==> c.x + c.len <= X && c.y < Y
    &&& c.dir == 'V' ==> c.y + c.len <= Y && c.x < X
}

/// Two vehicles occupy some cell in common.
pub open spec fn overlap(a: Car, b: Car) -> bool {
    exists|x: int, y: int| occ(a, x, y) && occ(b, x, y)
}

/// A well-formed board configuration: every vehicle well formed, identifiers
/// pairwise distinct, and no two vehicles overlapping.
pub open spec fn config_wf(cars: Seq<Car>) -> bool {
    &&& forall|i: int| 0 <= i < cars.len() ==> car_wf(#[trigger] cars[i])
    &&& forall|i: int, j: int|
        #![trigger cars[i].id, cars[j].id]
        0 <= i < j < cars.len() ==> cars[i].id != cars[j].id
    &&& forall|i: int, j: int|
        0 <= i < cars.len() && 0 <= j < cars.len() && i != j ==> !overlap(
            #[trigger] cars[i],
            #[trigger] cars[j],
        )
}

/// The step direction `d` runs along the orientation of `c`.
pub open spec fn aligned(c: Car, d: char) -> bool {
    if d == 'U' || d == 'D' {
        c.dir == 'V'
    } else if d == 'L' || d == 'R' {
        c.dir == 'H'
    } else {
        false
    }
}

/// Column of the single cell just beyond the leading edge of `c` in
/// direction `d`.
pub open spec fn target_x(c: Car, d: char) -> int {
    if d == 'L' {
        c.x - 1
    } else if d == 'R' {
        c.x + c.len
    } else {
        c.x as int
    }
}

/// Row of the single cell just beyond the leading edge of `c` in
/// direction `d`.
pub open spec fn target_y(c: Car, d: char) -> int {
    if d == 'U' {
        c.y - 1
    } else if d == 'D' {
        c.y + c.len
    } else {
        c.y as int
    }
}

/// No vehicle in `cars` other than the one with identifier `id` occupies the
/// cell `(x, y)`.
pub open spec fn free_of_others(cars: Seq<Car>, id: u8, x: int, y: int) -> bool {
    forall|i: int| 0 <= i < cars.len() && cars[i].id != id ==> !occ(#[trigger] cars[i], x, y)
}

/// The cell `(x, y)` is on the grid and occupied by no vehicle in `cars`.
pub open spec fn spec_block_valid(x: int, y: int, cars: Seq<Car>) -> bool {
    on_grid(x, y) && forall|i: int| 0 <= i < cars.len() ==> !occ(#[trigger] cars[i], x, y)
}

/// The vehicle `c` may step once in direction `d` within the configuration
/// `cars`: the direction is aligned with its orientation and the cell just
/// beyond its leading edge is on the grid and free of every other vehicle.
pub open spec fn spec_can_move(c: Car, d: char, cars: Seq<Car>) -> bool {
    &&& aligned(c, d)
    &&& on_grid(target_x(c, d), target_y(c, d))
    &&& free_of_others(cars, c.id, target_x(c, d), target_y(c, d))
}

/// The vehicle `c` with its anchor displaced by one cell in direction `d`;
/// unchanged for any other direction character.
pub open spec fn shifted(c: Car, d: char) -> Car {
    if d == 'U' {
        Car { y: (c.y - 1) as i8, ..c }
    } else if d == 'D' {
        Car { y: (c.y + 1) as i8, ..c }
    } else if d == 'L' {
        Car { x: (c.x - 1) as i8, ..c }
    } else if d == 'R' {
        Car { x: (c.x + 1) as i8, ..c }
    } else {
        c
    }
}

impl Car {
    /// Occupancy test: does this vehicle cover the cell `(x, y)`?
    pub fn contains(&self, x: i8, y: i8) -> (r: bool)
        ensures
            r == occ(*self, x as int, y as int),
    {
        if self.dir == 'V' {
            (self.x == x) && (y >= self.y) && ((y as i32) < (self.y as i32) + (self.len as i32))
        } else if self.dir == 'H' {
            (self.y == y) && (x >= self.x) && ((x as i32) < (self.x as i32) + (self.len as i32))
        } else {
            false
        }
    }

    /// Single-step legality: may this vehicle step once in `move_dir` given
    /// all vehicles of the configuration (itself included)?
    pub fn can_move(&self, move_dir: char, cars: &Vec<Car>) -> (r: bool)
        ensures
            r == spec_can_move(*self, move_dir, cars@),
    {
        let is_aligned = if move_dir == 'U' || move_dir == 'D' {
            self.dir == 'V'
        } else if move_dir == 'L' || move_dir == 'R' {
            self.dir == 'H'
        } else {
            false
        };
        if !is_aligned {
            return false;
        }
        let tx: i32 = if move_dir == 'L' {
            self.x as i32 - 1
        } else if move_dir == 'R' {
            self.x as i32 + self.len as i32
        } else {
            self.x as i32
        };
        let ty: i32 = if move_dir == 'U' {
            self.y as i32 - 1
        } else if move_dir == 'D' {
            self.y as i32 + self.len as i32
        } else {
            self.y as i32
        };
        if !(0 <= tx && tx < X as i32 && 0 <= ty && ty < Y as i32) {
            return false;
        }
        let txi: i8 = tx as i8;
        let tyi: i8 = ty as i8;
        let mut i: usize = 0;
        while i < cars.len()
            invariant
                0 <= i <= cars@.len(),
                txi as int == target_x(*self, move_dir),
                tyi as int == target_y(*self, move_dir),
                forall|j: int|
                    0 <= j < i && cars@[j].id != self.id ==> !occ(
                        #[trigger] cars@[j],
                        txi as int,
                        tyi as int,
                    ),
            decreases cars@.len() - i,
        {
            if cars[i].id != self.id && cars[i].contains(txi, tyi) {
                return false;
            }
            i = i + 1;
        }
        true
    }

    /// Displace this vehicle's anchor by one cell in `move_dir`; any other
    /// direction character leaves it unchanged.
    pub fn car_move(&mut self, move_dir: char)
        requires
            car_wf(*old(self)),
        ensures
            *final(self) == shifted(*old(self), move_dir),
    {
        if move_dir == 'U' {
            self.y = self.y - 1;
        } else if move_dir == 'D' {
            self.y = self.y + 1;
        } else if move_dir == 'L' {
            self.x = self.x - 1;
        } else if move_dir == 'R' {
            self.x = self.x + 1;
        }
    }
}

/// Cell legality: the cell `(x, y)` is on the grid and no vehicle of `cars`
/// occupies it.
pub fn block_valid(x: i8, y: i8, cars: &Vec<Car>) -> (r: bool)
    ensures
        r == spec_block_valid(x as int, y as int, cars@),
{
    if !((x >= 0) && (x < X) && (y >= 0) && (y < Y)) {
        return false;
    }
    let mut i: usize = 0;
    while i < cars.len()
        invariant
            0 <= i <= cars@.len(),
            on_grid(x as int, y as int),
            forall|j: int| 0 <= j < i ==> !occ(#[trigger] cars@[j], x as int, y as int),
        decreases cars@.len() - i,
    {
        if cars[i].contains(x, y) {
            return false;
        }
        i = i + 1;
    }
    true
}

/// Do two vehicles occupy some cell in common?
pub fn cars_overlap(a: Car, b: Car) -> (r: bool)
    ensures
        r == overlap(a, b),
{
    let ax = a.x as i32;
    let ay = a.y as i32;
    let al = a.len as i32;
    let bx = b.x as i32;
    let by = b.y as i32;
    let bl = b.len as i32;
    let r: bool = if al <= 0 || bl <= 0 {
        false
    } else if a.dir == 'H' && b.dir == 'H' {
        a.y == b.y && ax < bx + bl && bx < ax + al
    } else if a.dir == 'V' && b.dir == 'V' {
        a.x == b.x && ay < by + bl && by < ay + al
    } else if a.dir == 'H' && b.dir == 'V' {
        by <= ay && ay < by + bl && ax <= bx && bx < ax + al
    } else if a.dir == 'V' && b.dir == 'H' {
        ay <= by && by < ay + al && bx <= ax && ax < bx + bl
    } else {
        false
    };
    proof {
        if r {
            if a.dir == 'H' && b.dir == 'H' {
                let wx: int = if a.x >= b.x {
                    a.x as int
                } else {
                    b.x as int
                };
                assert(occ(a, wx, a.y as int) && occ(b, wx, b.y as int));
            } else if a.dir == 'V' && b.dir == 'V' {
                let wy: int = if a.y >= b.y {
                    a.y as int
                } else {
                    b.y as int
                };
                assert(occ(a, a.x as int, wy) && occ(b, b.x as int, wy));
            } else if a.dir == 'H' && b.dir == 'V' {
                assert(occ(a, b.x as int, a.y as int) && occ(b, b.x as int, a.y as int));
            } else {
                assert(occ(a, a.x as int, b.y as int) && occ(b, a.x as int, b.y as int));
            }
            assert(overlap(a, b));
        } else {
            if overlap(a, b) {
                let (x, y) = choose|x: int, y: int| occ(a, x, y) && occ(b, x, y);
                assert(false);
            }
        }
    }
    r
}

/// Is this vehicle well formed?
pub fn car_ok(c: &Car) -> (r: bool)
    ensures
        r == car_wf(*c),
{
    (c.dir == 'H' || c.dir == 'V') && c.len >= 2 && c.x >= 0 && c.y >= 0 && (if c.dir == 'H' {
        (c.x as i32) + (c.len as i32) <= X as i32 && c.y < Y
    } else {
        (c.y as i32) + (c.len as i32) <= Y as i32 && c.x < X
    })
}

/// Is this configuration well formed: every vehicle well formed, identifiers
/// pairwise distinct, no two vehicles overlapping?
pub fn config_ok(cars: &Vec<Car>) -> (r: bool)
    ensures
        r == config_wf(cars@),
{
    let mut i: usize = 0;
    while i < cars.len()
        invariant
            0 <= i <= cars@.len(),
            forall|p: int| 0 <= p < i ==> car_wf(#[trigger] cars@[p]),
        decreases cars@.len() - i,
    {
        if !car_ok(&cars[i]) {
            return false;
        }
        i = i + 1;
    }
    let mut p: usize = 0;
    while p < cars.len()
        invariant
            0 <= p <= cars@.len(),
            forall|a: int, b: int|
                #![trigger cars@[a], cars@[b]]
                0 <= a < b < cars@.len() && a < p ==> cars@[a].id != cars@[b].id && !overlap(
                    cars@[a],
                    cars@[b],
                ),
        decreases cars@.len() - p,
    {
        let mut q: usize = p + 1;
        while q < cars.len()
            invariant
                0 <= p < q <= cars@.len(),
                forall|b: int|
                    p < b < q ==> cars@[p as int].id != (#[trigger] cars@[b]).id && !overlap(
                        cars@[p as int],
                        cars@[b],
                    ),
            decreases cars@.len() - q,
        {
            if cars[p].id == cars[q].id {
                return false;
            }
            if cars_overlap(cars[p], cars[q]) {
                return false;
            }
            q = q + 1;
        }
        p = p + 1;
    }
    proof {
        assert forall|a: int, b: int|
            0 <= a < cars@.len() && 0 <= b < cars@.len() && a != b implies !overlap(
            #[trigger] cars@[a],
            #[trigger] cars@[b],
        ) by {
            if a < b {
            } else {
                assert(!overlap(cars@[b], cars@[a]));
                if overlap(cars@[a], cars@[b]) {
                    let (x, y) = choose|x: int, y: int|
                        occ(cars@[a], x, y) && occ(cars@[b], x, y);
                    assert(occ(cars@[b], x, y) && occ(cars@[a], x, y));
                    assert(overlap(cars@[b], cars@[a]));
                }
            }
        }
        assert forall|a: int, b: int|
            #![trigger cars@[a].id, cars@[b].id]
            0 <= a < b < cars@.len() implies cars@[a].id != cars@[b].id by {
            assert(cars@[a] == cars@[a]);
        }
    }
    true
}

/// The four step directions in their canonical order.
pub fn all_moves() -> (r: Vec<char>)
    ensures
        r@ == seq!['U', 'D', 'L', 'R'],
{
    let mut v: Vec<char> = Vec::new();
    v.push('U');
    v.push('D');
    v.push('L');
    v.push('R');
    proof {
        assert(v@ =~= seq!['U', 'D', 'L', 'R']);
    }
    v
}

} // verus!
