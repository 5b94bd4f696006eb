use std::collections::VecDeque;

use rush_hour::frontier::heueristics;
use rush_hour::model::{all_moves, block_valid, car_ok, cars_overlap, config_ok, Car};
use rush_hour::search::{dfs, goal_reached, Memo};
use rush_hour::state::{find_car_index, CarMove, State};

fn car(id: u8, x: i8, y: i8, len: i8, dir: char) -> Car {
    Car { id, x, y, len, dir }
}

fn p6_state() -> State {
    State::parse_cars(vec!["0 1 2 2 H", "3 4 2 2 V", "13 0 4 3 H"]).unwrap()
}

#[test]
fn test0() {
    let cars = vec!["0 1 2 2 H", "3 4 2 2 V", "13 0 4 3 H"];
    let state = State::parse_cars(cars).unwrap();
    match dfs(state, 4) {
        Some(state) => {
            println!("{:?}", state);
            for history in state.history {
                println!("{:?}", history);
            }
        },
        None => println!("nil"),
    }
}

#[test]
fn parse_car_reads_a_record() {
    assert_eq!(Car::parse_car("0 1 2 2 H"), Some(car(0, 1, 2, 2, 'H')));
    assert_eq!(Car::parse_car("  13   0  4  3   V  "), Some(car(13, 0, 4, 3, 'V')));
    assert_eq!(Car::parse_car("+5 +1 -2 2 Vertical"), Some(car(5, 1, -2, 2, 'V')));
    assert_eq!(Car::parse_car("0 1 2 2 H extra fields ignored"), Some(car(0, 1, 2, 2, 'H')));
    assert_eq!(Car::parse_car("255 -128 127 2 H"), Some(car(255, -128, 127, 2, 'H')));
    // Any Unicode whitespace separates fields, as str::split_whitespace has it.
    assert_eq!(Car::parse_car("0\u{a0}1\t2\u{2003}2\u{c}V"), Some(car(0, 1, 2, 2, 'V')));
}

#[test]
fn parse_car_rejects_malformed_records() {
    assert_eq!(Car::parse_car(""), None);
    assert_eq!(Car::parse_car("0 1 2 2"), None);
    assert_eq!(Car::parse_car("x 1 2 2 H"), None);
    assert_eq!(Car::parse_car("-1 1 2 2 H"), None);
    assert_eq!(Car::parse_car("256 1 2 2 H"), None);
    assert_eq!(Car::parse_car("0 128 2 2 H"), None);
    assert_eq!(Car::parse_car("0 -129 2 2 H"), None);
    assert_eq!(Car::parse_car("0 1.5 2 2 H"), None);
    assert_eq!(Car::parse_car("0 1 2 2H"), None);
}

#[test]
fn parse_cars_builds_the_initial_state() {
    let st = p6_state();
    assert_eq!(st.cars, vec![car(0, 1, 2, 2, 'H'), car(3, 4, 2, 2, 'V'), car(13, 0, 4, 3, 'H')]);
    assert!(st.history.is_empty());
    let none = State::parse_cars(vec!["0 1 2 2 H", "bad record"]);
    assert!(none.is_none());
}

#[test]
fn contains_covers_the_span() {
    let h = car(0, 1, 2, 2, 'H');
    assert!(h.contains(1, 2));
    assert!(h.contains(2, 2));
    assert!(!h.contains(3, 2));
    assert!(!h.contains(0, 2));
    assert!(!h.contains(1, 3));
    let v = car(3, 4, 2, 2, 'V');
    assert!(v.contains(4, 2));
    assert!(v.contains(4, 3));
    assert!(!v.contains(4, 4));
    assert!(!v.contains(3, 2));
}

#[test]
fn can_move_is_false_sideways() {
    let st = p6_state();
    let h = st.cars[0];
    assert!(!h.can_move('U', &st.cars));
    assert!(!h.can_move('D', &st.cars));
    let v = st.cars[1];
    assert!(!v.can_move('L', &st.cars));
    assert!(!v.can_move('R', &st.cars));
}

#[test]
fn can_move_checks_bounds_and_collisions() {
    let st = p6_state();
    let exit = st.cars[0];
    assert!(exit.can_move('L', &st.cars));
    assert!(exit.can_move('R', &st.cars));
    let wall = st.cars[2];
    assert!(!wall.can_move('L', &st.cars));
    assert!(wall.can_move('R', &st.cars));
    let blocked = State::parse_cars(vec!["0 1 2 2 H", "1 3 2 2 V"]).unwrap();
    assert!(!blocked.cars[0].can_move('R', &blocked.cars));
}

#[test]
fn car_move_shifts_the_anchor_one_cell() {
    let mut c = car(3, 4, 2, 2, 'V');
    c.car_move('U');
    assert_eq!(c, car(3, 4, 1, 2, 'V'));
    c.car_move('D');
    assert_eq!(c, car(3, 4, 2, 2, 'V'));
    let mut h = car(0, 1, 2, 2, 'H');
    h.car_move('L');
    assert_eq!(h, car(0, 0, 2, 2, 'H'));
    h.car_move('R');
    assert_eq!(h, car(0, 1, 2, 2, 'H'));
    h.car_move('X');
    assert_eq!(h, car(0, 1, 2, 2, 'H'));
}

#[test]
fn block_valid_checks_bounds_and_occupancy() {
    let st = p6_state();
    assert!(!block_valid(-1, 0, &st.cars));
    assert!(!block_valid(6, 0, &st.cars));
    assert!(!block_valid(0, -1, &st.cars));
    assert!(!block_valid(0, 6, &st.cars));
    assert!(!block_valid(1, 2, &st.cars));
    assert!(!block_valid(4, 3, &st.cars));
    assert!(block_valid(3, 2, &st.cars));
}

#[test]
fn all_moves_canonical_order() {
    assert_eq!(all_moves(), vec!['U', 'D', 'L', 'R']);
}

#[test]
fn all_valid_moves_vehicle_then_direction_order() {
    let st = p6_state();
    let moves = st.all_valid_moves();
    let got: Vec<(u8, char)> = moves.iter().map(|m| (m.car.id, m.move_dir)).collect();
    assert_eq!(got, vec![(0, 'L'), (0, 'R'), (3, 'U'), (3, 'D'), (13, 'R')]);
}

#[test]
fn moves_to_states_wraps_each_move() {
    let st = p6_state();
    let moves = st.all_valid_moves();
    let batch = st.moves_to_states(moves.clone());
    assert_eq!(batch.len(), moves.len());
    for (node, m) in batch.iter().zip(moves.iter()) {
        assert_eq!(node.cars, st.cars);
        assert_eq!(node.history, st.history);
        assert_eq!(node.next_move, *m);
    }
}

#[test]
fn apply_move_moves_the_car_and_records_it() {
    let mut st = p6_state();
    let m = CarMove { car: st.cars[1], move_dir: 'D' };
    st.apply_move(m);
    assert_eq!(st.cars[1], car(3, 4, 3, 2, 'V'));
    assert_eq!(st.history, vec![m]);
}

#[test]
fn heueristics_orders_the_tiers() {
    let base = p6_state();
    let node = |id: u8, x: i8, dir: char, step: char| State {
        cars: base.cars.clone(),
        history: Vec::new(),
        next_move: CarMove { car: car(id, x, 2, 2, dir), move_dir: step },
    };
    let vertical = node(3, 4, 'V', 'U');
    let left = node(2, 3, 'H', 'L');
    let right_a = node(2, 3, 'H', 'R');
    let right_b = node(5, 0, 'H', 'R');
    let exit = node(0, 1, 'H', 'R');
    let old_node = node(9, 0, 'H', 'L');
    let mut old: VecDeque<State> = VecDeque::new();
    old.push_back(old_node.clone());
    let mut fresh: VecDeque<State> = VecDeque::new();
    for s in [
        vertical.clone(),
        left.clone(),
        right_a.clone(),
        right_b.clone(),
        exit.clone(),
    ] {
        fresh.push_back(s);
    }
    let merged = heueristics(old, fresh);
    let got: Vec<(u8, char)> = merged
        .iter()
        .map(|s| (s.next_move.car.id, s.next_move.move_dir))
        .collect();
    // Reversed rightward movers, reversed leftward movers, the old queue,
    // vertical movers, then the rest (the exit vehicle's own moves).
    assert_eq!(
        got,
        vec![(5, 'R'), (2, 'R'), (2, 'L'), (9, 'L'), (3, 'U'), (0, 'R')],
    );
}

#[test]
fn memo_records_and_shadows() {
    let a = p6_state().cars;
    let mut b = a.clone();
    b[0].x = 2;
    let mut memo = Memo::new();
    assert_eq!(memo.get(&a), None);
    memo.insert(&a, 7);
    assert_eq!(memo.get(&a), Some(7));
    assert_eq!(memo.get(&b), None);
    memo.insert(&b, 3);
    memo.insert(&a, 5);
    assert_eq!(memo.get(&a), Some(5));
    assert_eq!(memo.get(&b), Some(3));
}

#[test]
fn goal_check_is_pure_and_stable() {
    let mut cars = p6_state().cars;
    assert!(!goal_reached(&cars));
    assert!(!goal_reached(&cars));
    cars[0].x = 4;
    assert!(goal_reached(&cars));
    assert!(goal_reached(&cars));
}

#[test]
fn generated_moves_keep_the_board_legal() {
    let st = p6_state();
    assert!(config_ok(&st.cars));
    for m in st.all_valid_moves() {
        let mut next = st.clone();
        next.apply_move(m);
        assert!(config_ok(&next.cars));
    }
}

#[test]
fn config_ok_rejects_bad_boards() {
    assert!(!config_ok(&vec![car(0, 1, 2, 2, 'H'), car(1, 2, 2, 2, 'H')]));
    assert!(!config_ok(&vec![car(0, 1, 2, 2, 'H'), car(0, 0, 0, 2, 'V')]));
    assert!(!config_ok(&vec![car(0, 5, 2, 2, 'H')]));
    assert!(!config_ok(&vec![car(0, 1, 2, 1, 'H')]));
    assert!(!config_ok(&vec![car(0, 1, 2, 2, 'Q')]));
    assert!(config_ok(&vec![car(0, 1, 2, 2, 'H'), car(3, 4, 2, 2, 'V')]));
}

#[test]
fn overlap_test_matches_geometry() {
    assert!(cars_overlap(car(0, 1, 2, 2, 'H'), car(1, 2, 2, 2, 'H')));
    assert!(!cars_overlap(car(0, 1, 2, 2, 'H'), car(1, 3, 2, 2, 'H')));
    assert!(cars_overlap(car(0, 1, 2, 2, 'H'), car(1, 2, 1, 3, 'V')));
    assert!(!cars_overlap(car(0, 1, 2, 2, 'H'), car(1, 3, 3, 2, 'V')));
    assert!(cars_overlap(car(0, 4, 1, 3, 'V'), car(1, 4, 3, 2, 'V')));
}

#[test]
fn find_car_index_finds_the_first() {
    let st = p6_state();
    assert_eq!(find_car_index(&st.cars, 0), Some(0));
    assert_eq!(find_car_index(&st.cars, 13), Some(2));
    assert_eq!(find_car_index(&st.cars, 7), None);
}

#[test]
fn search_solves_the_small_board_within_four_moves() {
    let st = p6_state();
    let solved = dfs(st, 4).expect("a solution within four moves exists");
    // The exit vehicle needs three rightward steps and exactly one clearing
    // move (vehicle 3 down) frees cell (4, 2), so any in-bound solution has
    // exactly these four moves, with the down move before the second step
    // right.
    let moves: Vec<(u8, char)> = solved.history.iter().map(|m| (m.car.id, m.move_dir)).collect();
    assert_eq!(moves.len(), 4);
    assert_eq!(moves.iter().filter(|m| **m == (0, 'R')).count(), 3);
    assert_eq!(moves.iter().filter(|m| **m == (3, 'D')).count(), 1);
    let down_at = moves.iter().position(|m| *m == (3, 'D')).unwrap();
    let second_right_at = moves
        .iter()
        .enumerate()
        .filter(|(_, m)| **m == (0, 'R'))
        .map(|(i, _)| i)
        .nth(1)
        .unwrap();
    assert!(down_at < second_right_at);
    // Replay the returned moves from the initial configuration: the exit
    // vehicle must rest flush against the right edge.
    let mut replayed = p6_state();
    for m in solved.history.iter() {
        replayed.apply_move(*m);
    }
    let exit = replayed.cars.iter().find(|c| c.id == 0).unwrap();
    assert_eq!(exit.x, 4);
}

#[test]
fn replaying_the_answer_reproduces_the_final_configuration() {
    let st = p6_state();
    let solved = dfs(st, 10).expect("a solution exists");
    let mut replayed = p6_state();
    for m in solved.history.iter() {
        replayed.apply_move(*m);
    }
    assert_eq!(replayed.cars, solved.cars);
    assert!(goal_reached(&solved.cars));
}

#[test]
fn gridlocked_board_reports_no_solution() {
    let wide = State::parse_cars(vec!["0 0 0 6 H"]).unwrap();
    assert!(config_ok(&wide.cars));
    assert!(wide.all_valid_moves().is_empty());
    assert!(dfs(wide, 100).is_none());
    let tall = State::parse_cars(vec!["0 0 0 6 V", "1 1 0 6 V"]).unwrap();
    assert!(dfs(tall, 100).is_none());
}

#[test]
fn depth_bound_limits_the_search() {
    // The exit vehicle needs at least three steps; with a bound of two the
    // frontier drains without reaching the goal.
    let st = p6_state();
    assert!(dfs(st, 2).is_none());
}
