//! The visited-configuration memo and the bounded search driver.

use std::collections::VecDeque;
use vstd::prelude::*;

use crate::frontier::{
    lemma_sel_back_rest_push, lemma_sel_back_v_push, lemma_sel_front_l_push,
    lemma_sel_front_r_push, reorder, sel_back_rest, sel_back_v, sel_front_l, sel_front_r,
    tier_back_rest, tier_back_v, tier_front_l, tier_front_r,
};
use crate::laws::lemma_move_preserves_config_wf;
use crate::model::{car_wf, config_wf, Car, X};
use crate::state::{
    apply_cm, copy_vec, find_car_index, first_with_id, is_batch_for, legal_moves,
    lemma_first_with_id, lemma_first_with_id_same_ids, lemma_first_with_id_unique,
    lemma_legal_moves_complete, lemma_legal_moves_ok, lemma_legal_moves_upto_len,
    lemma_replay_push, lemma_valid_replay_push, lemma_valid_replay_step, move_applies,
    move_generated, replay, spec_goal, valid_replay, CarMove, State,
};

verus! {

/// One record of the memo: a configuration and the path length at which it
/// was realized.
pub struct MemoEntry {
    pub cars: Vec<Car>,
    pub steps: usize,
}

/// The visited-configuration memo: maps each configuration ever realized to
/// the smallest path length recorded for it so far. Newer records stand in
/// front of older ones and shadow them.
pub struct Memo {
    pub entries: Vec<MemoEntry>,
}

/// Index of the first record for `cars`, or -1 if there is none.
pub open spec fn memo_find(entries: Seq<MemoEntry>, cars: Seq<Car>) -> int
    decreases entries.len(),
{
    if entries.len() == 0 {
        -1
    } else if entries[0].cars@ == cars {
        0
    } else {
        let r = memo_find(entries.drop_first(), cars);
        if r < 0 {
            -1
        } else {
            r + 1
        }
    }
}

/// The recorded path length for `cars`, if any.
pub open spec fn memo_get(entries: Seq<MemoEntry>, cars: Seq<Car>) -> Option<usize> {
    let i = memo_find(entries, cars);
    if i >= 0 {
        Some(entries[i].steps)
    } else {
        None
    }
}

/// The recorded path length for `cars`, or -1 if there is none.
pub open spec fn memo_val(entries: Seq<MemoEntry>, cars: Seq<Car>) -> int {
    let i = memo_find(entries, cars);
    if i >= 0 {
        entries[i].steps as int
    } else {
        -1
    }
}

/// Realizing `cars` at path length `n` is pruned: the memo already records it
/// at a length no greater than `n`.
pub open spec fn spec_pruned(entries: Seq<MemoEntry>, cars: Seq<Car>, n: usize) -> bool {
    match memo_get(entries, cars) {
        Some(v) => v <= n,
        None => false,
    }
}

pub proof fn lemma_memo_find(entries: Seq<MemoEntry>, cars: Seq<Car>)
    ensures
        memo_find(entries, cars) >= 0 ==> 0 <= memo_find(entries, cars) < entries.len()
            && entries[memo_find(entries, cars)].cars@ == cars && (forall|j: int|
            0 <= j < memo_find(entries, cars) ==> entries[j].cars@ != cars),
        memo_find(entries, cars) < 0 ==> forall|j: int|
            0 <= j < entries.len() ==> entries[j].cars@ != cars,
    decreases entries.len(),
{
    let r = memo_find(entries, cars);
    if entries.len() == 0 {
    } else if entries[0].cars@ == cars {
    } else {
        let tail = entries.drop_first();
        lemma_memo_find(tail, cars);
        let rt = memo_find(tail, cars);
        assert(forall|j: int| 1 <= j < entries.len() ==> entries[j] == tail[j - 1]);
        if rt >= 0 {
            assert forall|j: int| 0 <= j < r implies entries[j].cars@ != cars by {
                if j >= 1 {
                    assert(tail[j - 1].cars@ != cars);
                }
            }
        } else {
            assert forall|j: int| 0 <= j < entries.len() implies entries[j].cars@ != cars by {
                if j >= 1 {
                    assert(tail[j - 1].cars@ != cars);
                }
            }
        }
    }
}

/// Memo monotonicity: once a configuration is recorded at path length `k`,
/// realizing it again at any path length `k2 >= k` is pruned, so it is never
/// expanded again at any length at or above `k` within the same search.
pub proof fn lemma_memo_prunes_repeats(
    entries: Seq<MemoEntry>,
    cars: Seq<Car>,
    k: usize,
    k2: usize,
)
    requires
        memo_get(entries, cars) == Some(k),
        k <= k2,
    ensures
        spec_pruned(entries, cars, k2),
{
}

/// Exact equality of two configurations, vehicle by vehicle.
fn cars_eq(a: &Vec<Car>, b: &Vec<Car>) -> (r: bool)
    ensures
        r == (a@ == b@),
{
    if a.len() != b.len() {
        return false;
    }
    let mut i: usize = 0;
    while i < a.len()
        invariant
            0 <= i <= a@.len(),
            a@.len() == b@.len(),
            forall|j: int| 0 <= j < i ==> a@[j] == b@[j],
        decreases a@.len() - i,
    {
        let ca = a[i];
        let cb = b[i];
        if !(ca.id == cb.id && ca.x == cb.x && ca.y == cb.y && ca.len == cb.len && ca.dir
            == cb.dir) {
            return false;
        }
        i = i + 1;
    }
    proof {
        assert(a@ =~= b@);
    }
    true
}

impl Memo {
    /// An empty memo.
    pub fn new() -> (r: Memo)
        ensures
            r.entries@.len() == 0,
    {
        Memo { entries: Vec::new() }
    }

    /// The recorded path length for the configuration, if any.
    pub fn get(&self, cars: &Vec<Car>) -> (r: Option<usize>)
        ensures
            r == memo_get(self.entries@, cars@),
    {
        let mut i: usize = 0;
        while i < self.entries.len()
            invariant
                0 <= i <= self.entries@.len(),
                forall|j: int| 0 <= j < i ==> (#[trigger] self.entries@[j]).cars@ != cars@,
            decreases self.entries@.len() - i,
        {
            if cars_eq(&self.entries[i].cars, cars) {
                proof {
                    lemma_memo_find(self.entries@, cars@);
                }
                return Some(self.entries[i].steps);
            }
            i = i + 1;
        }
        proof {
            lemma_memo_find(self.entries@, cars@);
        }
        None
    }

    /// Record the configuration at path length `steps`, shadowing any earlier
    /// record for it and leaving every other configuration's record unchanged.
    pub fn insert(&mut self, cars: &Vec<Car>, steps: usize)
        ensures
            memo_get(final(self).entries@, cars@) == Some(steps),
            memo_val(final(self).entries@, cars@) == steps as int,
            forall|other: Seq<Car>|
                other != cars@ ==> #[trigger] memo_get(final(self).entries@, other) == memo_get(
                    old(self).entries@,
                    other,
                ),
            forall|other: Seq<Car>|
                other != cars@ ==> #[trigger] memo_val(final(self).entries@, other) == memo_val(
                    old(self).entries@,
                    other,
                ),
    {
        let ghost before = self.entries@;
        let e = MemoEntry { cars: copy_vec(cars), steps };
        self.entries.insert(0, e);
        proof {
            assert(self.entries@.drop_first() =~= before);
            assert(memo_find(self.entries@, cars@) == 0);
            assert forall|other: Seq<Car>| other != cars@ implies #[trigger] memo_get(
                self.entries@,
                other,
            ) == memo_get(before, other) by {
                let rt = memo_find(before, other);
                lemma_memo_find(before, other);
                if rt >= 0 {
                    assert(self.entries@[rt + 1] == before[rt]);
                }
            }
            assert forall|other: Seq<Car>| other != cars@ implies #[trigger] memo_val(
                self.entries@,
                other,
            ) == memo_val(before, other) by {
                let rt = memo_find(before, other);
                lemma_memo_find(before, other);
                if rt >= 0 {
                    assert(self.entries@[rt + 1] == before[rt]);
                }
            }
        }
    }
}

/// Exponent of a node's weight: nodes with longer paths weigh exponentially
/// less, which makes each expansion shrink the frontier's total weight.
pub open spec fn weight_pow(b: nat, e: nat) -> nat
    decreases e,
{
    if e == 0 {
        1
    } else {
        b * weight_pow(b, (e - 1) as nat)
    }
}

proof fn lemma_weight_pow_pos(b: nat, e: nat)
    requires
        b >= 1,
    ensures
        weight_pow(b, e) >= 1,
    decreases e,
{
    if e > 0 {
        lemma_weight_pow_pos(b, (e - 1) as nat);
        assert(b * weight_pow(b, (e - 1) as nat) >= weight_pow(b, (e - 1) as nat))
            by (nonlinear_arith)
            requires
                b >= 1,
                weight_pow(b, (e - 1) as nat) >= 1,
        ;
    }
}

/// Weight of a node whose stored path has length `h`.
pub open spec fn level_weight(h: nat, limit: nat, b: nat) -> nat {
    weight_pow(b + 1, if h <= limit {
        (limit + 2 - h) as nat
    } else {
        2
    })
}

/// Weight of a node of the frontier.
pub open spec fn node_weight(n: State, limit: nat, b: nat) -> nat {
    level_weight(n.history@.len(), limit, b)
}

/// Total weight of the frontier: the termination measure of the search.
pub open spec fn frontier_weight(s: Seq<State>, limit: nat, b: nat) -> nat
    decreases s.len(),
{
    if s.len() == 0 {
        0
    } else {
        frontier_weight(s.drop_last(), limit, b) + node_weight(s.last(), limit, b)
    }
}

proof fn lemma_weight_first(s: Seq<State>, limit: nat, b: nat)
    requires
        s.len() > 0,
    ensures
        frontier_weight(s, limit, b) == node_weight(s[0], limit, b) + frontier_weight(
            s.drop_first(),
            limit,
            b,
        ),
    decreases s.len(),
{
    if s.len() == 1 {
        assert(s.drop_last() =~= Seq::<State>::empty());
        assert(s.drop_first() =~= Seq::<State>::empty());
        assert(s.last() == s[0]);
    } else {
        let t = s.drop_last();
        lemma_weight_first(t, limit, b);
        assert(s.drop_first().drop_last() =~= t.drop_first());
        assert(s.drop_first().last() == s.last());
        assert(t[0] == s[0]);
        assert(s.drop_first().len() > 0);
    }
}

proof fn lemma_weight_add(a: Seq<State>, c: Seq<State>, limit: nat, b: nat)
    ensures
        frontier_weight(a + c, limit, b) == frontier_weight(a, limit, b) + frontier_weight(
            c,
            limit,
            b,
        ),
    decreases c.len(),
{
    if c.len() == 0 {
        assert(a + c =~= a);
    } else {
        assert((a + c).drop_last() =~= a + c.drop_last());
        assert((a + c).last() == c.last());
        lemma_weight_add(a, c.drop_last(), limit, b);
    }
}

proof fn lemma_weight_reverse(s: Seq<State>, limit: nat, b: nat)
    ensures
        frontier_weight(s.reverse(), limit, b) == frontier_weight(s, limit, b),
    decreases s.len(),
{
    if s.len() > 0 {
        assert(s.reverse().drop_last() =~= s.drop_first().reverse());
        assert(s.reverse().last() == s[0]);
        lemma_weight_reverse(s.drop_first(), limit, b);
        lemma_weight_first(s, limit, b);
    }
}

proof fn lemma_weight_partition(new: Seq<State>, limit: nat, b: nat)
    ensures
        frontier_weight(sel_front_r(new), limit, b) + frontier_weight(sel_front_l(new), limit, b)
            + frontier_weight(sel_back_v(new), limit, b) + frontier_weight(
            sel_back_rest(new),
            limit,
            b,
        ) == frontier_weight(new, limit, b),
    decreases new.len(),
{
    reveal_with_fuel(Seq::<State>::filter, 1);
    if new.len() == 0 {
    } else {
        let t = new.drop_last();
        let x = new.last();
        assert(new =~= t.push(x));
        lemma_weight_partition(t, limit, b);
        lemma_sel_front_r_push(t, x);
        lemma_sel_front_l_push(t, x);
        lemma_sel_back_v_push(t, x);
        lemma_sel_back_rest_push(t, x);
        assert((sel_front_r(t).push(x)).drop_last() =~= sel_front_r(t));
        assert((sel_front_l(t).push(x)).drop_last() =~= sel_front_l(t));
        assert((sel_back_v(t).push(x)).drop_last() =~= sel_back_v(t));
        assert((sel_back_rest(t).push(x)).drop_last() =~= sel_back_rest(t));
        assert(new.drop_last() =~= t);
    }
}

proof fn lemma_weight_reorder(old: Seq<State>, new: Seq<State>, limit: nat, b: nat)
    ensures
        frontier_weight(reorder(old, new), limit, b) == frontier_weight(old, limit, b)
            + frontier_weight(new, limit, b),
{
    let a1 = sel_front_r(new).reverse();
    let a2 = sel_front_l(new).reverse();
    let a4 = sel_back_v(new);
    let a5 = sel_back_rest(new);
    lemma_weight_add(a1 + a2 + old + a4, a5, limit, b);
    lemma_weight_add(a1 + a2 + old, a4, limit, b);
    lemma_weight_add(a1 + a2, old, limit, b);
    lemma_weight_add(a1, a2, limit, b);
    lemma_weight_reverse(sel_front_r(new), limit, b);
    lemma_weight_reverse(sel_front_l(new), limit, b);
    lemma_weight_partition(new, limit, b);
}

proof fn lemma_weight_uniform(s: Seq<State>, limit: nat, b: nat, hl: nat)
    requires
        forall|j: int| 0 <= j < s.len() ==> (#[trigger] s[j]).history@.len() == hl,
    ensures
        frontier_weight(s, limit, b) == s.len() * level_weight(hl, limit, b),
    decreases s.len(),
{
    if s.len() == 0 {
    } else {
        let t = s.drop_last();
        assert(forall|j: int| 0 <= j < t.len() ==> (#[trigger] t[j]).history@.len() == hl);
        lemma_weight_uniform(t, limit, b, hl);
        let w = level_weight(hl, limit, b);
        assert((s.len() - 1) * w + w == s.len() * w) by (nonlinear_arith);
    }
}

/// A full batch of expansions weighs strictly less than the node it came
/// from: the exponent drops by one and at most `b` children are generated.
proof fn lemma_expansion_decreases(batch: Seq<State>, limit: nat, b: nat, h: nat)
    requires
        forall|j: int| 0 <= j < batch.len() ==> (#[trigger] batch[j]).history@.len() == h + 1,
        h + 1 <= limit,
        batch.len() <= b,
    ensures
        frontier_weight(batch, limit, b) < level_weight(h, limit, b),
{
    lemma_weight_uniform(batch, limit, b, h + 1);
    let w1 = level_weight(h + 1, limit, b);
    let w0 = level_weight(h, limit, b);
    assert((limit + 2 - h) as nat == ((limit + 1 - h) as nat + 1) as nat);
    assert(w0 == (b + 1) * w1);
    lemma_weight_pow_pos(b + 1, (limit + 1 - h) as nat);
    assert(batch.len() * w1 <= b * w1) by (nonlinear_arith)
        requires
            batch.len() <= b,
            w1 >= 0,
    ;
    assert(b * w1 < (b + 1) * w1) by (nonlinear_arith)
        requires
            w1 >= 1,
    ;
}

/// Every member of each tier selection is a member of the batch.
proof fn lemma_sel_subsets(new: Seq<State>)
    ensures
        forall|i: int|
            0 <= i < sel_front_r(new).len() ==> new.contains(#[trigger] sel_front_r(new)[i]),
        forall|i: int|
            0 <= i < sel_front_l(new).len() ==> new.contains(#[trigger] sel_front_l(new)[i]),
        forall|i: int|
            0 <= i < sel_back_v(new).len() ==> new.contains(#[trigger] sel_back_v(new)[i]),
        forall|i: int|
            0 <= i < sel_back_rest(new).len() ==> new.contains(#[trigger] sel_back_rest(new)[i]),
    decreases new.len(),
{
    reveal_with_fuel(Seq::<State>::filter, 1);
    if new.len() == 0 {
    } else {
        let t = new.drop_last();
        let x = new.last();
        assert(new =~= t.push(x));
        lemma_sel_subsets(t);
        lemma_sel_front_r_push(t, x);
        lemma_sel_front_l_push(t, x);
        lemma_sel_back_v_push(t, x);
        lemma_sel_back_rest_push(t, x);
        assert(new[new.len() - 1] == x);
        assert(new.contains(x));
        assert forall|y: State| t.contains(y) implies new.contains(y) by {
            let j = choose|j: int| 0 <= j < t.len() && t[j] == y;
            assert(new[j] == y);
        }
        assert forall|i: int|
            0 <= i < sel_front_r(new).len() implies new.contains(#[trigger] sel_front_r(new)[i]) by {
            if !(tier_front_r(x) && i == sel_front_r(t).len()) {
                assert(sel_front_r(new)[i] == sel_front_r(t)[i]);
                assert(t.contains(sel_front_r(t)[i]));
            }
        }
        assert forall|i: int|
            0 <= i < sel_front_l(new).len() implies new.contains(#[trigger] sel_front_l(new)[i]) by {
            if !(tier_front_l(x) && i == sel_front_l(t).len()) {
                assert(sel_front_l(new)[i] == sel_front_l(t)[i]);
                assert(t.contains(sel_front_l(t)[i]));
            }
        }
        assert forall|i: int|
            0 <= i < sel_back_v(new).len() implies new.contains(#[trigger] sel_back_v(new)[i]) by {
            if !(tier_back_v(x) && i == sel_back_v(t).len()) {
                assert(sel_back_v(new)[i] == sel_back_v(t)[i]);
                assert(t.contains(sel_back_v(t)[i]));
            }
        }
        assert forall|i: int|
            0 <= i < sel_back_rest(new).len() implies new.contains(
            #[trigger] sel_back_rest(new)[i],
        ) by {
            if !(tier_back_rest(x) && i == sel_back_rest(t).len()) {
                assert(sel_back_rest(new)[i] == sel_back_rest(t)[i]);
                assert(t.contains(sel_back_rest(t)[i]));
            }
        }
    }
}

/// Every member of the reordered queue is a member of the old queue or of the
/// batch.
proof fn lemma_reorder_elements(old: Seq<State>, new: Seq<State>)
    ensures
        forall|i: int|
            0 <= i < reorder(old, new).len() ==> old.contains(#[trigger] reorder(old, new)[i])
                || new.contains(reorder(old, new)[i]),
{
    lemma_sel_subsets(new);
    let r = reorder(old, new);
    assert forall|i: int|
        0 <= i < r.len() implies old.contains(#[trigger] r[i]) || new.contains(r[i]) by {
        let a1 = sel_front_r(new).reverse();
        let a2 = sel_front_l(new).reverse();
        let a4 = sel_back_v(new);
        let a5 = sel_back_rest(new);
        if i < a1.len() {
            assert(r[i] == sel_front_r(new)[a1.len() - 1 - i]);
        } else if i < a1.len() + a2.len() {
            assert(r[i] == sel_front_l(new)[a2.len() - 1 - (i - a1.len())]);
        } else if i < a1.len() + a2.len() + old.len() {
            assert(r[i] == old[i - a1.len() - a2.len()]);
            assert(old.contains(old[i - a1.len() - a2.len()]));
        } else if i < a1.len() + a2.len() + old.len() + a4.len() {
            assert(r[i] == a4[i - a1.len() - a2.len() - old.len()]);
        } else {
            assert(r[i] == a5[i - a1.len() - a2.len() - old.len() - a4.len()]);
        }
    }
}

/// Every member of the batch lands in the tier selection of its tier.
proof fn lemma_sel_contains(new: Seq<State>, x: State)
    requires
        new.contains(x),
    ensures
        tier_front_r(x) ==> sel_front_r(new).contains(x),
        tier_front_l(x) ==> sel_front_l(new).contains(x),
        tier_back_v(x) ==> sel_back_v(new).contains(x),
        tier_back_rest(x) ==> sel_back_rest(new).contains(x),
    decreases new.len(),
{
    let t = new.drop_last();
    let y = new.last();
    assert(new =~= t.push(y));
    lemma_sel_front_r_push(t, y);
    lemma_sel_front_l_push(t, y);
    lemma_sel_back_v_push(t, y);
    lemma_sel_back_rest_push(t, y);
    let j = choose|j: int| 0 <= j < new.len() && new[j] == x;
    if j == new.len() - 1 {
        if tier_front_r(x) {
            let sel = sel_front_r(new);
            assert(sel[sel.len() - 1] == x);
            assert(sel.contains(x));
        }
        if tier_front_l(x) {
            let sel = sel_front_l(new);
            assert(sel[sel.len() - 1] == x);
            assert(sel.contains(x));
        }
        if tier_back_v(x) {
            let sel = sel_back_v(new);
            assert(sel[sel.len() - 1] == x);
            assert(sel.contains(x));
        }
        if tier_back_rest(x) {
            let sel = sel_back_rest(new);
            assert(sel[sel.len() - 1] == x);
            assert(sel.contains(x));
        }
    } else {
        assert(t[j] == x);
        assert(t.contains(x));
        lemma_sel_contains(t, x);
        if tier_front_r(x) {
            let k = choose|k: int| 0 <= k < sel_front_r(t).len() && sel_front_r(t)[k] == x;
            assert(sel_front_r(new)[k] == x);
            assert(sel_front_r(new).contains(x));
        }
        if tier_front_l(x) {
            let k = choose|k: int| 0 <= k < sel_front_l(t).len() && sel_front_l(t)[k] == x;
            assert(sel_front_l(new)[k] == x);
            assert(sel_front_l(new).contains(x));
        }
        if tier_back_v(x) {
            let k = choose|k: int| 0 <= k < sel_back_v(t).len() && sel_back_v(t)[k] == x;
            assert(sel_back_v(new)[k] == x);
            assert(sel_back_v(new).contains(x));
        }
        if tier_back_rest(x) {
            let k = choose|k: int| 0 <= k < sel_back_rest(t).len() && sel_back_rest(t)[k] == x;
            assert(sel_back_rest(new)[k] == x);
            assert(sel_back_rest(new).contains(x));
        }
    }
}

/// The reordered queue keeps every member of the old queue.
proof fn lemma_reorder_keeps_old(old: Seq<State>, new: Seq<State>, x: State)
    requires
        old.contains(x),
    ensures
        reorder(old, new).contains(x),
{
    let j = choose|j: int| 0 <= j < old.len() && old[j] == x;
    let base = sel_front_r(new).reverse().len() + sel_front_l(new).reverse().len();
    assert(reorder(old, new)[base + j] == x);
    assert(reorder(old, new).contains(x));
}

/// The reordered queue keeps every member of the batch.
proof fn lemma_reorder_keeps_new(old: Seq<State>, new: Seq<State>, x: State)
    requires
        new.contains(x),
    ensures
        reorder(old, new).contains(x),
{
    lemma_sel_contains(new, x);
    let r = reorder(old, new);
    let n1 = sel_front_r(new).reverse().len();
    let n2 = sel_front_l(new).reverse().len();
    let n3 = old.len();
    let n4 = sel_back_v(new).len();
    if tier_front_r(x) {
        let k = choose|k: int| 0 <= k < sel_front_r(new).len() && sel_front_r(new)[k] == x;
        assert(sel_front_r(new).reverse()[n1 - 1 - k] == x);
        assert(r[n1 - 1 - k] == x);
    } else if tier_front_l(x) {
        let k = choose|k: int| 0 <= k < sel_front_l(new).len() && sel_front_l(new)[k] == x;
        assert(sel_front_l(new).reverse()[n2 - 1 - k] == x);
        assert(r[n1 + (n2 - 1 - k)] == x);
    } else if tier_back_v(x) {
        let k = choose|k: int| 0 <= k < sel_back_v(new).len() && sel_back_v(new)[k] == x;
        assert(r[n1 + n2 + n3 + k] == x);
    } else {
        let k = choose|k: int| 0 <= k < sel_back_rest(new).len() && sel_back_rest(new)[k] == x;
        assert(r[n1 + n2 + n3 + n4 + k] == x);
    }
    assert(r.contains(x));
}

/// The configuration `c` is open or closed at `b`: the frontier holds a node
/// whose realization is `c` at a path length of at most `b`, or the memo
/// records `c` at a length of at most `b`.
pub open spec fn open_or_closed(fr: Seq<State>, mem: Seq<MemoEntry>, c: Seq<Car>, b: int) -> bool {
    ||| exists|idx: int|
        0 <= idx < fr.len() && apply_cm((#[trigger] fr[idx]).cars@, fr[idx].next_move) == c && fr[
            idx
        ].history@.len() + 1 <= b
    ||| 0 <= memo_val(mem, c) <= b
}

/// Popping the front node keeps every configuration open or closed, provided
/// the popped node's realization is closed afterwards, the rest of the queue
/// survives, and no recorded length grew.
proof fn lemma_occ_transfer(
    fr0: Seq<State>,
    mem0: Seq<MemoEntry>,
    fr1: Seq<State>,
    mem1: Seq<MemoEntry>,
    c: Seq<Car>,
    b: int,
)
    requires
        fr0.len() > 0,
        open_or_closed(fr0, mem0, c, b),
        forall|idx: int| 1 <= idx < fr0.len() ==> fr1.contains(#[trigger] fr0[idx]),
        0 <= memo_val(mem1, apply_cm(fr0[0].cars@, fr0[0].next_move)) <= fr0[0].history@.len() + 1,
        forall|c2: Seq<Car>|
            memo_val(mem0, c2) >= 0 ==> 0 <= #[trigger] memo_val(mem1, c2) <= memo_val(mem0, c2),
    ensures
        open_or_closed(fr1, mem1, c, b),
{
    if 0 <= memo_val(mem0, c) <= b {
        assert(0 <= memo_val(mem1, c) <= b);
    } else {
        let idx = choose|idx: int|
            0 <= idx < fr0.len() && apply_cm((#[trigger] fr0[idx]).cars@, fr0[idx].next_move) == c
                && fr0[idx].history@.len() + 1 <= b;
        if idx == 0 {
            assert(0 <= memo_val(mem1, c) <= b);
        } else {
            assert(fr1.contains(fr0[idx]));
            let j = choose|j: int| 0 <= j < fr1.len() && fr1[j] == fr0[idx];
            assert(apply_cm(fr1[j].cars@, fr1[j].next_move) == c && fr1[j].history@.len() + 1
                <= b);
        }
    }
}

/// The invariant of every node of the frontier during one search from the
/// initial configuration `init`: the stored configuration is the replay of
/// the stored path, that replay is legal throughout, the configuration is
/// well formed, its size and the presence of the exit vehicle are preserved,
/// the pending move is applicable, and the stored path respects the bound.
pub open spec fn node_inv(init: Seq<Car>, limit: nat, nc: nat, n: State) -> bool {
    &&& n.cars@ == replay(init, n.history@)
    &&& valid_replay(init, n.history@)
    &&& config_wf(n.cars@)
    &&& n.cars@.len() == nc
    &&& first_with_id(n.cars@, 0) >= 0
    &&& move_applies(n.cars@, n.next_move)
    &&& n.history@.len() == 0 || n.history@.len() < limit
}

/// All nodes of a batch generated from a node satisfying the search invariant
/// satisfy it as well.
proof fn lemma_batch_inv(init: Seq<Car>, limit: nat, nc: nat, s: State, bb: Seq<State>)
    requires
        is_batch_for(bb, s),
        s.cars@ == replay(init, s.history@),
        valid_replay(init, s.history@),
        config_wf(s.cars@),
        s.cars@.len() == nc,
        first_with_id(s.cars@, 0) >= 0,
        s.history@.len() == 0 || s.history@.len() < limit,
    ensures
        forall|j: int| 0 <= j < bb.len() ==> node_inv(init, limit, nc, #[trigger] bb[j]),
{
    lemma_legal_moves_ok(s.cars@);
    assert forall|j: int| 0 <= j < bb.len() implies node_inv(init, limit, nc, #[trigger] bb[j]) by {
        let m = legal_moves(s.cars@)[j];
        assert(move_generated(s.cars@, m));
        let idx = choose|idx: int| 0 <= idx < s.cars@.len() && s.cars@[idx] == m.car;
        lemma_first_with_id_unique(s.cars@, idx);
    }
}

/// The goal test: the exit vehicle rests flush against the right edge, that
/// is, its leading coordinate equals the grid width minus its length.
pub fn goal_reached(cars: &Vec<Car>) -> (r: bool)
    requires
        first_with_id(cars@, 0) >= 0,
        car_wf(cars@[first_with_id(cars@, 0)]),
    ensures
        r == spec_goal(cars@),
{
    proof {
        lemma_first_with_id(cars@, 0);
    }
    match find_car_index(cars, 0) {
        Some(i) => {
            let c = cars[i];
            c.x == X - c.len
        },
        None => {
            proof {
                assert(false);
            }
            false
        },
    }
}

/// A legal goal-reaching move sequence within the bound has every prefix
/// configuration recorded in a drained search's memo at no more than its
/// index.
proof fn lemma_closed_prefix(
    init: Seq<Car>,
    limit: nat,
    mem: Seq<MemoEntry>,
    ms: Seq<CarMove>,
    j: int,
)
    requires
        valid_replay(init, ms),
        1 <= j <= ms.len(),
        ms.len() <= (if limit == 0 {
            1int
        } else {
            limit as int
        }),
        forall|k: int|
            0 <= k < legal_moves(init).len() ==> 0 <= memo_val(
                mem,
                apply_cm(init, #[trigger] legal_moves(init)[k]),
            ) <= 1,
        forall|c2: Seq<Car>, k: int|
            0 <= memo_val(mem, c2) < limit && 0 <= k < legal_moves(c2).len() ==> 0 <= memo_val(
                mem,
                apply_cm(c2, #[trigger] legal_moves(c2)[k]),
            ) <= memo_val(mem, c2) + 1,
    ensures
        0 <= memo_val(mem, replay(init, ms.take(j))) <= j,
    decreases j,
{
    lemma_valid_replay_step(init, ms, j - 1);
    let cprev = replay(init, ms.take(j - 1));
    lemma_legal_moves_complete(cprev, ms[j - 1]);
    let k = choose|k: int|
        0 <= k < legal_moves(cprev).len() && #[trigger] legal_moves(cprev)[k] == ms[j - 1];
    if j == 1 {
        assert(ms.take(0) =~= Seq::<CarMove>::empty());
        assert(cprev == init);
        assert(apply_cm(init, legal_moves(init)[k]) == replay(init, ms.take(1)));
    } else {
        lemma_closed_prefix(init, limit, mem, ms, j - 1);
        assert(0 <= memo_val(mem, cprev) < limit);
        assert(apply_cm(cprev, legal_moves(cprev)[k]) == replay(init, ms.take(j)));
    }
}

/// Bounded heuristic-first search. Starting from `state` (an unexplored
/// initial configuration with an empty path), pop pending nodes, realize
/// them, prune inferior repeats through the memo, test the goal, and expand
/// further moves while the path length stays below `limit`.
///
/// On success the returned node carries the goal configuration together with
/// the move sequence that produces it: replaying the history from the initial
/// configuration is legal move by move and reproduces the returned
/// configuration exactly, which satisfies the goal predicate.
///
/// The search is also complete within the bound: it reports no solution only
/// when no legal move sequence of an admissible length reaches the goal (with
/// bound zero the seeded first level is still searched, so lengths up to the
/// larger of the bound and one are covered). The search always terminates:
/// the loop strictly decreases the frontier's total [`frontier_weight`],
/// since the depth bound caps expansions and every expansion trades one node
/// for at most `4 * vehicles` strictly lighter ones. The answer found is not
/// promised to be shortest.
pub fn dfs(state: State, limit: usize) -> (r: Option<State>)
    requires
        config_wf(state.cars@),
        first_with_id(state.cars@, 0) >= 0,
        state.history@.len() == 0,
    ensures
        match r {
            Some(s) => {
                &&& spec_goal(s.cars@)
                &&& s.cars@ == replay(state.cars@, s.history@)
                &&& valid_replay(state.cars@, s.history@)
                &&& config_wf(s.cars@)
                &&& 1 <= s.history@.len()
                &&& limit == 0 ==> s.history@.len() == 1
                &&& limit > 0 ==> s.history@.len() <= limit
            },
            None => true,
        },
        legal_moves(state.cars@).len() == 0 ==> r is None,
        r is None ==> !(exists|ms: Seq<CarMove>|
            #[trigger] valid_replay(state.cars@, ms) && spec_goal(replay(state.cars@, ms)) && 1
                <= ms.len() <= (if limit == 0 {
                1int
            } else {
                limit as int
            })),
{
    let ghost init = state.cars@;
    let ghost nc = state.cars@.len();
    let ghost bcap: nat = 4 * nc;
    let ghost lim: nat = limit as nat;
    let mut memo = Memo::new();
    let mut states = state.initial_states();
    proof {
        let bb = choose|bb: Seq<State>|
            #[trigger] is_batch_for(bb, state) && states@ == reorder(Seq::empty(), bb);
        lemma_batch_inv(init, lim, nc, state, bb);
        lemma_reorder_elements(Seq::empty(), bb);
        assert forall|idx: int|
            0 <= idx < states@.len() implies node_inv(init, lim, nc, #[trigger] states@[idx]) by {
            assert(bb.contains(states@[idx]));
            let j = choose|j: int| 0 <= j < bb.len() && bb[j] == states@[idx];
        }
        if legal_moves(init).len() == 0 {
            reveal_with_fuel(Seq::<State>::filter, 1);
            assert(bb =~= Seq::<State>::empty());
            assert(states@.len() == 0);
        }
        assert forall|c2: Seq<Car>| #[trigger] memo_val(memo.entries@, c2) >= 0 implies !spec_goal(
            c2,
        ) by {
            assert(memo_val(memo.entries@, c2) == -1);
        }
        assert forall|k: int| 0 <= k < legal_moves(init).len() implies open_or_closed(
            states@,
            memo.entries@,
            apply_cm(init, #[trigger] legal_moves(init)[k]),
            1,
        ) by {
            assert(bb.contains(bb[k]));
            lemma_reorder_keeps_new(Seq::empty(), bb, bb[k]);
            let j = choose|j: int| 0 <= j < states@.len() && states@[j] == bb[k];
            assert(apply_cm(states@[j].cars@, states@[j].next_move) == apply_cm(
                init,
                legal_moves(init)[k],
            ) && states@[j].history@.len() + 1 <= 1);
        }
        assert forall|c2: Seq<Car>, k: int|
            0 <= memo_val(memo.entries@, c2) < lim && 0 <= k < legal_moves(
                c2,
            ).len() implies open_or_closed(
            states@,
            memo.entries@,
            apply_cm(c2, #[trigger] legal_moves(c2)[k]),
            memo_val(memo.entries@, c2) + 1,
        ) by {
            assert(memo_val(memo.entries@, c2) == -1);
        }
    }
    while states.len() > 0
        invariant
            forall|idx: int|
                0 <= idx < states@.len() ==> node_inv(init, lim, nc, #[trigger] states@[idx]),
            init == state.cars@,
            lim == limit as nat,
            nc == init.len(),
            bcap == 4 * nc,
            legal_moves(init).len() == 0 ==> states@.len() == 0,
            forall|c2: Seq<Car>| #[trigger] memo_val(memo.entries@, c2) >= 0 ==> !spec_goal(c2),
            forall|k: int|
                0 <= k < legal_moves(init).len() ==> open_or_closed(
                    states@,
                    memo.entries@,
                    apply_cm(init, #[trigger] legal_moves(init)[k]),
                    1,
                ),
            forall|c2: Seq<Car>, k: int|
                0 <= memo_val(memo.entries@, c2) < lim && 0 <= k < legal_moves(c2).len()
                    ==> open_or_closed(
                    states@,
                    memo.entries@,
                    apply_cm(c2, #[trigger] legal_moves(c2)[k]),
                    memo_val(memo.entries@, c2) + 1,
                ),
        decreases frontier_weight(states@, lim, bcap),
    {
        let ghost fr0 = states@;
        let ghost mem0 = memo.entries@;
        let popped = states.pop_front();
        let mut st = popped.unwrap();
        proof {
            assert(st == fr0[0]);
            assert(node_inv(init, lim, nc, st));
            assert(states@ =~= fr0.drop_first());
            lemma_weight_first(fr0, lim, bcap);
            lemma_weight_pow_pos(bcap + 1, if st.history@.len() <= lim {
                (lim + 2 - st.history@.len()) as nat
            } else {
                2
            });
        }
        let ghost h = st.history@.len();
        let ghost cars_before = st.cars@;
        let ghost hist_before = st.history@;
        let m = st.next_move;
        proof {
            lemma_first_with_id(cars_before, m.car.id);
        }
        st.apply_move(m);
        proof {
            lemma_move_preserves_config_wf(cars_before, m);
            lemma_replay_push(init, hist_before, m);
            lemma_valid_replay_push(init, hist_before, m);
            lemma_first_with_id_same_ids(cars_before, st.cars@, 0);
            lemma_first_with_id(st.cars@, 0);
            assert(apply_cm(fr0[0].cars@, fr0[0].next_move) == st.cars@);
            assert forall|idx: int| 1 <= idx < fr0.len() implies states@.contains(
                #[trigger] fr0[idx],
            ) by {
                assert(states@[idx - 1] == fr0[idx]);
            }
        }
        let n = st.history.len();
        let memo_prev = memo.get(&st.cars);
        let pruned = match memo_prev {
            Some(v) => v <= n,
            None => false,
        };
        proof {
            assert(pruned == spec_pruned(memo.entries@, st.cars@, n));
            assert(n == h + 1);
        }
        if pruned {
            proof {
                assert(0 <= memo_val(mem0, st.cars@) <= n);
                assert forall|k: int| 0 <= k < legal_moves(init).len() implies open_or_closed(
                    states@,
                    memo.entries@,
                    apply_cm(init, #[trigger] legal_moves(init)[k]),
                    1,
                ) by {
                    lemma_occ_transfer(
                        fr0,
                        mem0,
                        states@,
                        memo.entries@,
                        apply_cm(init, legal_moves(init)[k]),
                        1,
                    );
                }
                assert forall|c2: Seq<Car>, k: int|
                    0 <= memo_val(memo.entries@, c2) < lim && 0 <= k < legal_moves(
                        c2,
                    ).len() implies open_or_closed(
                    states@,
                    memo.entries@,
                    apply_cm(c2, #[trigger] legal_moves(c2)[k]),
                    memo_val(memo.entries@, c2) + 1,
                ) by {
                    lemma_occ_transfer(
                        fr0,
                        mem0,
                        states@,
                        memo.entries@,
                        apply_cm(c2, legal_moves(c2)[k]),
                        memo_val(mem0, c2) + 1,
                    );
                }
            }
        } else {
            if goal_reached(&st.cars) {
                return Some(st);
            }
            memo.insert(&st.cars, n);
            let ghost mem1 = memo.entries@;
            proof {
                assert(memo_val(mem1, st.cars@) == n as int);
                assert forall|c2: Seq<Car>| memo_val(mem0, c2) >= 0 implies 0 <= #[trigger] memo_val(
                    mem1,
                    c2,
                ) <= memo_val(mem0, c2) by {
                    if c2 != st.cars@ {
                        assert(memo_val(mem1, c2) == memo_val(mem0, c2));
                    }
                }
                assert forall|c2: Seq<Car>| #[trigger] memo_val(mem1, c2) >= 0 implies !spec_goal(
                    c2,
                ) by {
                    if c2 != st.cars@ {
                        assert(memo_val(mem1, c2) == memo_val(mem0, c2));
                    }
                }
            }
            if n < limit {
                let ghost rest = states@;
                states = st.generate_new_states(states);
                proof {
                    let bb = choose|bb: Seq<State>|
                        #[trigger] is_batch_for(bb, st) && states@ == reorder(rest, bb);
                    lemma_batch_inv(init, lim, nc, st, bb);
                    lemma_reorder_elements(rest, bb);
                    assert forall|idx: int|
                        0 <= idx < states@.len() implies node_inv(
                        init,
                        lim,
                        nc,
                        #[trigger] states@[idx],
                    ) by {
                        if rest.contains(states@[idx]) {
                            let j = choose|j: int| 0 <= j < rest.len() && rest[j] == states@[idx];
                            assert(rest[j] == fr0[j + 1]);
                        } else {
                            assert(bb.contains(states@[idx]));
                            let j = choose|j: int| 0 <= j < bb.len() && bb[j] == states@[idx];
                        }
                    }
                    lemma_weight_reorder(rest, bb, lim, bcap);
                    lemma_legal_moves_upto_len(st.cars@, st.cars@.len() as int);
                    assert(forall|j: int|
                        0 <= j < bb.len() ==> (#[trigger] bb[j]).history@.len() == h + 1);
                    lemma_expansion_decreases(bb, lim, bcap, h);
                    assert(node_weight(fr0[0], lim, bcap) == level_weight(h, lim, bcap));
                    assert forall|idx: int| 1 <= idx < fr0.len() implies states@.contains(
                        #[trigger] fr0[idx],
                    ) by {
                        assert(rest[idx - 1] == fr0[idx]);
                        lemma_reorder_keeps_old(rest, bb, fr0[idx]);
                    }
                    assert forall|k: int| 0 <= k < legal_moves(init).len() implies open_or_closed(
                        states@,
                        mem1,
                        apply_cm(init, #[trigger] legal_moves(init)[k]),
                        1,
                    ) by {
                        lemma_occ_transfer(
                            fr0,
                            mem0,
                            states@,
                            mem1,
                            apply_cm(init, legal_moves(init)[k]),
                            1,
                        );
                    }
                    assert forall|c2: Seq<Car>, k: int|
                        0 <= memo_val(mem1, c2) < lim && 0 <= k < legal_moves(
                            c2,
                        ).len() implies open_or_closed(
                        states@,
                        mem1,
                        apply_cm(c2, #[trigger] legal_moves(c2)[k]),
                        memo_val(mem1, c2) + 1,
                    ) by {
                        if c2 == st.cars@ {
                            assert(bb.contains(bb[k]));
                            lemma_reorder_keeps_new(rest, bb, bb[k]);
                            let j = choose|j: int| 0 <= j < states@.len() && states@[j] == bb[k];
                            assert(apply_cm(states@[j].cars@, states@[j].next_move) == apply_cm(
                                c2,
                                legal_moves(c2)[k],
                            ));
                            assert(states@[j].history@.len() + 1 <= memo_val(mem1, c2) + 1);
                        } else {
                            assert(memo_val(mem1, c2) == memo_val(mem0, c2));
                            lemma_occ_transfer(
                                fr0,
                                mem0,
                                states@,
                                mem1,
                                apply_cm(c2, legal_moves(c2)[k]),
                                memo_val(mem0, c2) + 1,
                            );
                        }
                    }
                }
            } else {
                proof {
                    assert forall|k: int| 0 <= k < legal_moves(init).len() implies open_or_closed(
                        states@,
                        mem1,
                        apply_cm(init, #[trigger] legal_moves(init)[k]),
                        1,
                    ) by {
                        lemma_occ_transfer(
                            fr0,
                            mem0,
                            states@,
                            mem1,
                            apply_cm(init, legal_moves(init)[k]),
                            1,
                        );
                    }
                    assert forall|c2: Seq<Car>, k: int|
                        0 <= memo_val(mem1, c2) < lim && 0 <= k < legal_moves(
                            c2,
                        ).len() implies open_or_closed(
                        states@,
                        mem1,
                        apply_cm(c2, #[trigger] legal_moves(c2)[k]),
                        memo_val(mem1, c2) + 1,
                    ) by {
                        if c2 == st.cars@ {
                            assert(false);
                        } else {
                            assert(memo_val(mem1, c2) == memo_val(mem0, c2));
                            lemma_occ_transfer(
                                fr0,
                                mem0,
                                states@,
                                mem1,
                                apply_cm(c2, legal_moves(c2)[k]),
                                memo_val(mem0, c2) + 1,
                            );
                        }
                    }
                }
            }
        }
    }
    proof {
        if exists|ms: Seq<CarMove>|
            #[trigger] valid_replay(state.cars@, ms) && spec_goal(replay(state.cars@, ms)) && 1
                <= ms.len() <= (if limit == 0 {
                1int
            } else {
                limit as int
            }) {
            let ms = choose|ms: Seq<CarMove>|
                #[trigger] valid_replay(state.cars@, ms) && spec_goal(replay(state.cars@, ms)) && 1
                    <= ms.len() <= (if limit == 0 {
                    1int
                } else {
                    limit as int
                });
            assert forall|k: int| 0 <= k < legal_moves(init).len() implies 0 <= memo_val(
                memo.entries@,
                apply_cm(init, #[trigger] legal_moves(init)[k]),
            ) <= 1 by {}
            assert forall|c2: Seq<Car>, k: int|
                0 <= memo_val(memo.entries@, c2) < lim && 0 <= k < legal_moves(c2).len() implies 0
                    <= memo_val(memo.entries@, apply_cm(c2, #[trigger] legal_moves(c2)[k]))
                    <= memo_val(memo.entries@, c2) + 1 by {}
            lemma_closed_prefix(init, lim, memo.entries@, ms, ms.len() as int);
            assert(ms.take(ms.len() as int) =~= ms);
            assert(memo_val(memo.entries@, replay(state.cars@, ms)) >= 0);
            assert(false);
        }
    }
    None
}


} // verus!
