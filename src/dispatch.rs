//! The dispatch engine: one target floor, or none, per elevator and tick.

use vstd::prelude::*;
use crate::model::{Elevator, Floor, is_heavy, is_empty};

verus! {

/// Distance between two floors.
pub open spec fn dist(a: i32, b: i32) -> int {
    if a >= b { a - b } else { b - a }
}

/// Index of the first pressed floor of least distance among `ps[0..k]`.
pub open spec fn nearest_in(cur: i32, ps: Seq<i32>, k: int) -> int
    decreases k,
{
    if k <= 1 {
        0
    } else {
        let b = nearest_in(cur, ps, k - 1);
        if dist(cur, ps[k - 1]) < dist(cur, ps[b]) { k - 1 } else { b }
    }
}

/// `i` picks a pressed floor of least distance, the first such in the sequence.
pub open spec fn is_nearest_pressed(cur: i32, ps: Seq<i32>, i: int) -> bool {
    &&& 0 <= i < ps.len()
    &&& forall|j: int| 0 <= j < ps.len() ==> dist(cur, ps[i]) <= dist(cur, ps[j])
    &&& forall|j: int| 0 <= j < i ==> dist(cur, ps[i]) < dist(cur, ps[j])
}

/// The direction bonus: 2 when a destination is reported and the call's
/// direction agrees with the travel towards it (an up-call when heading up,
/// a down-call when heading down), else 1. A destination equal to the
/// current floor heads neither way.
pub open spec fn bonus(cur: i32, dest: Option<i32>, f: Floor) -> int {
    match dest {
        Some(d) => if (d > cur && f.up) || (d < cur && f.down) { 2 } else { 1 },
        None => 1,
    }
}

/// Load factor in tenths: 3 for an elevator above 0.8 full, else 10.
pub open spec fn load_factor(load_bits: u32) -> int {
    if is_heavy(load_bits) { 3 } else { 10 }
}

/// Numerator of a call's score; the score is
/// `score_num / (10 * (dist + 1))`, i.e. `bonus * factor / (dist + 1)`.
pub open spec fn score_num(cur: i32, dest: Option<i32>, load_bits: u32, f: Floor) -> int {
    bonus(cur, dest, f) * load_factor(load_bits)
}

/// Denominator of a call's score, up to the common factor 10.
pub open spec fn score_den(cur: i32, f: Floor) -> int {
    dist(cur, f.level_val) + 1
}

/// The score of floor `f` is strictly greater than that of floor `g`.
pub open spec fn scores_above(cur: i32, dest: Option<i32>, load_bits: u32, f: Floor, g: Floor) -> bool {
    score_num(cur, dest, load_bits, f) * score_den(cur, g) > score_num(cur, dest, load_bits, g)
        * score_den(cur, f)
}

/// Index of the best-scoring called floor among `fs[0..k]`; the first wins ties.
pub open spec fn best_call_in(cur: i32, dest: Option<i32>, load_bits: u32, fs: Seq<Floor>, k: int) -> Option<int>
    decreases k,
{
    if k <= 0 {
        None
    } else {
        let prev = best_call_in(cur, dest, load_bits, fs, k - 1);
        if fs[k - 1].has_call() {
            match prev {
                None => Some(k - 1),
                Some(j) => if scores_above(cur, dest, load_bits, fs[k - 1], fs[j]) {
                    Some(k - 1)
                } else {
                    Some(j)
                },
            }
        } else {
            prev
        }
    }
}

/// `i` picks a called floor of greatest score, the first such in enumeration order.
pub open spec fn is_best_call(cur: i32, dest: Option<i32>, load_bits: u32, fs: Seq<Floor>, i: int) -> bool {
    &&& 0 <= i < fs.len()
    &&& fs[i].has_call()
    &&& forall|j: int| 0 <= j < fs.len() && fs[j].has_call() ==> !scores_above(cur, dest, load_bits, fs[j], fs[i])
    &&& forall|j: int| 0 <= j < i && fs[j].has_call() ==> scores_above(cur, dest, load_bits, fs[i], fs[j])
}

/// The idle phase of elevator `id` at tick `tick`.
pub open spec fn phase(tick: u64, id: u32) -> int {
    (tick + 25 * id) % 100
}

/// Where an empty idle elevator goes among `n` floors, by phase; `None` with no
/// floors, or where the floor number does not fit an `i32`.
pub open spec fn idle_position(n: int, ph: int) -> Option<i32> {
    let t = if ph < 33 {
        if n / 3 >= 1 { n / 3 } else { 1 }
    } else if ph < 67 {
        n / 2
    } else {
        if 2 * n / 3 <= n - 1 { 2 * n / 3 } else { n - 1 }
    };
    if n == 0 || t > i32::MAX { None } else { Some(t as i32) }
}

/// The floor an elevator resolves to, by the priority cascade: nearest pressed
/// floor; else best called floor; else, when empty, its idle position; else its
/// current floor.
pub open spec fn resolved_target(e_id: u32, cur: i32, dest: Option<i32>, load_bits: u32, ps: Seq<i32>, fs: Seq<Floor>, tick: u64) -> Option<i32> {
    if ps.len() > 0 {
        Some(ps[nearest_in(cur, ps, ps.len() as int)])
    } else {
        match best_call_in(cur, dest, load_bits, fs, fs.len() as int) {
            Some(i) => Some(fs[i].level_val),
            None => if is_empty(load_bits) {
                idle_position(fs.len() as int, phase(tick, e_id))
            } else {
                Some(cur)
            },
        }
    }
}

/// The command target for an elevator: its resolved target where that differs
/// from its current floor.
pub open spec fn command_target(e_id: u32, cur: i32, dest: Option<i32>, load_bits: u32, ps: Seq<i32>, fs: Seq<Floor>, tick: u64) -> Option<i32> {
    match resolved_target(e_id, cur, dest, load_bits, ps, fs, tick) {
        Some(t) => if t != cur { Some(t) } else { None },
        None => None,
    }
}

/// The distance between two floors, as a machine integer.
pub fn distance(a: i32, b: i32) -> (r: u64)
    ensures
        r == dist(a, b),
{
    if a >= b {
        ((a as i64) - (b as i64)) as u64
    } else {
        ((b as i64) - (a as i64)) as u64
    }
}

/// The pressed floor nearest to `cur`, the first one on equal distance.
pub fn nearest_pressed(cur: i32, ps: &[i32]) -> (r: usize)
    requires
        ps@.len() > 0,
    ensures
        r == nearest_in(cur, ps@, ps@.len() as int),
        is_nearest_pressed(cur, ps@, r as int),
{
    let mut best: usize = 0;
    let mut best_d = distance(cur, ps[0]);
    let mut i: usize = 1;
    while i < ps.len()
        invariant
            1 <= i <= ps@.len(),
            best == nearest_in(cur, ps@, i as int),
            best < i,
            best_d == dist(cur, ps@[best as int]),
        decreases ps@.len() - i,
    {
        let d = distance(cur, ps[i]);
        if d < best_d {
            best = i;
            best_d = d;
        }
        i = i + 1;
    }
    proof {
        lemma_nearest_in(cur, ps@, ps@.len() as int);
    }
    best
}

/// `nearest_in` picks the first pressed floor of least distance.
pub proof fn lemma_nearest_in(cur: i32, ps: Seq<i32>, k: int)
    requires
        1 <= k <= ps.len(),
    ensures
        0 <= nearest_in(cur, ps, k) < k,
        forall|j: int| 0 <= j < k ==> dist(cur, ps[nearest_in(cur, ps, k)]) <= #[trigger] dist(cur, ps[j]),
        forall|j: int| 0 <= j < nearest_in(cur, ps, k) ==> dist(cur, ps[nearest_in(cur, ps, k)]) < #[trigger] dist(cur, ps[j]),
    decreases k,
{
    if k > 1 {
        lemma_nearest_in(cur, ps, k - 1);
    }
}

/// The numerator of a call's score, as a machine integer.
fn call_score_num(cur: i32, dest: Option<i32>, load_bits: u32, f: &Floor) -> (r: u64)
    ensures
        r == score_num(cur, dest, load_bits, *f),
        1 <= r <= 20,
{
    let b: u64 = match dest {
        Some(d) => if (d > cur && f.up) || (d < cur && f.down) { 2 } else { 1 },
        None => 1,
    };
    let factor: u64 = if crate::model::HEAVY_LOAD_BITS < load_bits && load_bits
        <= crate::model::POS_INF_BITS {
        3
    } else {
        10
    };
    b * factor
}

/// The called floor of greatest score, the first one on equal scores; `None`
/// when no floor has a call.
pub fn best_call(cur: i32, dest: Option<i32>, load_bits: u32, fs: &[Floor]) -> (r: Option<usize>)
    ensures
        r matches Some(i) ==> best_call_in(cur, dest, load_bits, fs@, fs@.len() as int) == Some(i as int),
        r is None ==> best_call_in(cur, dest, load_bits, fs@, fs@.len() as int) is None,
        r matches Some(i) ==> is_best_call(cur, dest, load_bits, fs@, i as int),
        r is None <==> forall|j: int| 0 <= j < fs@.len() ==> !(#[trigger] fs@[j]).has_call(),
{
    let mut best: Option<usize> = None;
    let mut best_num: u64 = 0;
    let mut best_den: u64 = 1;
    let mut i: usize = 0;
    while i < fs.len()
        invariant
            0 <= i <= fs@.len(),
            best matches Some(b) ==> best_call_in(cur, dest, load_bits, fs@, i as int) == Some(b as int),
            best is None ==> best_call_in(cur, dest, load_bits, fs@, i as int) is None,
            best matches Some(b) ==> b < i && best_num == score_num(cur, dest, load_bits, fs@[b as int])
                && best_den == score_den(cur, fs@[b as int]),
            best_num <= 20,
            1 <= best_den <= 0x1_0000_0000,
        decreases fs@.len() - i,
    {
        let f = &fs[i];
        if f.up || f.down {
            let num = call_score_num(cur, dest, load_bits, f);
            let den = distance(cur, f.level_val) + 1;
            assert(num * best_den <= 20 * 0x1_0000_0000) by (nonlinear_arith)
                requires num <= 20, best_den <= 0x1_0000_0000;
            assert(best_num * den <= 20 * 0x1_0000_0000) by (nonlinear_arith)
                requires best_num <= 20, den <= 0x1_0000_0000;
            match best {
                None => {
                    best = Some(i);
                    best_num = num;
                    best_den = den;
                },
                Some(_) => {
                    if num * best_den > best_num * den {
                        best = Some(i);
                        best_num = num;
                        best_den = den;
                    }
                },
            }
        }
        i = i + 1;
    }
    proof {
        lemma_best_call_in(cur, dest, load_bits, fs@, fs@.len() as int);
    }
    best
}

/// `best_call_in` picks a called floor of greatest score, the first such, and
/// is `None` exactly when no floor in range has a call.
pub proof fn lemma_best_call_in(cur: i32, dest: Option<i32>, load_bits: u32, fs: Seq<Floor>, k: int)
    requires
        0 <= k <= fs.len(),
    ensures
        best_call_in(cur, dest, load_bits, fs, k) is None <==> forall|j: int| 0 <= j < k ==> !(#[trigger] fs[j]).has_call(),
        best_call_in(cur, dest, load_bits, fs, k) matches Some(i) ==> {
            &&& 0 <= i < k
            &&& fs[i].has_call()
            &&& forall|j: int| 0 <= j < k && (#[trigger] fs[j]).has_call() ==> !scores_above(cur, dest, load_bits, fs[j], fs[i])
            &&& forall|j: int| 0 <= j < i && (#[trigger] fs[j]).has_call() ==> scores_above(cur, dest, load_bits, fs[i], fs[j])
        },
    decreases k,
{
    if k > 0 {
        lemma_best_call_in(cur, dest, load_bits, fs, k - 1);
        let prev = best_call_in(cur, dest, load_bits, fs, k - 1);
        if fs[k - 1].has_call() {
            if let Some(p) = prev {
                let f = fs[k - 1];
                let g = fs[p];
                if scores_above(cur, dest, load_bits, f, g) {
                    assert forall|j: int| 0 <= j < k && (#[trigger] fs[j]).has_call() implies !scores_above(cur, dest, load_bits, fs[j], f) by {
                        if j < k - 1 {
                            lemma_score_order(cur, dest, load_bits, fs[j], g, f);
                        }
                    }
                    assert forall|j: int| 0 <= j < k - 1 && (#[trigger] fs[j]).has_call() implies scores_above(cur, dest, load_bits, f, fs[j]) by {
                        lemma_score_order(cur, dest, load_bits, fs[j], g, f);
                    }
                } else {
                    lemma_score_irreflexive(cur, dest, load_bits, g);
                }
            }
        }
    }
}

/// Scores compare as the rationals they stand for: `h <= g < f` gives `h < f`.
proof fn lemma_score_order(cur: i32, dest: Option<i32>, load_bits: u32, h: Floor, g: Floor, f: Floor)
    requires
        !scores_above(cur, dest, load_bits, h, g),
        scores_above(cur, dest, load_bits, f, g),
    ensures
        !scores_above(cur, dest, load_bits, h, f),
        scores_above(cur, dest, load_bits, f, h),
{
    let nh = score_num(cur, dest, load_bits, h);
    let ng = score_num(cur, dest, load_bits, g);
    let nf = score_num(cur, dest, load_bits, f);
    let dh = score_den(cur, h);
    let dg = score_den(cur, g);
    let df = score_den(cur, f);
    assert(nf * dh > nh * df) by (nonlinear_arith)
        requires
            nh * dg <= ng * dh,
            nf * dg > ng * df,
            dh > 0,
            dg > 0,
            df > 0,
    ;
}

/// No score is strictly above itself.
proof fn lemma_score_irreflexive(cur: i32, dest: Option<i32>, load_bits: u32, f: Floor)
    ensures
        !scores_above(cur, dest, load_bits, f, f),
{
}

/// Where an empty idle elevator goes: the bottom third, the middle or the top
/// third of the floor range, by phase.
pub fn idle_target(tick: u64, id: u32, floor_count: usize) -> (r: Option<i32>)
    ensures
        r == idle_position(floor_count as int, phase(tick, id)),
{
    let ph: u64 = (tick % 100 + ((id % 100) as u64) * 25) % 100;
    assert(ph == phase(tick, id)) by (nonlinear_arith)
        requires
            ph == (tick % 100 + (id % 100) * 25) % 100,
    {
        assert((tick + 25 * id) % 100 == (tick % 100 + (id % 100) * 25) % 100) by {
            vstd::arithmetic::div_mod::lemma_add_mod_noop(tick as int, 25 * id, 100);
            vstd::arithmetic::div_mod::lemma_mul_mod_noop_left(id as int, 25, 100);
        }
    }
    if floor_count == 0 {
        return None;
    }
    let n = floor_count;
    let t: usize = if ph < 33 {
        if n / 3 >= 1 { n / 3 } else { 1 }
    } else if ph < 67 {
        n / 2
    } else {
        let two_thirds = n / 3 * 2 + (n % 3) * 2 / 3;
        assert(two_thirds == 2 * n / 3) by (nonlinear_arith)
            requires two_thirds == n / 3 * 2 + (n % 3) * 2 / 3, n >= 0;
        if two_thirds <= n - 1 { two_thirds } else { n - 1 }
    };
    if t > 0x7fff_ffffusize {
        None
    } else {
        Some(t as i32)
    }
}

/// The engine context: the tick counter that phases idle positioning.
pub struct Controller {
    pub tick_counter: u64,
}

impl Controller {
    pub fn new() -> (r: Controller)
        ensures
            r.tick_counter == 0,
    {
        Controller { tick_counter: 0 }
    }

    /// Runs one tick: one command per elevator whose resolved target differs
    /// from its current floor, in elevator order, each naming the elevator's
    /// position in `elevators`; then advances the tick counter.
    pub fn tick(&mut self, elevators: &[Elevator], floors: &[Floor]) -> (r: Vec<(u32, i32)>)
        requires
            elevators@.len() <= u32::MAX,
        ensures
            final(self).tick_counter == (old(self).tick_counter + 1) % 0x1_0000_0000_0000_0000,
            r@ == commands_for(elevators@, floors@, old(self).tick_counter, elevators@.len() as int),
    {
        let mut out: Vec<(u32, i32)> = Vec::new();
        let mut i: usize = 0;
        while i < elevators.len()
            invariant
                0 <= i <= elevators@.len(),
                elevators@.len() <= u32::MAX,
                out@ == commands_for(elevators@, floors@, self.tick_counter, i as int),
            decreases elevators@.len() - i,
        {
            let e = &elevators[i];
            let t = target_floor(e, i as u32, floors, self.tick_counter);
            if let Some(t) = t {
                if t != e.current_floor_val {
                    out.push((i as u32, t));
                }
            }
            i = i + 1;
        }
        self.tick_counter = self.tick_counter.wrapping_add(1);
        out
    }
}

/// The floor elevator `e`, at position `id` of the tick's elevators, resolves
/// to this tick, before redundant commands are dropped.
pub fn target_floor(e: &Elevator, id: u32, fs: &[Floor], tick: u64) -> (r: Option<i32>)
    ensures
        r == resolved_target(id, e.current_floor_val, e.destination_floor_val, e.load_bits,
            e.pressed_buttons@, fs@, tick),
{
    let cur = e.current_floor_val;
    let ps = e.pressed_buttons.as_slice();
    if ps.len() > 0 {
        let i = nearest_pressed(cur, ps);
        return Some(ps[i]);
    }
    match best_call(cur, e.destination_floor_val, e.load_bits, fs) {
        Some(i) => Some(fs[i].level_val),
        None => {
            if e.load_bits < crate::model::EMPTY_LOAD_BITS || (0x8000_0000u32 <= e.load_bits
                && e.load_bits <= crate::model::NEG_INF_BITS) {
                idle_target(tick, id, fs.len())
            } else {
                Some(cur)
            }
        },
    }
}

/// The commands of one tick for the first `k` elevators, in elevator order.
pub open spec fn commands_for(es: Seq<Elevator>, fs: Seq<Floor>, tick: u64, k: int) -> Seq<(u32, i32)>
    decreases k,
{
    if k <= 0 {
        Seq::empty()
    } else {
        let prev = commands_for(es, fs, tick, k - 1);
        let e = es[k - 1];
        match command_target((k - 1) as u32, e.current_floor_val, e.destination_floor_val, e.load_bits, e.pressed_buttons@, fs, tick) {
            Some(t) => prev.push(((k - 1) as u32, t)),
            None => prev,
        }
    }
}

/// With pressed floors, the target is the pressed floor of least distance
/// from the current floor, the first such in the pressed sequence.
pub proof fn lemma_pressed_target(id: u32, cur: i32, dest: Option<i32>, load_bits: u32, ps: Seq<i32>, fs: Seq<Floor>, tick: u64)
    requires
        ps.len() > 0,
    ensures
        is_nearest_pressed(cur, ps, nearest_in(cur, ps, ps.len() as int)),
        resolved_target(id, cur, dest, load_bits, ps, fs, tick) == Some(ps[nearest_in(cur, ps, ps.len() as int)]),
        forall|i: int| #[trigger] is_nearest_pressed(cur, ps, i) ==> i == nearest_in(cur, ps, ps.len() as int),
{
    lemma_nearest_in(cur, ps, ps.len() as int);
    let n = nearest_in(cur, ps, ps.len() as int);
    assert forall|i: int| #[trigger] is_nearest_pressed(cur, ps, i) implies i == n by {
        if i < n {
            assert(dist(cur, ps[n]) <= dist(cur, ps[i]));
        } else if n < i {
            assert(dist(cur, ps[i]) < dist(cur, ps[n]));
        }
    }
}

/// With no pressed floors and some floor calling, the target is the level of a
/// called floor of greatest score, the first such in enumeration order.
pub proof fn lemma_call_target(id: u32, cur: i32, dest: Option<i32>, load_bits: u32, ps: Seq<i32>, fs: Seq<Floor>, tick: u64, c: int)
    requires
        ps.len() == 0,
        0 <= c < fs.len(),
        fs[c].has_call(),
    ensures
        best_call_in(cur, dest, load_bits, fs, fs.len() as int) matches Some(i) && is_best_call(cur, dest, load_bits, fs, i)
            && resolved_target(id, cur, dest, load_bits, ps, fs, tick) == Some(fs[i].level_val),
{
    lemma_best_call_in(cur, dest, load_bits, fs, fs.len() as int);
}

/// The load factor scales every score alike, so it never changes which floor
/// is best.
proof fn lemma_scores_above_load(cur: i32, dest: Option<i32>, l1: u32, l2: u32, f: Floor, g: Floor)
    ensures
        scores_above(cur, dest, l1, f, g) == scores_above(cur, dest, l2, f, g),
{
    let bf = bonus(cur, dest, f);
    let bg = bonus(cur, dest, g);
    let df = score_den(cur, f);
    let dg = score_den(cur, g);
    let a1 = load_factor(l1);
    let a2 = load_factor(l2);
    assert((bf * a1) * dg > (bg * a1) * df <==> bf * dg > bg * df) by (nonlinear_arith)
        requires a1 > 0;
    assert((bf * a2) * dg > (bg * a2) * df <==> bf * dg > bg * df) by (nonlinear_arith)
        requires a2 > 0;
}

/// The best call does not depend on the load factor.
proof fn lemma_best_call_load(cur: i32, dest: Option<i32>, l1: u32, l2: u32, fs: Seq<Floor>, k: int)
    requires
        0 <= k <= fs.len(),
    ensures
        best_call_in(cur, dest, l1, fs, k) == best_call_in(cur, dest, l2, fs, k),
    decreases k,
{
    if k > 0 {
        lemma_best_call_load(cur, dest, l1, l2, fs, k - 1);
        if let Some(j) = best_call_in(cur, dest, l1, fs, k - 1) {
            lemma_scores_above_load(cur, dest, l1, l2, fs[k - 1], fs[j]);
        }
    }
}

/// An elevator above 0.8 full picks the same called floor as an identical
/// elevator that is not, and the chosen score is never greater.
pub proof fn lemma_heavy_score_not_greater(cur: i32, dest: Option<i32>, heavy: u32, light: u32, fs: Seq<Floor>)
    requires
        crate::model::is_heavy(heavy),
        !crate::model::is_heavy(light),
    ensures
        best_call_in(cur, dest, heavy, fs, fs.len() as int) == best_call_in(cur, dest, light, fs, fs.len() as int),
        best_call_in(cur, dest, heavy, fs, fs.len() as int) matches Some(i) ==> score_num(cur, dest, heavy, fs[i])
            < score_num(cur, dest, light, fs[i]),
{
    lemma_best_call_load(cur, dest, heavy, light, fs, fs.len() as int);
}

/// Idle positioning repeats every 100 ticks.
pub proof fn lemma_idle_periodic(id: u32, cur: i32, dest: Option<i32>, load_bits: u32, ps: Seq<i32>, fs: Seq<Floor>, tick: u64)
    requires
        tick + 100 <= u64::MAX,
    ensures
        resolved_target(id, cur, dest, load_bits, ps, fs, (tick + 100) as u64) == resolved_target(id, cur, dest, load_bits, ps, fs, tick),
{
    assert(phase((tick + 100) as u64, id) == phase(tick, id)) by {
        vstd::arithmetic::div_mod::lemma_mod_add_multiples_vanish(tick + 25 * id, 100);
    }
}

/// Elevator `id` positions itself as elevator 0 would 25 * `id` ticks later.
pub proof fn lemma_idle_phase_shift(id: u32, cur: i32, dest: Option<i32>, load_bits: u32, ps: Seq<i32>, fs: Seq<Floor>, tick: u64)
    requires
        tick + 25 * id <= u64::MAX,
    ensures
        resolved_target(id, cur, dest, load_bits, ps, fs, tick) == resolved_target(0, cur, dest, load_bits, ps, fs, (tick + 25 * id) as u64),
{
    assert(phase(tick, id) == phase((tick + 25 * id) as u64, 0));
}

/// An empty elevator with no pressed floors and no calls anywhere goes to the
/// bottom third (`n / 3`, at least 1), the middle (`n / 2`) or the top third
/// (`2 * n / 3`, at most `n - 1`) of the `n` floors, by its phase
/// `(tick + 25 * id) % 100`; a loaded one holds its floor. Floor numbers are
/// `i32` on the wire, so `n` is bounded by `i32::MAX`.
pub proof fn lemma_idle_target(id: u32, cur: i32, dest: Option<i32>, load_bits: u32, fs: Seq<Floor>, tick: u64)
    requires
        0 < fs.len() <= i32::MAX,
        forall|j: int| 0 <= j < fs.len() ==> !(#[trigger] fs[j]).has_call(),
    ensures
        ({
            let n = fs.len() as int;
            let ph = (tick + 25 * id) % 100;
            let t = if ph < 33 {
                if n / 3 >= 1 { n / 3 } else { 1 }
            } else if ph < 67 {
                n / 2
            } else if 2 * n / 3 <= n - 1 {
                2 * n / 3
            } else {
                n - 1
            };
            resolved_target(id, cur, dest, load_bits, Seq::empty(), fs, tick) == if crate::model::is_empty(load_bits) {
                Some(t as i32)
            } else {
                Some(cur)
            }
        }),
{
    lemma_best_call_in(cur, dest, load_bits, fs, fs.len() as int);
    let n = fs.len() as int;
    assert(n / 3 <= n && n / 2 <= n && 2 * n / 3 <= 2 * n) by (nonlinear_arith)
        requires n > 0;
}

} // verus!
