//! Minimum-cost search over a grid under a run-length policy.
//!
//! A path starts on the top-left cell (whose cost is never charged), moves
//! north, south, east or west paying the cost of every cell it enters, and
//! must reach the bottom-right cell.  The policy constrains runs — maximal
//! stretches of consecutive moves in one direction: a path may continue
//! straight only while its run is below `max_run`, and may turn or stop only
//! once its run has reached `min_run`.
//!
//! The search relaxes a table with one cost slot per (cell, direction, run)
//! state until no edge improves it; the resulting fixpoint is proved to be
//! exactly the minimum path cost for every reachable state.

use vstd::prelude::*;
use crate::grid::Grid;
use crate::grid::Heading;
use crate::grid::SearchError;

verus! {

/// The run bounds of one search variant.  A path must take at least
/// `min_run` consecutive steps in a direction before turning or stopping,
/// and may take at most `max_run`.
#[derive(Clone, Copy, Debug, PartialEq, Eq, Structural)]
pub struct Policy {
    pub min_run: usize,
    pub max_run: usize,
}

impl Policy {
    pub open spec fn wf(self) -> bool {
        1 <= self.min_run <= self.max_run
    }

    pub fn new(min_run: usize, max_run: usize) -> (r: Policy)
        requires
            1 <= min_run <= max_run,
        ensures
            r.wf(),
            r.min_run == min_run,
            r.max_run == max_run,
    {
        Policy { min_run, max_run }
    }
}

/// The direction of the move that entered a state, or `Start` for the one
/// state no move has entered.
#[derive(Clone, Copy, Debug, PartialEq, Eq, Structural)]
pub enum PriorMove {
    Start,
    Moved(Heading),
}

/// A vertex of the expanded search graph: a cell, the direction of the move
/// that entered it, and how many consecutive moves kept that direction.
#[derive(Clone, Copy, Debug, PartialEq, Eq, Structural)]
pub struct SearchState {
    pub position: usize,
    pub direction: PriorMove,
    pub run: usize,
}

/// The state every search begins in: the top-left cell, no move made yet.
pub open spec fn start_state() -> SearchState {
    SearchState { position: 0, direction: PriorMove::Start, run: 0 }
}

/// True when the policy lets a path standing in state `s` move once with
/// heading `h`, border aside: no half turn, straight only under the maximum
/// run, a turn only once the minimum run is met.  The first move is free of
/// all three constraints.
pub open spec fn turn_ok(pol: Policy, s: SearchState, h: Heading) -> bool {
    match s.direction {
        PriorMove::Start => true,
        PriorMove::Moved(d) => {
            &&& h != d.opposite_spec()
            &&& (h == d ==> s.run < pol.max_run)
            &&& (h != d ==> s.run >= pol.min_run)
        },
    }
}

/// True when a path standing in state `s` may move once with heading `h`:
/// the policy allows the turn and the step stays on the grid.
pub open spec fn move_ok(g: Grid, pol: Policy, s: SearchState, h: Heading) -> bool {
    turn_ok(pol, s, h) && g.step_spec(s.position as int, h) is Some
}

/// The state that one move with heading `h` from state `s` enters.
pub open spec fn next_state(g: Grid, s: SearchState, h: Heading) -> SearchState {
    SearchState {
        position: g.step_spec(s.position as int, h)->0 as usize,
        direction: PriorMove::Moved(h),
        run: if s.direction == PriorMove::Moved(h) { (s.run + 1) as usize } else { 1 },
    }
}

/// The state in which the move sequence `p`, taken from the start, ends.
pub open spec fn path_state(g: Grid, p: Seq<Heading>) -> SearchState
    decreases p.len(),
{
    if p.len() == 0 {
        start_state()
    } else {
        next_state(g, path_state(g, p.drop_last()), p.last())
    }
}

/// True when every move of `p`, taken in order from the start, is legal on
/// grid `g` under policy `pol`.
pub open spec fn path_ok(g: Grid, pol: Policy, p: Seq<Heading>) -> bool
    decreases p.len(),
{
    p.len() == 0 || (path_ok(g, pol, p.drop_last()) && move_ok(
        g,
        pol,
        path_state(g, p.drop_last()),
        p.last(),
    ))
}

/// The cost of `p`: the sum of the costs of every cell it enters.  The start
/// cell is never charged.
pub open spec fn path_cost(g: Grid, p: Seq<Heading>) -> int
    decreases p.len(),
{
    if p.len() == 0 {
        0
    } else {
        path_cost(g, p.drop_last()) + g.cost_spec(path_state(g, p).position as int)
    }
}

/// True when a path ending in state `s` may stop and count as done: it
/// stands on the bottom-right cell and has completed its minimum run.  The
/// empty path qualifies only when the minimum run is one.
pub open spec fn qualifies(g: Grid, pol: Policy, s: SearchState) -> bool {
    &&& s.position as int == g.target_spec()
    &&& match s.direction {
        PriorMove::Start => pol.min_run <= 1,
        PriorMove::Moved(_) => s.run >= pol.min_run,
    }
}

/// Exactly what the search may answer.  `Ok(c)` means some qualifying path
/// costs `c` and no qualifying path costs less; `Err(NoPathFound)` means no
/// qualifying path exists at all.
pub open spec fn minimal_cost_outcome(g: Grid, pol: Policy, r: Result<u64, SearchError>) -> bool {
    match r {
        Ok(c) => {
            &&& exists|p: Seq<Heading>|
                #[trigger] path_ok(g, pol, p) && qualifies(g, pol, path_state(g, p)) && path_cost(
                    g,
                    p,
                ) == c
            &&& forall|p: Seq<Heading>|
                #[trigger] path_ok(g, pol, p) && qualifies(g, pol, path_state(g, p)) ==> path_cost(
                    g,
                    p,
                ) >= c
        },
        Err(e) => {
            &&& e == SearchError::NoPathFound
            &&& forall|p: Seq<Heading>|
                #[trigger] path_ok(g, pol, p) ==> !qualifies(g, pol, path_state(g, p))
        },
    }
}

/// One slot per (cell, heading, run) state, and one for the start state.
pub open spec fn table_len(g: Grid, pol: Policy) -> int {
    1 + g.len_spec() * 4 * (pol.max_run as int)
}

/// True when `s` is a state the search over `g` under `pol` can meet.
pub open spec fn state_in_range(g: Grid, pol: Policy, s: SearchState) -> bool {
    match s.direction {
        PriorMove::Start => s == start_state(),
        PriorMove::Moved(_) => (s.position as int) < g.len_spec() && 1 <= s.run <= pol.max_run,
    }
}

/// The heading's place in the fixed enumeration north, south, east, west.
pub open spec fn heading_index(h: Heading) -> int {
    match h {
        Heading::North => 0,
        Heading::South => 1,
        Heading::East => 2,
        Heading::West => 3,
    }
}

/// The table slot that tracks state `s`.
pub open spec fn slot(pol: Policy, s: SearchState) -> int {
    match s.direction {
        PriorMove::Start => 0,
        PriorMove::Moved(d) => 1 + ((s.position as int) * 4 + heading_index(d)) * (
        pol.max_run as int) + (s.run - 1),
    }
}

/// The machine limits a search needs: the state table must be addressable,
/// and no accumulated cost may come near its 64-bit slot's sentinel.
pub open spec fn fits(g: Grid, pol: Policy) -> bool {
    &&& table_len(g, pol) <= usize::MAX as int
    &&& 9 * table_len(g, pol) + 9 < u64::MAX as int
}

/// Every state the search can meet has a slot inside the table.
proof fn lemma_slot_in_range(g: Grid, pol: Policy, s: SearchState)
    requires
        g.wf(),
        pol.wf(),
        state_in_range(g, pol, s),
    ensures
        0 <= slot(pol, s) < table_len(g, pol),
        s.direction is Moved ==> 1 <= slot(pol, s),
{
    match s.direction {
        PriorMove::Start => {},
        PriorMove::Moved(d) => {
            let p = s.position as int;
            let hi = heading_index(d);
            let rr = s.run - 1;
            let n = g.len_spec();
            let mr = pol.max_run as int;
            assert(0 <= (p * 4 + hi) * mr + rr && (p * 4 + hi) * mr + rr < n * 4 * mr)
                by (nonlinear_arith)
                requires
                    0 <= p < n,
                    0 <= hi < 4,
                    0 <= rr < mr,
                    mr >= 1;
        },
    }
}

/// Distinct states the search can meet use distinct slots.
proof fn lemma_slot_injective(g: Grid, pol: Policy, s1: SearchState, s2: SearchState)
    requires
        g.wf(),
        pol.wf(),
        state_in_range(g, pol, s1),
        state_in_range(g, pol, s2),
        slot(pol, s1) == slot(pol, s2),
    ensures
        s1 == s2,
{
    lemma_slot_in_range(g, pol, s1);
    lemma_slot_in_range(g, pol, s2);
    match (s1.direction, s2.direction) {
        (PriorMove::Start, PriorMove::Start) => {},
        (PriorMove::Moved(d1), PriorMove::Moved(d2)) => {
            let mr = pol.max_run as int;
            let a1 = (s1.position as int) * 4 + heading_index(d1);
            let a2 = (s2.position as int) * 4 + heading_index(d2);
            let x = slot(pol, s1) - 1;
            vstd::arithmetic::div_mod::lemma_fundamental_div_mod_converse(
                x, mr, a1, s1.run - 1);
            vstd::arithmetic::div_mod::lemma_fundamental_div_mod_converse(
                x, mr, a2, s2.run - 1);
            vstd::arithmetic::div_mod::lemma_fundamental_div_mod_converse(
                a1, 4, s1.position as int, heading_index(d1));
            vstd::arithmetic::div_mod::lemma_fundamental_div_mod_converse(
                a2, 4, s2.position as int, heading_index(d2));
            assert(heading_index(d1) == heading_index(d2));
            assert(d1 == d2);
        },
        _ => {},
    }
}

/// Count of slots that hold a known cost rather than the sentinel.
pub open spec fn filled(t: Seq<u64>) -> int
    decreases t.len(),
{
    if t.len() == 0 {
        0
    } else {
        filled(t.drop_last()) + if t.last() != u64::MAX {
            1int
        } else {
            0int
        }
    }
}

/// The sum of all slots: the measure every successful relaxation lowers.
pub open spec fn total(t: Seq<u64>) -> int
    decreases t.len(),
{
    if t.len() == 0 {
        0
    } else {
        total(t.drop_last()) + t.last()
    }
}

proof fn lemma_filled_bounds(t: Seq<u64>)
    ensures
        0 <= filled(t) <= t.len(),
    decreases t.len(),
{
    if t.len() > 0 {
        lemma_filled_bounds(t.drop_last());
    }
}

proof fn lemma_total_nonneg(t: Seq<u64>)
    ensures
        total(t) >= 0,
    decreases t.len(),
{
    if t.len() > 0 {
        lemma_total_nonneg(t.drop_last());
    }
}

proof fn lemma_filled_all_unreached(t: Seq<u64>)
    requires
        forall|i: int| 0 <= i < t.len() ==> #[trigger] t[i] == u64::MAX,
    ensures
        filled(t) == 0,
    decreases t.len(),
{
    if t.len() > 0 {
        lemma_filled_all_unreached(t.drop_last());
    }
}

/// How one update moves the filled count.
proof fn lemma_filled_update(t: Seq<u64>, i: int, v: u64)
    requires
        0 <= i < t.len(),
    ensures
        filled(t.update(i, v)) == filled(t) + if v != u64::MAX && t[i] == u64::MAX {
            1int
        } else if v == u64::MAX && t[i] != u64::MAX {
            -1int
        } else {
            0int
        },
    decreases t.len(),
{
    let tu = t.update(i, v);
    if i == t.len() - 1 {
        assert(tu.drop_last() =~= t.drop_last());
    } else {
        assert(tu.drop_last() =~= t.drop_last().update(i, v));
        lemma_filled_update(t.drop_last(), i, v);
    }
}

/// How one update moves the total.
proof fn lemma_total_update(t: Seq<u64>, i: int, v: u64)
    requires
        0 <= i < t.len(),
    ensures
        total(t.update(i, v)) == total(t) - t[i] + v,
    decreases t.len(),
{
    let tu = t.update(i, v);
    if i == t.len() - 1 {
        assert(tu.drop_last() =~= t.drop_last());
    } else {
        assert(tu.drop_last() =~= t.drop_last().update(i, v));
        lemma_total_update(t.drop_last(), i, v);
    }
}

/// True when the edge from state `s` with heading `h` cannot improve the
/// table: either `s` has no known cost or the move is illegal, or the
/// successor's cost is already at most the cost through `s`.
pub open spec fn edge_relaxed(g: Grid, pol: Policy, t: Seq<u64>, s: SearchState, h: Heading) -> bool {
    (state_in_range(g, pol, s) && t[slot(pol, s)] != u64::MAX && move_ok(g, pol, s, h)) ==> {
        let nx = next_state(g, s, h);
        &&& t[slot(pol, nx)] != u64::MAX
        &&& t[slot(pol, nx)] <= t[slot(pol, s)] + g.cost_spec(nx.position as int)
    }
}

/// True when no edge at all can improve the table: the search's fixpoint.
pub open spec fn all_relaxed(g: Grid, pol: Policy, t: Seq<u64>) -> bool {
    forall|s: SearchState, h: Heading| #[trigger] edge_relaxed(g, pol, t, s, h)
}

/// The distance table of one search.  Slot `slot(pol, s)` holds the cheapest
/// known cost of reaching state `s`, or `u64::MAX` while none is known.
pub struct CostTable {
    pub dist: Vec<u64>,
}

impl CostTable {
    /// Everything a search maintains about its table: one slot per state, the
    /// start costs nothing, every known cost is the cost of some legal path to
    /// its state, and known costs stay under the overflow bound.
    pub open spec fn wf(self, g: Grid, pol: Policy) -> bool {
        &&& g.wf() && pol.wf() && fits(g, pol)
        &&& self.dist@.len() == table_len(g, pol)
        &&& self.dist@[0] == 0
        &&& forall|s: SearchState|
            state_in_range(g, pol, s) && #[trigger] self.dist@[slot(pol, s)] != u64::MAX
                ==> exists|p: Seq<Heading>|
                #[trigger] path_ok(g, pol, p) && path_state(g, p) == s && path_cost(g, p)
                    == self.dist@[slot(pol, s)]
        &&& forall|i: int|
            0 <= i < self.dist@.len() && #[trigger] self.dist@[i] != u64::MAX ==> self.dist@[i]
                <= 9 * filled(self.dist@)
    }

    /// A fresh table: the start state costs nothing, all else is unknown.
    pub fn new(g: &Grid, pol: Policy) -> (r: CostTable)
        requires
            g.wf(),
            pol.wf(),
            fits(*g, pol),
        ensures
            r.wf(*g, pol),
    {
        proof {
            let n = g.len_spec();
            let mr = pol.max_run as int;
            assert(n * 4 >= 0 && n * 4 <= n * 4 * mr) by (nonlinear_arith)
                requires n >= 1 && mr >= 1;
        }
        let len: usize = g.len();
        let slots: usize = 1 + len * 4 * pol.max_run;
        let mut dist: Vec<u64> = vec![u64::MAX; slots];
        proof {
            lemma_filled_all_unreached(dist@);
            lemma_filled_update(dist@, 0, 0);
        }
        dist.set(0, 0);
        let r = CostTable { dist };
        proof {
            let empty: Seq<Heading> = Seq::empty();
            assert(path_ok(*g, pol, empty) && path_state(*g, empty) == start_state()
                && path_cost(*g, empty) == 0);
            assert forall|s: SearchState|
                state_in_range(*g, pol, s) && #[trigger] r.dist@[slot(pol, s)] != u64::MAX
                implies exists|p: Seq<Heading>|
                    #[trigger] path_ok(*g, pol, p) && path_state(*g, p) == s && path_cost(*g, p)
                        == r.dist@[slot(pol, s)] by {
                lemma_slot_in_range(*g, pol, s);
                if s.direction is Moved {
                    assert(r.dist@[slot(pol, s)] == u64::MAX);
                } else {
                    assert(s == start_state());
                    assert(path_ok(*g, pol, empty) && path_state(*g, empty) == s
                        && path_cost(*g, empty) == r.dist@[slot(pol, s)]);
                }
            }
        }
        r
    }
}

/// Overflow-safe intermediate bounds for computing a state's slot.
proof fn lemma_slot_arith(g: Grid, pol: Policy, s: SearchState)
    requires
        g.wf(),
        pol.wf(),
        fits(g, pol),
        state_in_range(g, pol, s),
        s.direction is Moved,
    ensures
        (s.position as int) * 4 + 3 < table_len(g, pol),
        ((s.position as int) * 4 + heading_index(s.direction->0)) * (pol.max_run as int)
            < table_len(g, pol),
{
    let p = s.position as int;
    let hi = heading_index(s.direction->0);
    let n = g.len_spec();
    let mr = pol.max_run as int;
    assert(p * 4 + 3 < 1 + n * 4 * mr && (p * 4 + hi) * mr < 1 + n * 4 * mr)
        by (nonlinear_arith)
        requires
            0 <= p < n,
            0 <= hi < 4,
            mr >= 1;
}

/// The table slot of state `s`, computed without overflow.
fn slot_of(g: &Grid, pol: Policy, s: SearchState) -> (r: usize)
    requires
        g.wf(),
        pol.wf(),
        fits(*g, pol),
        state_in_range(*g, pol, s),
    ensures
        r as int == slot(pol, s),
        (r as int) < table_len(*g, pol),
{
    match s.direction {
        PriorMove::Start => 0,
        PriorMove::Moved(d) => {
            proof {
                lemma_slot_in_range(*g, pol, s);
                lemma_slot_arith(*g, pol, s);
            }
            let hi: usize = match d {
                Heading::North => 0,
                Heading::South => 1,
                Heading::East => 2,
                Heading::West => 3,
            };
            1 + (s.position * 4 + hi) * pol.max_run + (s.run - 1)
        },
    }
}

/// A move always changes the cell, so a state and its successor use
/// different table slots.
proof fn lemma_next_state_differs(g: Grid, pol: Policy, s: SearchState, h: Heading)
    requires
        g.wf(),
        pol.wf(),
        state_in_range(g, pol, s),
        move_ok(g, pol, s, h),
    ensures
        next_state(g, s, h).position != s.position,
        state_in_range(g, pol, next_state(g, s, h)),
        slot(pol, next_state(g, s, h)) != slot(pol, s),
{
    g.lemma_width_le_len();
    g.lemma_step_in_bounds(s.position as int, h);
    vstd::std_specs::vec::axiom_spec_len(&g.tiles);
    assert(g.len_spec() <= usize::MAX as int);
    let nx = next_state(g, s, h);
    assert(state_in_range(g, pol, nx));
    if slot(pol, nx) == slot(pol, s) {
        lemma_slot_injective(g, pol, nx, s);
    }
}

impl CostTable {
    /// Relaxes every outgoing edge of state `s` once.  No slot's cost ever
    /// rises; where nothing changed, every edge of `s` is certified relaxed.
    fn relax_state(&mut self, g: &Grid, pol: Policy, s: SearchState) -> (changed: bool)
        requires
            old(self).wf(*g, pol),
            state_in_range(*g, pol, s),
        ensures
            final(self).wf(*g, pol),
            final(self).dist@.len() == old(self).dist@.len(),
            forall|i: int|
                0 <= i < old(self).dist@.len() ==> #[trigger] final(self).dist@[i] <= old(
                    self,
                ).dist@[i],
            changed ==> total(final(self).dist@) < total(old(self).dist@),
            !changed ==> final(self).dist@ == old(self).dist@ && forall|h: Heading|
                #[trigger] edge_relaxed(*g, pol, final(self).dist@, s, h),
    {
        let sl: usize = slot_of(g, pol, s);
        let d: u64 = self.dist[sl];
        if d == u64::MAX {
            proof {
                assert forall|h: Heading| #[trigger] edge_relaxed(*g, pol, self.dist@, s, h) by {
                    assert(self.dist@[slot(pol, s)] == u64::MAX);
                }
            }
            return false;
        }
        let mut changed = false;
        let mut k: usize = 0;
        while k < 4
            invariant
                self.wf(*g, pol),
                g.wf(),
                pol.wf(),
                state_in_range(*g, pol, s),
                k <= 4,
                d != u64::MAX,
                self.dist@[slot(pol, s)] == d,
                self.dist@.len() == old(self).dist@.len(),
                forall|i: int|
                    0 <= i < old(self).dist@.len() ==> #[trigger] self.dist@[i] <= old(
                        self,
                    ).dist@[i],
                changed ==> total(self.dist@) < total(old(self).dist@),
                !changed ==> self.dist@ == old(self).dist@ && forall|h: Heading|
                    heading_index(h) < k ==> #[trigger] edge_relaxed(*g, pol, self.dist@, s, h),
            decreases 4 - k,
        {
            let h: Heading = Heading::from_index(k);
            proof {
                assert(heading_index(h) == k);
            }
            let step_allowed: bool = turn_allowed(pol, s, h);
            let mut relaxed_here: bool = true;
            if step_allowed {
                if let Some(p2) = g.step(s.position, h) {
                    proof {
                        lemma_slot_in_range(*g, pol, s);
                        lemma_filled_bounds(self.dist@);
                        assert(self.dist@[slot(pol, s)] <= 9 * filled(self.dist@));
                    }
                    let w: u8 = g.cost(p2);
                    let alt: u64 = d + (w as u64);
                    let run2: usize = if s.direction == PriorMove::Moved(h) {
                        s.run + 1
                    } else {
                        1
                    };
                    let nx = SearchState {
                        position: p2,
                        direction: PriorMove::Moved(h),
                        run: run2,
                    };
                    proof {
                        assert(move_ok(*g, pol, s, h));
                        assert(nx == next_state(*g, s, h));
                        lemma_next_state_differs(*g, pol, s, h);
                    }
                    let sl2: usize = slot_of(g, pol, nx);
                    if alt < self.dist[sl2] {
                        proof {
                            lemma_total_update(self.dist@, sl2 as int, alt);
                            lemma_filled_update(self.dist@, sl2 as int, alt);
                            lemma_filled_bounds(self.dist@);
                            lemma_slot_in_range(*g, pol, nx);
                        }
                        let ghost t0 = self.dist@;
                        let ghost f0 = filled(self.dist@);
                        self.dist.set(sl2, alt);
                        proof {
                            let t1 = self.dist@;
                            assert(filled(t1) >= f0);
                            // every remaining known cost keeps its overflow bound
                            assert forall|i: int|
                                0 <= i < t1.len() && #[trigger] t1[i] != u64::MAX implies t1[i]
                                <= 9 * filled(t1) by {
                                if i != sl2 as int {
                                    assert(t1[i] == t0[i]);
                                }
                            }
                            // every known cost still has a legal path of that cost
                            let pw = choose|p: Seq<Heading>|
                                #[trigger] path_ok(*g, pol, p) && path_state(*g, p) == s
                                    && path_cost(*g, p) == d;
                            let pw2 = pw.push(h);
                            assert(pw2.drop_last() == pw);
                            assert(pw2.last() == h);
                            assert(path_ok(*g, pol, pw2));
                            assert(path_state(*g, pw2) == nx);
                            assert(path_cost(*g, pw2) == alt);
                            assert forall|s3: SearchState|
                                state_in_range(*g, pol, s3) && #[trigger] t1[slot(pol, s3)]
                                    != u64::MAX implies exists|p: Seq<Heading>|
                                #[trigger] path_ok(*g, pol, p) && path_state(*g, p) == s3
                                    && path_cost(*g, p) == t1[slot(pol, s3)] by {
                                lemma_slot_in_range(*g, pol, s3);
                                if slot(pol, s3) == sl2 as int {
                                    lemma_slot_injective(*g, pol, s3, nx);
                                    assert(path_ok(*g, pol, pw2) && path_state(*g, pw2) == s3
                                        && path_cost(*g, pw2) == t1[slot(pol, s3)]);
                                } else {
                                    assert(t1[slot(pol, s3)] == t0[slot(pol, s3)]);
                                }
                            }
                            assert(self.wf(*g, pol));
                        }
                        changed = true;
                        relaxed_here = false;
                    } else {
                        proof {
                            // the successor's cost already beats this edge
                            assert(9 * table_len(*g, pol) + 9 < u64::MAX as int);
                            assert((alt as int) < u64::MAX as int);
                            assert(self.dist@[slot(pol, nx)] != u64::MAX);
                        }
                    }
                }
            }
            proof {
                if !changed {
                    assert forall|h2: Heading| heading_index(h2) < k + 1 implies
                        #[trigger] edge_relaxed(*g, pol, self.dist@, s, h2) by {
                        if heading_index(h2) == k as int {
                            assert(h2 == h);
                        }
                    }
                }
            }
            k = k + 1;
        }
        proof {
            if !changed {
                assert forall|h: Heading| #[trigger] edge_relaxed(*g, pol, self.dist@, s, h) by {
                    assert(heading_index(h) < 4);
                }
            }
        }
        changed
    }
}

/// True when state `s` comes strictly before the (cell, heading, run) triple
/// the relaxation sweep currently stands on; the start state is always first.
pub open spec fn scanned_before(pol: Policy, s: SearchState, pos: int, k: int, run: int) -> bool {
    match s.direction {
        PriorMove::Start => true,
        PriorMove::Moved(d) => {
            let sp = s.position as int;
            let si = heading_index(d);
            let sr = s.run as int;
            sp < pos || (sp == pos && (si < k || (si == k && sr < run)))
        },
    }
}

impl CostTable {
    /// One full sweep: relaxes every edge of every state once.  No slot's
    /// cost ever rises.  Where the sweep changed nothing, the whole table is
    /// a fixpoint: no edge at all can improve it.
    pub fn relax_pass(&mut self, g: &Grid, pol: Policy) -> (changed: bool)
        requires
            old(self).wf(*g, pol),
        ensures
            final(self).wf(*g, pol),
            final(self).dist@.len() == old(self).dist@.len(),
            forall|i: int|
                0 <= i < old(self).dist@.len() ==> #[trigger] final(self).dist@[i] <= old(
                    self,
                ).dist@[i],
            changed ==> total(final(self).dist@) < total(old(self).dist@),
            !changed ==> final(self).dist@ == old(self).dist@ && all_relaxed(
                *g,
                pol,
                final(self).dist@,
            ),
    {
        let start = SearchState { position: 0, direction: PriorMove::Start, run: 0 };
        let mut changed = self.relax_state(g, pol, start);
        let len: usize = g.len();
        proof {
            let n = g.len_spec();
            let mr = pol.max_run as int;
            assert(mr <= n * 4 * mr) by (nonlinear_arith)
                requires n >= 1 && mr >= 1;
        }
        let mut pos: usize = 0;
        while pos < len
            invariant
                self.wf(*g, pol),
                g.wf(),
                pol.wf(),
                len == g.len_spec(),
                pol.max_run < usize::MAX,
                pos <= len,
                self.dist@.len() == old(self).dist@.len(),
                forall|i: int|
                    0 <= i < old(self).dist@.len() ==> #[trigger] self.dist@[i] <= old(
                        self,
                    ).dist@[i],
                changed ==> total(self.dist@) < total(old(self).dist@),
                !changed ==> self.dist@ == old(self).dist@,
                !changed ==> forall|h: Heading|
                    #[trigger] edge_relaxed(*g, pol, self.dist@, start_state(), h),
                !changed ==> forall|s: SearchState, h: Heading|
                    state_in_range(*g, pol, s) && scanned_before(pol, s, pos as int, 0, 1)
                        ==> #[trigger] edge_relaxed(*g, pol, self.dist@, s, h),
            decreases len - pos,
        {
            let mut k: usize = 0;
            while k < 4
                invariant
                    self.wf(*g, pol),
                    g.wf(),
                    pol.wf(),
                    len == g.len_spec(),
                    pol.max_run < usize::MAX,
                    pos < len,
                    k <= 4,
                    self.dist@.len() == old(self).dist@.len(),
                    forall|i: int|
                        0 <= i < old(self).dist@.len() ==> #[trigger] self.dist@[i] <= old(
                            self,
                        ).dist@[i],
                    changed ==> total(self.dist@) < total(old(self).dist@),
                    !changed ==> self.dist@ == old(self).dist@,
                    !changed ==> forall|h: Heading|
                        #[trigger] edge_relaxed(*g, pol, self.dist@, start_state(), h),
                    !changed ==> forall|s: SearchState, h: Heading|
                        state_in_range(*g, pol, s) && scanned_before(pol, s, pos as int, k as int, 1)
                            ==> #[trigger] edge_relaxed(*g, pol, self.dist@, s, h),
                decreases 4 - k,
            {
                let heading: Heading = Heading::from_index(k);
                proof {
                    assert(heading_index(heading) == k);
                }
                let mut run: usize = 1;
                while run <= pol.max_run
                    invariant
                        self.wf(*g, pol),
                        g.wf(),
                        pol.wf(),
                        len == g.len_spec(),
                        pol.max_run < usize::MAX,
                        pos < len,
                        k < 4,
                        heading == Heading::from_index_spec(k as int),
                        heading_index(heading) == k as int,
                        1 <= run <= pol.max_run + 1,
                        self.dist@.len() == old(self).dist@.len(),
                        forall|i: int|
                            0 <= i < old(self).dist@.len() ==> #[trigger] self.dist@[i] <= old(
                                self,
                            ).dist@[i],
                        changed ==> total(self.dist@) < total(old(self).dist@),
                        !changed ==> self.dist@ == old(self).dist@,
                        !changed ==> forall|h: Heading|
                            #[trigger] edge_relaxed(*g, pol, self.dist@, start_state(), h),
                        !changed ==> forall|s: SearchState, h: Heading|
                            state_in_range(*g, pol, s) && scanned_before(
                                pol,
                                s,
                                pos as int,
                                k as int,
                                run as int,
                            ) ==> #[trigger] edge_relaxed(*g, pol, self.dist@, s, h),
                    decreases pol.max_run + 1 - run,
                {
                    let s = SearchState {
                        position: pos,
                        direction: PriorMove::Moved(heading),
                        run,
                    };
                    let ghost was_changed = changed;
                    let ch = self.relax_state(g, pol, s);
                    changed = changed || ch;
                    proof {
                        if !changed {
                            assert forall|s2: SearchState, h: Heading|
                                state_in_range(*g, pol, s2) && scanned_before(
                                    pol,
                                    s2,
                                    pos as int,
                                    k as int,
                                    run + 1,
                                ) implies #[trigger] edge_relaxed(*g, pol, self.dist@, s2, h) by {
                                if !scanned_before(pol, s2, pos as int, k as int, run as int) {
                                    match s2.direction {
                                        PriorMove::Start => {},
                                        PriorMove::Moved(d2) => {
                                            assert(heading_index(d2) == heading_index(heading));
                                            assert(d2 == heading);
                                            assert(s2 == s);
                                        },
                                    }
                                }
                            }
                        }
                    }
                    run = run + 1;
                }
                k = k + 1;
            }
            pos = pos + 1;
        }
        proof {
            if !changed {
                assert forall|s: SearchState, h: Heading|
                    #[trigger] edge_relaxed(*g, pol, self.dist@, s, h) by {
                    if state_in_range(*g, pol, s) {
                        match s.direction {
                            PriorMove::Start => {
                                assert(s == start_state());
                            },
                            PriorMove::Moved(_) => {
                                assert(scanned_before(pol, s, len as int, 0, 1));
                            },
                        }
                    } else {
                        // an out-of-range state relaxes vacuously
                    }
                }
            }
        }
        changed
    }

    /// Sweeps until a whole pass changes nothing.  The result is a fixpoint
    /// table in which, moreover, no cost ever rose along the way.
    pub fn solve(&mut self, g: &Grid, pol: Policy)
        requires
            old(self).wf(*g, pol),
        ensures
            final(self).wf(*g, pol),
            final(self).dist@.len() == old(self).dist@.len(),
            forall|i: int|
                0 <= i < old(self).dist@.len() ==> #[trigger] final(self).dist@[i] <= old(
                    self,
                ).dist@[i],
            all_relaxed(*g, pol, final(self).dist@),
    {
        loop
            invariant
                self.wf(*g, pol),
                self.dist@.len() == old(self).dist@.len(),
                forall|i: int|
                    0 <= i < old(self).dist@.len() ==> #[trigger] self.dist@[i] <= old(
                        self,
                    ).dist@[i],
            ensures
                self.wf(*g, pol),
                self.dist@.len() == old(self).dist@.len(),
                forall|i: int|
                    0 <= i < old(self).dist@.len() ==> #[trigger] self.dist@[i] <= old(
                        self,
                    ).dist@[i],
                all_relaxed(*g, pol, self.dist@),
            decreases total(self.dist@),
        {
            proof {
                lemma_total_nonneg(self.dist@);
            }
            let changed = self.relax_pass(g, pol);
            proof {
                lemma_total_nonneg(self.dist@);
            }
            if !changed {
                break;
            }
        }
    }
}

impl CostTable {
    /// Reads the answer off a fixpoint table: the least known cost over all
    /// states that stand on the target with their minimum run completed, or
    /// `NoPathFound` when no such state was ever reached.
    pub fn best(&self, g: &Grid, pol: Policy) -> (r: Result<u64, SearchError>)
        requires
            self.wf(*g, pol),
            all_relaxed(*g, pol, self.dist@),
        ensures
            minimal_cost_outcome(*g, pol, r),
    {
        let target: usize = g.len() - 1;
        proof {
            let n = g.len_spec();
            let mr = pol.max_run as int;
            assert(mr <= n * 4 * mr) by (nonlinear_arith)
                requires n >= 1 && mr >= 1;
        }
        let mut lowest: u64 = u64::MAX;
        if target == 0 && pol.min_run <= 1 {
            proof {
                let empty: Seq<Heading> = Seq::empty();
                assert(path_ok(*g, pol, empty) && qualifies(*g, pol, path_state(*g, empty))
                    && path_cost(*g, empty) == 0);
            }
            lowest = 0;
        }
        let mut k: usize = 0;
        while k < 4
            invariant
                self.wf(*g, pol),
                g.wf(),
                pol.wf(),
                all_relaxed(*g, pol, self.dist@),
                pol.max_run < usize::MAX,
                target as int == g.target_spec(),
                k <= 4,
                lowest != u64::MAX ==> exists|p: Seq<Heading>|
                    #[trigger] path_ok(*g, pol, p) && qualifies(*g, pol, path_state(*g, p))
                        && path_cost(*g, p) == lowest,
                qualifies(*g, pol, start_state()) ==> lowest == 0,
                forall|s: SearchState|
                    state_in_range(*g, pol, s) && qualifies(*g, pol, s) && scanned_before(
                        pol,
                        s,
                        target as int,
                        k as int,
                        pol.min_run as int,
                    ) && s.position == target ==> #[trigger] self.dist@[slot(pol, s)] >= lowest,
            decreases 4 - k,
        {
            let heading: Heading = Heading::from_index(k);
            proof {
                assert(heading_index(heading) == k);
            }
            let mut run: usize = pol.min_run;
            while run <= pol.max_run
                invariant
                    self.wf(*g, pol),
                    g.wf(),
                    pol.wf(),
                    all_relaxed(*g, pol, self.dist@),
                    pol.max_run < usize::MAX,
                    target as int == g.target_spec(),
                    k < 4,
                    heading == Heading::from_index_spec(k as int),
                    heading_index(heading) == k as int,
                    pol.min_run <= run <= pol.max_run + 1,
                    lowest != u64::MAX ==> exists|p: Seq<Heading>|
                        #[trigger] path_ok(*g, pol, p) && qualifies(*g, pol, path_state(*g, p))
                            && path_cost(*g, p) == lowest,
                    qualifies(*g, pol, start_state()) ==> lowest == 0,
                    forall|s: SearchState|
                        state_in_range(*g, pol, s) && qualifies(*g, pol, s) && scanned_before(
                            pol,
                            s,
                            target as int,
                            k as int,
                            run as int,
                        ) && s.position == target ==> #[trigger] self.dist@[slot(pol, s)] >= lowest,
                decreases pol.max_run + 1 - run,
            {
                let s = SearchState {
                    position: target,
                    direction: PriorMove::Moved(heading),
                    run,
                };
                let sl: usize = slot_of(g, pol, s);
                let v: u64 = self.dist[sl];
                let ghost before = lowest;
                if v < lowest {
                    proof {
                        assert(self.dist@[slot(pol, s)] != u64::MAX);
                        let pw = choose|p: Seq<Heading>|
                            #[trigger] path_ok(*g, pol, p) && path_state(*g, p) == s && path_cost(
                                *g,
                                p,
                            ) == v;
                        assert(qualifies(*g, pol, path_state(*g, pw)));
                    }
                    lowest = v;
                }
                proof {
                    assert forall|s2: SearchState|
                        state_in_range(*g, pol, s2) && qualifies(*g, pol, s2) && scanned_before(
                            pol,
                            s2,
                            target as int,
                            k as int,
                            run + 1,
                        ) && s2.position == target implies #[trigger] self.dist@[slot(pol, s2)]
                        >= lowest by {
                        if !scanned_before(pol, s2, target as int, k as int, run as int) {
                            match s2.direction {
                                PriorMove::Start => {},
                                PriorMove::Moved(d2) => {
                                    assert(heading_index(d2) == heading_index(heading));
                                    assert(d2 == heading);
                                    assert(s2 == s);
                                },
                            }
                        }
                    }
                }
                run = run + 1;
            }
            k = k + 1;
        }
        if lowest == u64::MAX {
            proof {
                assert forall|p: Seq<Heading>| #[trigger] path_ok(*g, pol, p) implies !qualifies(
                    *g,
                    pol,
                    path_state(*g, p),
                ) by {
                    if qualifies(*g, pol, path_state(*g, p)) {
                        lemma_path_state_in_range(*g, pol, p);
                        lemma_relaxed_bounds_path(*g, pol, self.dist@, p);
                        let s = path_state(*g, p);
                        match s.direction {
                            PriorMove::Start => {},
                            PriorMove::Moved(d) => {
                                assert(heading_index(d) < 4);
                                assert(scanned_before(pol, s, target as int, 4, pol.min_run as int));
                                assert(s.position == target);
                            },
                        }
                    }
                }
            }
            Err(SearchError::NoPathFound)
        } else {
            proof {
                assert forall|p: Seq<Heading>|
                    #[trigger] path_ok(*g, pol, p) && qualifies(*g, pol, path_state(*g, p))
                    implies path_cost(*g, p) >= lowest by {
                    lemma_path_state_in_range(*g, pol, p);
                    lemma_relaxed_bounds_path(*g, pol, self.dist@, p);
                    let s = path_state(*g, p);
                    match s.direction {
                        PriorMove::Start => {},
                        PriorMove::Moved(d) => {
                            assert(heading_index(d) < 4);
                            assert(scanned_before(pol, s, target as int, 4, pol.min_run as int));
                            assert(s.position == target);
                        },
                    }
                }
            }
            Ok(lowest)
        }
    }
}

/// The minimum cumulative entering-cost of travelling from the top-left cell
/// to the bottom-right cell under the policy's run constraints: `Ok` exactly
/// when some path honouring the policy reaches the target (and then the cost
/// of the cheapest such path), `NoPathFound` otherwise.
pub fn minimal_cost(grid: &Grid, policy: Policy) -> (r: Result<u64, SearchError>)
    requires
        grid.wf(),
        policy.wf(),
        fits(*grid, policy),
    ensures
        minimal_cost_outcome(*grid, policy, r),
{
    let mut table = CostTable::new(grid, policy);
    table.solve(grid, policy);
    table.best(grid, policy)
}

/// True exactly when a search over `grid` under `policy` may run: the policy
/// is well-formed and the machine limits of `fits` hold.  Callers that
/// cannot establish those limits ahead of time test them here.
pub fn policy_fits(grid: &Grid, policy: Policy) -> (r: bool)
    requires
        grid.wf(),
    ensures
        r == (policy.wf() && fits(*grid, policy)),
{
    if policy.min_run < 1 || policy.min_run > policy.max_run {
        return false;
    }
    let len: usize = grid.len();
    let four_len = match len.checked_mul(4) {
        Option::Some(v) => v,
        Option::None => {
            proof {
                let n = grid.len_spec();
                let mr = policy.max_run as int;
                assert(n * 4 <= n * 4 * mr) by (nonlinear_arith)
                    requires n >= 1 && mr >= 1;
            }
            return false;
        },
    };
    let states = match four_len.checked_mul(policy.max_run) {
        Option::Some(v) => v,
        Option::None => {
            return false;
        },
    };
    if states == usize::MAX {
        return false;
    }
    let table: usize = 1 + states;
    let wide: u128 = 9 * (table as u128) + 9;
    wide < (u64::MAX as u128)
}

/// Every legal path ends in a state the table indexes.
proof fn lemma_path_state_in_range(g: Grid, pol: Policy, p: Seq<Heading>)
    requires
        g.wf(),
        pol.wf(),
        path_ok(g, pol, p),
    ensures
        state_in_range(g, pol, path_state(g, p)),
    decreases p.len(),
{
    if p.len() > 0 {
        let q = p.drop_last();
        let s = path_state(g, q);
        lemma_path_state_in_range(g, pol, q);
        g.lemma_step_in_bounds(s.position as int, p.last());
        vstd::std_specs::vec::axiom_spec_len(&g.tiles);
    }
}

/// Once every edge is relaxed, the table bounds every legal path: the path's
/// end state has a known cost, and that cost is at most the path's cost.
proof fn lemma_relaxed_bounds_path(g: Grid, pol: Policy, t: Seq<u64>, p: Seq<Heading>)
    requires
        g.wf(),
        pol.wf(),
        fits(g, pol),
        t.len() == table_len(g, pol),
        t[0] == 0,
        all_relaxed(g, pol, t),
        path_ok(g, pol, p),
    ensures
        t[slot(pol, path_state(g, p))] != u64::MAX,
        t[slot(pol, path_state(g, p))] <= path_cost(g, p),
    decreases p.len(),
{
    if p.len() == 0 {
        assert(path_state(g, p) == start_state());
    } else {
        let q = p.drop_last();
        let s = path_state(g, q);
        let h = p.last();
        lemma_relaxed_bounds_path(g, pol, t, q);
        lemma_path_state_in_range(g, pol, q);
        assert(edge_relaxed(g, pol, t, s, h));
        assert(path_state(g, p) == next_state(g, s, h));
    }
}

/// A path legal under a policy stays legal when the straight-run cap is
/// raised and the minimum run is kept.
proof fn lemma_path_ok_looser_cap(g: Grid, tight: Policy, loose: Policy, p: Seq<Heading>)
    requires
        tight.min_run == loose.min_run,
        tight.max_run <= loose.max_run,
        path_ok(g, tight, p),
    ensures
        path_ok(g, loose, p),
    decreases p.len(),
{
    if p.len() > 0 {
        lemma_path_ok_looser_cap(g, tight, loose, p.drop_last());
    }
}

/// Tightening the straight-run cap never lowers the optimum: whatever a
/// policy achieves, the policy with the same minimum run and a cap at least
/// as large achieves it at no greater cost.
pub proof fn lemma_tighter_cap_never_cheaper(
    g: Grid,
    tight: Policy,
    loose: Policy,
    r_tight: Result<u64, SearchError>,
    r_loose: Result<u64, SearchError>,
)
    requires
        tight.min_run == loose.min_run,
        tight.max_run <= loose.max_run,
        minimal_cost_outcome(g, tight, r_tight),
        minimal_cost_outcome(g, loose, r_loose),
    ensures
        r_tight is Ok ==> r_loose is Ok && r_loose->Ok_0 <= r_tight->Ok_0,
{
    if r_tight is Ok {
        let c = r_tight->Ok_0;
        let p = choose|p: Seq<Heading>|
            #[trigger] path_ok(g, tight, p) && qualifies(g, tight, path_state(g, p)) && path_cost(
                g,
                p,
            ) == c;
        lemma_path_ok_looser_cap(g, tight, loose, p);
        assert(qualifies(g, loose, path_state(g, p)));
        match r_loose {
            Ok(_) => {
                assert(path_cost(g, p) >= r_loose->Ok_0);
            },
            Err(_) => {
                assert(!qualifies(g, loose, path_state(g, p)));
            },
        }
    }
}

/// The outcome specification pins a unique answer: two results that both
/// satisfy it are equal.  Searching one grid and policy twice therefore
/// returns identical results.
pub proof fn lemma_outcome_deterministic(
    g: Grid,
    pol: Policy,
    r1: Result<u64, SearchError>,
    r2: Result<u64, SearchError>,
)
    requires
        minimal_cost_outcome(g, pol, r1),
        minimal_cost_outcome(g, pol, r2),
    ensures
        r1 == r2,
{
    match (r1, r2) {
        (Ok(c1), Ok(c2)) => {
            let p1 = choose|p: Seq<Heading>|
                #[trigger] path_ok(g, pol, p) && qualifies(g, pol, path_state(g, p)) && path_cost(
                    g,
                    p,
                ) == c1;
            let p2 = choose|p: Seq<Heading>|
                #[trigger] path_ok(g, pol, p) && qualifies(g, pol, path_state(g, p)) && path_cost(
                    g,
                    p,
                ) == c2;
            assert(path_cost(g, p1) >= c2);
            assert(path_cost(g, p2) >= c1);
        },
        (Ok(c1), Err(_)) => {
            let p1 = choose|p: Seq<Heading>|
                #[trigger] path_ok(g, pol, p) && qualifies(g, pol, path_state(g, p)) && path_cost(
                    g,
                    p,
                ) == c1;
            assert(!qualifies(g, pol, path_state(g, p1)));
        },
        (Err(_), Ok(c2)) => {
            let p2 = choose|p: Seq<Heading>|
                #[trigger] path_ok(g, pol, p) && qualifies(g, pol, path_state(g, p)) && path_cost(
                    g,
                    p,
                ) == c2;
            assert(!qualifies(g, pol, path_state(g, p2)));
        },
        (Err(_), Err(_)) => {},
    }
}

/// On a single-cell grid no move stays on the grid, so every legal path is
/// the empty path.
proof fn lemma_single_cell_paths_empty(g: Grid, pol: Policy, p: Seq<Heading>)
    requires
        g.wf(),
        pol.wf(),
        g.len_spec() == 1,
        path_ok(g, pol, p),
    ensures
        p.len() == 0,
    decreases p.len(),
{
    if p.len() > 0 {
        lemma_single_cell_paths_empty(g, pol, p.drop_last());
        g.lemma_width_le_len();
        assert(0int % 1int == 0) by (nonlinear_arith);
        assert(!(g.step_spec(0, p.last()) is Some));
        assert(false);
    }
}

/// On a single-cell grid the start already stands on the target: a policy
/// whose minimum run is one owes cost zero, and any larger minimum owes
/// `NoPathFound`, because the empty path has completed no run at all.
pub proof fn lemma_single_cell_outcome(g: Grid, pol: Policy, r: Result<u64, SearchError>)
    requires
        g.wf(),
        pol.wf(),
        g.len_spec() == 1,
        minimal_cost_outcome(g, pol, r),
    ensures
        pol.min_run <= 1 ==> r == Ok::<u64, SearchError>(0u64),
        pol.min_run > 1 ==> r == Err::<u64, SearchError>(SearchError::NoPathFound),
{
    let empty: Seq<Heading> = Seq::empty();
    assert(path_ok(g, pol, empty) && path_state(g, empty) == start_state() && path_cost(
        g,
        empty,
    ) == 0);
    if pol.min_run <= 1 {
        assert(qualifies(g, pol, start_state()));
        match r {
            Ok(c) => {
                assert(path_cost(g, empty) >= c);
                let p = choose|p: Seq<Heading>|
                    #[trigger] path_ok(g, pol, p) && qualifies(g, pol, path_state(g, p))
                        && path_cost(g, p) == c;
                lemma_single_cell_paths_empty(g, pol, p);
                assert(p =~= empty);
            },
            Err(_) => {
                assert(!qualifies(g, pol, path_state(g, empty)));
            },
        }
    } else {
        match r {
            Ok(c) => {
                let p = choose|p: Seq<Heading>|
                    #[trigger] path_ok(g, pol, p) && qualifies(g, pol, path_state(g, p))
                        && path_cost(g, p) == c;
                lemma_single_cell_paths_empty(g, pol, p);
                assert(p =~= empty);
                assert(!qualifies(g, pol, start_state()));
            },
            Err(_) => {},
        }
    }
}

/// The column a cell index stands in.
pub open spec fn column_of(g: Grid, pos: int) -> int {
    pos % (g.width as int)
}

/// The row a cell index stands in.
pub open spec fn row_of(g: Grid, pos: int) -> int {
    pos / (g.width as int)
}

/// How a legal step moves the column and row by one.
proof fn lemma_step_coords(g: Grid, pos: int, h: Heading)
    requires
        g.wf(),
        0 <= pos < g.len_spec(),
        g.step_spec(pos, h) is Some,
    ensures
        ({
            let q = g.step_spec(pos, h)->0;
            match h {
                Heading::North => column_of(g, q) == column_of(g, pos) && row_of(g, q) == row_of(
                    g,
                    pos,
                ) - 1,
                Heading::South => column_of(g, q) == column_of(g, pos) && row_of(g, q) == row_of(
                    g,
                    pos,
                ) + 1,
                Heading::East => column_of(g, q) == column_of(g, pos) + 1 && row_of(g, q) == row_of(
                    g,
                    pos,
                ),
                Heading::West => column_of(g, q) == column_of(g, pos) - 1 && row_of(g, q) == row_of(
                    g,
                    pos,
                ),
            }
        }),
        0 <= column_of(g, pos) < g.width as int,
        0 <= row_of(g, pos) < g.height_spec(),
{
    let w = g.width as int;
    let n = g.len_spec();
    let c = pos % w;
    let r = pos / w;
    let q = g.step_spec(pos, h)->0;
    g.lemma_width_le_len();
    vstd::arithmetic::div_mod::lemma_fundamental_div_mod(pos, w);
    assert(row_of(g, pos) < g.height_spec()) by {
        vstd::arithmetic::div_mod::lemma_fundamental_div_mod(n, w);
        assert(n == w * (n / w));
        if r >= n / w {
            assert(w * r >= w * (n / w)) by (nonlinear_arith)
                requires w >= 1 && r >= n / w;
        }
    }
    assert(r >= 0) by {
        if r < 0 {
            assert(w * r <= -w) by (nonlinear_arith)
                requires w >= 1 && r <= -1;
        }
    }
    assert((r - 1) * w == w * r - w && (r + 1) * w == w * r + w) by (nonlinear_arith);
    match h {
        Heading::North => {
            vstd::arithmetic::div_mod::lemma_fundamental_div_mod_converse(
                pos - w, w, r - 1, c);
        },
        Heading::South => {
            vstd::arithmetic::div_mod::lemma_fundamental_div_mod_converse(
                pos + w, w, r + 1, c);
        },
        Heading::East => {
            vstd::arithmetic::div_mod::lemma_fundamental_div_mod_converse(
                pos + 1, w, r, c + 1);
        },
        Heading::West => {
            vstd::arithmetic::div_mod::lemma_fundamental_div_mod_converse(
                pos - 1, w, r, c - 1);
        },
    }
}

/// A run of moves needs room: after a path whose last `run` moves kept one
/// heading, that many cells lie behind the head in that direction.
proof fn lemma_run_span(g: Grid, pol: Policy, p: Seq<Heading>)
    requires
        g.wf(),
        pol.wf(),
        path_ok(g, pol, p),
    ensures
        ({
            let s = path_state(g, p);
            let c = column_of(g, s.position as int);
            let r = row_of(g, s.position as int);
            match s.direction {
                PriorMove::Start => true,
                PriorMove::Moved(h) => match h {
                    Heading::East => c >= s.run,
                    Heading::West => c + s.run <= g.width as int - 1,
                    Heading::South => r >= s.run,
                    Heading::North => r + s.run <= g.height_spec() - 1,
                },
            }
        }),
    decreases p.len(),
{
    if p.len() > 0 {
        let q = p.drop_last();
        let s = path_state(g, q);
        let h = p.last();
        lemma_run_span(g, pol, q);
        lemma_path_state_in_range(g, pol, q);
        lemma_step_coords(g, s.position as int, h);
        g.lemma_step_in_bounds(s.position as int, h);
        vstd::std_specs::vec::axiom_spec_len(&g.tiles);
    }
}

/// On a grid no wider and no taller than the minimum run, a policy that
/// demands at least two straight steps before stopping can never be
/// satisfied: there is no room to complete any qualifying run, so the search
/// owes `NoPathFound`.
pub proof fn lemma_small_grid_no_path(g: Grid, pol: Policy, r: Result<u64, SearchError>)
    requires
        g.wf(),
        pol.wf(),
        pol.min_run >= 2,
        g.width as int <= pol.min_run as int,
        g.height_spec() <= pol.min_run as int,
        minimal_cost_outcome(g, pol, r),
    ensures
        r == Err::<u64, SearchError>(SearchError::NoPathFound),
{
    if r is Ok {
        let p = choose|p: Seq<Heading>|
            #[trigger] path_ok(g, pol, p) && qualifies(g, pol, path_state(g, p)) && path_cost(
                g,
                p,
            ) == r->Ok_0;
        let s = path_state(g, p);
        lemma_run_span(g, pol, p);
        lemma_path_state_in_range(g, pol, p);
        match s.direction {
            PriorMove::Start => {},
            PriorMove::Moved(h) => {
                let pos = s.position as int;
                let w = g.width as int;
                vstd::arithmetic::div_mod::lemma_fundamental_div_mod(pos, w);
                assert(0 <= pos % w < w);
                assert(0 <= pos / w < g.height_spec()) by {
                    let n = g.len_spec();
                    vstd::arithmetic::div_mod::lemma_fundamental_div_mod(n, w);
                    assert(n == w * (n / w));
                    if pos / w >= n / w {
                        assert(w * (pos / w) >= w * (n / w)) by (nonlinear_arith)
                            requires w >= 1 && pos / w >= n / w;
                    }
                    if pos / w < 0 {
                        assert(w * (pos / w) <= -w) by (nonlinear_arith)
                            requires w >= 1 && pos / w <= -1;
                    }
                }
            },
        }
    }
}

/// True exactly when the policy lets a path in state `s` turn to heading `h`.
fn turn_allowed(pol: Policy, s: SearchState, h: Heading) -> (r: bool)
    ensures
        r == turn_ok(pol, s, h),
{
    match s.direction {
        PriorMove::Start => true,
        PriorMove::Moved(d) => {
            if h == d.opposite() {
                false
            } else if h == d {
                s.run < pol.max_run
            } else {
                s.run >= pol.min_run
            }
        },
    }
}

} // verus!
