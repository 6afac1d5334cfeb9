//! Non-deterministic finite automata.
//!
//! States live in an arena indexed by state id; entry 0 of the arena is
//! reserved so that every state id is positive.  Ids are drawn from a
//! counter threaded through construction, so the automata of the patterns
//! of one start condition occupy disjoint id ranges and can be merged
//! without renumbering.  Sets of state ids are represented as bitmaps
//! (`Vec<bool>` of the arena's length), which gives set equality by plain
//! vector comparison during subset construction.

use vstd::prelude::*;
use crate::regex::AST;
use crate::regex::lang;
use crate::regex::star_lang;

verus! {

/// One state: byte-labelled edges, epsilon edges, and the action id that
/// marks acceptance.  An action id is present exactly on final states.
pub struct State {
    /// Byte-labelled edges, as (byte, destination id) pairs.
    pub trans: Vec<(u8, usize)>,
    /// Epsilon edges, as destination ids.
    pub etrans: Vec<usize>,
    /// The action fired on acceptance in this state, if it is final.
    pub action: Option<usize>,
}

impl State {
    /// The state has no outgoing edges at all.
    pub open spec fn no_edges(&self) -> bool {
        self.trans@.len() == 0 && self.etrans@.len() == 0
    }
}

/// A non-deterministic finite automaton.
pub struct NFA {
    /// The state arena: entry `i` holds the state with id `i`; entry 0 is
    /// always vacant.
    pub states: Vec<Option<State>>,
    /// The final state ids, pairwise distinct.
    pub finals: Vec<usize>,
    /// The entry state id.
    pub initial: usize,
}

/// True when `v` occurs in `s`.
pub open spec fn has_id(s: Seq<usize>, v: int) -> bool {
    exists|k: int| 0 <= k < s.len() && s[k] == v
}

/// The number of `true` entries of a bitmap.
pub open spec fn count_true(s: Seq<bool>) -> int
    decreases s.len(),
{
    if s.len() == 0 {
        0
    } else {
        count_true(s.drop_last()) + if s.last() {
            1int
        } else {
            0int
        }
    }
}

pub proof fn lemma_count_true_bounds(s: Seq<bool>)
    ensures
        0 <= count_true(s) <= s.len(),
    decreases s.len(),
{
    if s.len() > 0 {
        lemma_count_true_bounds(s.drop_last());
    }
}

pub proof fn lemma_count_true_update(s: Seq<bool>, i: int)
    requires
        0 <= i < s.len(),
        !s[i],
    ensures
        count_true(s.update(i, true)) == count_true(s) + 1,
    decreases s.len(),
{
    let t = s.update(i, true);
    if i == s.len() - 1 {
        assert(t.drop_last() =~= s.drop_last());
    } else {
        assert(t.drop_last() =~= s.drop_last().update(i, true));
        lemma_count_true_update(s.drop_last(), i);
    }
}

/// Every state marked in the bitmap `s` belongs to the set `c`.
pub open spec fn covers(c: Set<int>, s: Seq<bool>) -> bool {
    forall|i: int| 0 <= i < s.len() && s[i] ==> c.contains(i)
}

impl NFA {
    /// State id `i` is in range and occupied.
    pub open spec fn live(&self, i: int) -> bool {
        0 <= i < self.states@.len() && self.states@[i] is Some
    }

    /// The state with id `i`.
    pub open spec fn state_of(&self, i: int) -> State {
        self.states@[i]->Some_0
    }

    /// There is an epsilon edge from `i` to `j`.
    pub open spec fn eps_edge(&self, i: int, j: int) -> bool {
        self.live(i) && 0 <= j <= usize::MAX && self.state_of(i).etrans@.contains(j as usize)
    }

    /// There is an edge labelled `c` from `i` to `j`.
    pub open spec fn byte_edge(&self, i: int, c: u8, j: int) -> bool {
        self.live(i) && 0 <= j <= usize::MAX && self.state_of(i).trans@.contains((c, j as usize))
    }

    /// Every edge of every state leads to an occupied arena entry.
    pub open spec fn edges_closed(&self) -> bool {
        (forall|i: int, j: int| #[trigger] self.eps_edge(i, j) ==> self.live(j)) && (forall|
            i: int,
            c: u8,
            j: int,
        | #[trigger] self.byte_edge(i, c, j) ==> self.live(j))
    }

    /// The arena is sound: entry 0 vacant, the entry state occupied, and
    /// all edges inside the arena.
    pub open spec fn wf_core(&self) -> bool {
        &&& 1 <= self.states@.len()
        &&& self.states@[0] is None
        &&& self.live(self.initial as int)
        &&& self.edges_closed()
    }

    /// The final-state list is exact: it holds, once each, exactly the
    /// occupied states carrying an action, and action ids are positive.
    pub open spec fn wf_marked(&self) -> bool {
        &&& forall|k: int|
            0 <= k < self.finals@.len() ==> self.live(#[trigger] self.finals@[k] as int)
                && self.state_of(self.finals@[k] as int).action is Some
        &&& forall|i: int|
            self.live(i) && (#[trigger] self.state_of(i)).action is Some ==> has_id(
                self.finals@,
                i,
            )
        &&& forall|k1: int, k2: int|
            0 <= k1 < k2 < self.finals@.len() ==> self.finals@[k1] != self.finals@[k2]
        &&& forall|i: int|
            self.live(i) && (#[trigger] self.state_of(i)).action is Some ==> 1 <= self.state_of(
                i,
            ).action->Some_0
    }

    /// A fully formed automaton, as the pattern compiler hands it on.
    pub open spec fn wf(&self) -> bool {
        self.wf_core() && self.wf_marked()
    }

    /// Every action id the automaton carries is at most `n`.
    pub open spec fn actions_bounded(&self, n: int) -> bool {
        forall|i: int|
            self.live(i) && (#[trigger] self.state_of(i)).action is Some ==> self.state_of(
                i,
            ).action->Some_0 <= n
    }

    /// The set `c` is closed under the automaton's epsilon edges.
    pub open spec fn eps_closed_set(&self, c: Set<int>) -> bool {
        forall|i: int, j: int| c.contains(i) && #[trigger] self.eps_edge(i, j) ==> c.contains(j)
    }

    /// The automaton accepts `w`: some final state is reachable from the
    /// entry state along a path spelling `w`.
    pub open spec fn accepts(&self, w: Seq<u8>) -> bool {
        exists|f: int|
            has_id(self.finals@, f) && #[trigger] reaches_in(
                self.states@,
                0,
                self.states@.len() - 1,
                self.initial as int,
                f,
                w,
            )
    }

    /// The epsilon closure of the state set `st` (a bitmap of the arena's
    /// length): the least superset of `st` closed under epsilon edges.
    pub fn eclosure(&self, st: &Vec<bool>) -> (r: Vec<bool>)
        requires
            self.edges_closed(),
            st@.len() == self.states@.len(),
        ensures
            r@.len() == self.states@.len(),
            forall|i: int| 0 <= i < st@.len() && st@[i] ==> r@[i],
            forall|i: int, j: int| 0 <= i < r@.len() && r@[i] && self.eps_edge(i, j) ==> r@[j],
            forall|c: Set<int>|
                covers(c, st@) && #[trigger] self.eps_closed_set(c) ==> covers(c, r@),
    {
        let n = self.states.len();
        let mut marked: Vec<bool> = Vec::new();
        let mut stack: Vec<usize> = Vec::new();
        let mut i: usize = 0;
        while i < n
            invariant
                i <= n,
                n == self.states@.len(),
                st@.len() == n,
                marked@.len() == i,
                forall|m: int| 0 <= m < i ==> marked@[m] == st@[m],
                forall|k: int|
                    0 <= k < stack@.len() ==> (#[trigger] stack@[k]) < i && marked@[stack@[k] as int],
                forall|m: int| 0 <= m < i && marked@[m] ==> has_id(stack@, m),
            decreases n - i,
        {
            marked.push(st[i]);
            if st[i] {
                let ghost stack0 = stack@;
                stack.push(i);
                proof {
                    assert forall|m: int| 0 <= m < i + 1 && marked@[m] implies has_id(
                        stack@,
                        m,
                    ) by {
                        if m < i {
                            let k0 = choose|k0: int|
                                0 <= k0 < stack0.len() && stack0[k0] == m;
                            assert(stack@[k0] == m);
                        } else {
                            assert(stack@[stack@.len() - 1] == m);
                        }
                    }
                }
            }
            i += 1;
        }
        proof {
            lemma_count_true_bounds(marked@);
        }
        while stack.len() > 0
            invariant
                n == self.states@.len(),
                st@.len() == n,
                marked@.len() == n,
                self.edges_closed(),
                forall|m: int| 0 <= m < n && st@[m] ==> marked@[m],
                forall|k: int|
                    0 <= k < stack@.len() ==> (#[trigger] stack@[k]) < n && marked@[stack@[k] as int],
                forall|c: Set<int>|
                    covers(c, st@) && #[trigger] self.eps_closed_set(c) ==> covers(c, marked@),
                forall|m: int, j: int|
                    0 <= m < n && #[trigger] marked@[m] && !has_id(stack@, m) && #[trigger] self.eps_edge(m, j)
                        ==> marked@[j],
                count_true(marked@) <= n,
            decreases n - count_true(marked@), stack@.len(),
        {
            let ghost marked_at_top = marked@;
            let ghost stack_at_top = stack@;
            let x = stack.pop().unwrap();
            match &self.states[x] {
                None => {
                    proof {
                        assert forall|m: int, j: int|
                            0 <= m < n && marked@[m] && !has_id(stack@, m) && self.eps_edge(m, j)
                                implies marked@[j] by {
                            if m != x as int {
                                assert(has_id(stack_at_top, m) ==> has_id(stack@, m)) by {
                                    if has_id(stack_at_top, m) {
                                        let k0 = choose|k0: int|
                                            0 <= k0 < stack_at_top.len() && stack_at_top[k0] == m;
                                        assert(stack@[k0] == m);
                                    }
                                }
                            } else {
                                assert(!self.live(m));
                            }
                        }
                    }
                },
                Some(stx) => {
                    proof {
                        assert forall|m: int, j: int|
                            0 <= m < n && marked@[m] && !has_id(stack@, m) && m != x as int
                                && self.eps_edge(m, j) implies marked@[j] by {
                            if has_id(stack_at_top, m) {
                                let k0 = choose|k0: int|
                                    0 <= k0 < stack_at_top.len() && stack_at_top[k0] == m;
                                assert(stack_at_top[stack_at_top.len() - 1] == x);
                                assert(k0 < stack_at_top.len() - 1);
                                assert(stack@[k0] == m);
                            }
                        }
                        assert forall|e: int|
                            0 <= e < stx.etrans@.len() implies (#[trigger] stx.etrans@[e] as int)
                            < n by {
                            let v = stx.etrans@[e];
                            assert(stx.etrans@.contains(v));
                            assert(self.eps_edge(x as int, v as int));
                        }
                    }
                    let ne = stx.etrans.len();
                    let mut k: usize = 0;
                    while k < ne
                        invariant
                            k <= ne,
                            n == self.states@.len(),
                            st@.len() == n,
                            marked@.len() == n,
                            self.edges_closed(),
                            x < n,
                            self.states@[x as int] is Some,
                            stx == &self.state_of(x as int),
                            ne == stx.etrans@.len(),
                            marked@[x as int],
                            forall|m: int| 0 <= m < n && st@[m] ==> marked@[m],
                            forall|k2: int|
                                0 <= k2 < stack@.len() ==> (#[trigger] stack@[k2]) < n
                                    && marked@[stack@[k2] as int],
                            forall|c: Set<int>|
                                covers(c, st@) && #[trigger] self.eps_closed_set(c) ==> covers(
                                    c,
                                    marked@,
                                ),
                            forall|m: int, j: int|
                                0 <= m < n && #[trigger] marked@[m] && !has_id(stack@, m)
                                    && m != x as int && #[trigger] self.eps_edge(m, j)
                                    ==> marked@[j],
                            forall|e: int|
                                0 <= e < ne ==> (#[trigger] stx.etrans@[e] as int) < n,
                            forall|e: int| 0 <= e < k ==> marked@[#[trigger] stx.etrans@[e] as int],
                            count_true(marked@) <= n,
                            count_true(marked_at_top) <= count_true(marked@),
                            stack@.len() + count_true(marked_at_top) + 1 == stack_at_top.len()
                                + count_true(marked@),
                            forall|m: int| 0 <= m < n && marked_at_top[m] ==> marked@[m],
                        decreases ne - k,
                    {
                        let j = stx.etrans[k];
                        proof {
                            assert(self.eps_edge(x as int, j as int));
                            assert(self.live(j as int));
                        }
                        if !marked[j] {
                            let ghost marked0 = marked@;
                            let ghost stack0 = stack@;
                            marked[j] = true;
                            stack.push(j);
                            proof {
                                lemma_count_true_update(marked0, j as int);
                                lemma_count_true_bounds(marked@);
                                assert forall|c: Set<int>|
                                    covers(c, st@) && #[trigger] self.eps_closed_set(c)
                                        implies covers(c, marked@) by {
                                    assert(covers(c, marked0));
                                    assert(c.contains(x as int));
                                    assert(c.contains(j as int));
                                }
                                assert forall|m: int, j2: int|
                                    0 <= m < n && marked@[m] && !has_id(stack@, m)
                                        && m != x as int && self.eps_edge(m, j2)
                                        implies marked@[j2] by {
                                    if m == j as int {
                                        assert(stack@[stack@.len() - 1] == j);
                                        assert(has_id(stack@, m));
                                    } else {
                                        assert(marked0[m]);
                                        assert(!has_id(stack0, m)) by {
                                            if has_id(stack0, m) {
                                                let k0 = choose|k0: int|
                                                    0 <= k0 < stack0.len() && stack0[k0] == m;
                                                assert(stack@[k0] == m);
                                            }
                                        }
                                        assert(marked0[j2]);
                                    }
                                }
                            }
                        }
                        k += 1;
                    }
                    proof {
                        assert forall|m: int, j: int|
                            0 <= m < n && marked@[m] && !has_id(stack@, m) && self.eps_edge(m, j)
                                implies marked@[j] by {
                            if m == x as int {
                                let st_x = self.state_of(x as int);
                                assert(st_x.etrans@.contains(j as usize));
                                let e = choose|e: int|
                                    0 <= e < st_x.etrans@.len() && st_x.etrans@[e] == j as usize;
                                assert(marked@[st_x.etrans@[e] as int]);
                            }
                        }
                    }
                },
            }
        }
        proof {
            assert forall|i2: int, j: int|
                0 <= i2 < marked@.len() && marked@[i2] && self.eps_edge(i2, j) implies marked@[j] by {
                assert(!has_id(stack@, i2));
            }
        }
        marked
    }

    /// The epsilon closure of the single state `st`.
    pub fn eclosure_(&self, st: usize) -> (r: Vec<bool>)
        requires
            self.edges_closed(),
            (st as int) < self.states@.len(),
        ensures
            r@.len() == self.states@.len(),
            r@[st as int],
            forall|i: int, j: int| 0 <= i < r@.len() && r@[i] && self.eps_edge(i, j) ==> r@[j],
            forall|c: Set<int>|
                c.contains(st as int) && #[trigger] self.eps_closed_set(c) ==> covers(c, r@),
    {
        let n = self.states.len();
        let mut hs: Vec<bool> = Vec::new();
        let mut i: usize = 0;
        while i < n
            invariant
                i <= n,
                hs@.len() == i,
                forall|m: int| 0 <= m < i ==> hs@[m] == (m == st as int),
            decreases n - i,
        {
            hs.push(i == st);
            i += 1;
        }
        self.eclosure(&hs)
    }

    /// True when the state set `st` contains at least one final state.
    pub fn is_final(&self, st: &Vec<bool>) -> (r: bool)
        requires
            self.wf(),
            st@.len() == self.states@.len(),
        ensures
            r == exists|k: int|
                0 <= k < self.finals@.len() && st@[#[trigger] self.finals@[k] as int],
    {
        let nf = self.finals.len();
        let mut k: usize = 0;
        while k < nf
            invariant
                k <= nf,
                self.wf(),
                st@.len() == self.states@.len(),
                nf == self.finals@.len(),
                forall|m: int| 0 <= m < k ==> !st@[#[trigger] self.finals@[m] as int],
            decreases nf - k,
        {
            let f = self.finals[k];
            if st[f] {
                return true;
            }
            k += 1;
        }
        false
    }
}

/// Entry `i` of a raw state arena is occupied.
pub open spec fn arena_live(a: Seq<Option<State>>, i: int) -> bool {
    0 <= i < a.len() && a[i] is Some
}

/// The state stored at entry `i`.
pub open spec fn arena_state(a: Seq<Option<State>>, i: int) -> State {
    a[i]->Some_0
}

/// A valid edge destination for a span: inside `(lo, hi]`, occupied, and
/// different from `avoid`.
pub open spec fn span_target(a: Seq<Option<State>>, lo: int, hi: int, avoid: int, t: int) -> bool {
    lo < t <= hi && t != avoid && arena_live(a, t)
}

/// State `i` carries no action and all its edges lead to valid span
/// destinations.
pub open spec fn span_state_ok(a: Seq<Option<State>>, i: int, lo: int, hi: int, avoid: int) -> bool {
    let st = arena_state(a, i);
    &&& st.action is None
    &&& forall|k: int|
        0 <= k < st.trans@.len() ==> span_target(
            a,
            lo,
            hi,
            avoid,
            (#[trigger] st.trans@[k]).1 as int,
        )
    &&& forall|k: int|
        0 <= k < st.etrans@.len() ==> span_target(a, lo, hi, avoid, #[trigger] st.etrans@[k] as int)
}

/// All occupied entries of `(lo, hi]` are action-free and point only into
/// `(lo, hi]`, never at `avoid`.
pub open spec fn span_ok(a: Seq<Option<State>>, lo: int, hi: int, avoid: int) -> bool {
    forall|i: int|
        lo < i <= hi && arena_live(a, i) ==> #[trigger] span_state_ok(a, i, lo, hi, avoid)
}

/// Every edge of every occupied entry leads to an occupied entry.
pub open spec fn arena_entry_ok(a: Seq<Option<State>>, i: int) -> bool {
    let st = arena_state(a, i);
    &&& forall|k: int|
        0 <= k < st.trans@.len() ==> arena_live(a, (#[trigger] st.trans@[k]).1 as int)
    &&& forall|k: int| 0 <= k < st.etrans@.len() ==> arena_live(a, #[trigger] st.etrans@[k] as int)
}

/// Every occupied entry of the arena has only occupied destinations.
pub open spec fn arena_ok(a: Seq<Option<State>>) -> bool {
    forall|i: int| arena_live(a, i) ==> #[trigger] arena_entry_ok(a, i)
}

/// A span state keeps its guarantees when the arena around it changes, as
/// long as the state itself and the occupancy of its span are untouched
/// and the new forbidden destination lies outside the span (or is the old
/// one).
pub proof fn lemma_span_state_mono(
    a: Seq<Option<State>>,
    b: Seq<Option<State>>,
    i: int,
    lo: int,
    hi: int,
    avoid: int,
    lo2: int,
    hi2: int,
    avoid2: int,
)
    requires
        span_state_ok(a, i, lo, hi, avoid),
        lo2 <= lo,
        hi <= hi2,
        !(lo < avoid2 <= hi) || avoid2 == avoid,
        b[i] == a[i],
        0 <= i < b.len(),
        hi < a.len(),
        hi < b.len(),
        forall|t: int| lo < t <= hi && t != avoid && a[t] is Some ==> b[t] is Some,
    ensures
        span_state_ok(b, i, lo2, hi2, avoid2),
{
    let st = arena_state(a, i);
    assert forall|k: int| 0 <= k < st.trans@.len() implies span_target(
        b,
        lo2,
        hi2,
        avoid2,
        (#[trigger] st.trans@[k]).1 as int,
    ) by {
        assert(span_target(a, lo, hi, avoid, st.trans@[k].1 as int));
    }
    assert forall|k: int| 0 <= k < st.etrans@.len() implies span_target(
        b,
        lo2,
        hi2,
        avoid2,
        #[trigger] st.etrans@[k] as int,
    ) by {
        assert(span_target(a, lo, hi, avoid, st.etrans@[k] as int));
    }
}

/// Draws the next state id from the shared counter.
fn gen_state_num(current_id: &mut usize) -> (id: usize)
    requires
        *old(current_id) < usize::MAX,
    ensures
        *final(current_id) == *old(current_id) + 1,
        id == *final(current_id),
{
    *current_id += 1;
    *current_id
}

/// A fresh, edgeless, action-free state under the next id.
fn new_state(current_id: &mut usize) -> (r: (usize, State))
    requires
        *old(current_id) < usize::MAX,
    ensures
        *final(current_id) == *old(current_id) + 1,
        r.0 == *final(current_id),
        r.1.no_edges(),
        r.1.action is None,
{
    let id = gen_state_num(current_id);
    (id, State { trans: Vec::new(), etrans: Vec::new(), action: None })
}

/// Removes the state with id `i` from the arena and hands it out.
fn take_state(arena: &mut Vec<Option<State>>, i: usize) -> (st: State)
    requires
        (i as int) < old(arena)@.len(),
        old(arena)@[i as int] is Some,
    ensures
        st == arena_state(old(arena)@, i as int),
        final(arena)@ == old(arena)@.update(i as int, None),
{
    let slot = arena[i].take();
    slot.unwrap()
}

/// Adds an epsilon edge from state `from` to state `to`.
fn add_etrans(arena: &mut Vec<Option<State>>, from: usize, to: usize)
    requires
        (from as int) < old(arena)@.len(),
        old(arena)@[from as int] is Some,
    ensures
        final(arena)@.len() == old(arena)@.len(),
        forall|i: int|
            0 <= i < final(arena)@.len() && i != from ==> final(arena)@[i] == old(arena)@[i],
        final(arena)@[from as int] is Some,
        arena_state(final(arena)@, from as int).trans == arena_state(
            old(arena)@,
            from as int,
        ).trans,
        arena_state(final(arena)@, from as int).action == arena_state(
            old(arena)@,
            from as int,
        ).action,
        arena_state(final(arena)@, from as int).etrans@ == arena_state(
            old(arena)@,
            from as int,
        ).etrans@.push(to),
{
    let mut st = take_state(arena, from);
    st.etrans.push(to);
    arena[from] = Some(st);
}

/// The destinations of the byte-`c` edges among an edge list, in order.
pub open spec fn targets_of(edges: Seq<(u8, usize)>, c: u8) -> Seq<usize>
    decreases edges.len(),
{
    if edges.len() == 0 {
        Seq::empty()
    } else {
        targets_of(edges.drop_last(), c) + if edges.last().0 == c {
            seq![edges.last().1]
        } else {
            Seq::empty()
        }
    }
}

/// A destination is listed exactly when the edge list holds it under `c`.
pub proof fn lemma_targets_of(edges: Seq<(u8, usize)>, c: u8, t: usize)
    ensures
        targets_of(edges, c).contains(t) <==> edges.contains((c, t)),
    decreases edges.len(),
{
    if edges.len() > 0 {
        let pre = edges.drop_last();
        let tgt = targets_of(edges, c);
        lemma_targets_of(pre, c, t);
        assert(edges.contains((c, t)) <==> (pre.contains((c, t)) || edges.last() == (c, t))) by {
            if edges.contains((c, t)) {
                let k = choose|k: int| 0 <= k < edges.len() && edges[k] == (c, t);
                if k < edges.len() - 1 {
                    assert(pre[k] == (c, t));
                    assert(pre.contains((c, t)));
                }
            }
            if pre.contains((c, t)) {
                let k = choose|k: int| 0 <= k < pre.len() && pre[k] == (c, t);
                assert(edges[k] == (c, t));
                assert(edges.contains((c, t)));
            }
            if edges.last() == (c, t) {
                assert(edges[edges.len() - 1] == (c, t));
                assert(edges.contains((c, t)));
            }
        }
        if edges.last().0 == c {
            assert(tgt =~= targets_of(pre, c) + seq![edges.last().1]);
            assert(tgt.contains(t) <==> (targets_of(pre, c).contains(t) || t
                == edges.last().1)) by {
                if targets_of(pre, c).contains(t) {
                    let k = choose|k: int|
                        0 <= k < targets_of(pre, c).len() && targets_of(pre, c)[k] == t;
                    assert(tgt[k] == t);
                    assert(tgt.contains(t));
                }
                if t == edges.last().1 {
                    assert(tgt[tgt.len() - 1] == t);
                    assert(tgt.contains(t));
                }
                if tgt.contains(t) {
                    let k = choose|k: int| 0 <= k < tgt.len() && tgt[k] == t;
                    if k < tgt.len() - 1 {
                        assert(targets_of(pre, c)[k] == t);
                        assert(targets_of(pre, c).contains(t));
                    }
                }
            }
        } else {
            assert(tgt =~= targets_of(pre, c));
        }
    }
}

/// There is an epsilon edge from `i` to `j` in the raw arena.
pub open spec fn a_eps(a: Seq<Option<State>>, i: int, j: int) -> bool {
    arena_live(a, i) && 0 <= j <= usize::MAX && arena_state(a, i).etrans@.contains(j as usize)
}

/// There is a byte-`c` edge from `i` to `j` in the raw arena.
pub open spec fn a_byte(a: Seq<Option<State>>, i: int, c: u8, j: int) -> bool {
    arena_live(a, i) && 0 <= j <= usize::MAX && arena_state(a, i).trans@.contains((c, j as usize))
}

/// `p` is a path through the arena spelling `w`: it visits the listed
/// states in order, each step an epsilon edge or a byte edge consuming
/// the next byte of `w`.
pub open spec fn is_path(a: Seq<Option<State>>, p: Seq<int>, w: Seq<u8>) -> bool
    decreases p.len(),
{
    if p.len() == 0 {
        false
    } else if p.len() == 1 {
        w.len() == 0
    } else {
        ||| (a_eps(a, p[0], p[1]) && is_path(a, p.drop_first(), w))
        ||| (w.len() > 0 && a_byte(a, p[0], w[0], p[1]) && is_path(
            a,
            p.drop_first(),
            w.drop_first(),
        ))
    }
}

/// The arena carries `w` from `i` to `j` along a path whose states all
/// lie in `(lo, hi]`.
pub open spec fn reaches_in(
    a: Seq<Option<State>>,
    lo: int,
    hi: int,
    i: int,
    j: int,
    w: Seq<u8>,
) -> bool {
    exists|p: Seq<int>|
        #[trigger] is_path(a, p, w) && p.len() > 0 && p[0] == i && p.last() == j && (forall|
            idx: int,
        | 0 <= idx < p.len() ==> lo < #[trigger] p[idx] <= hi)
}

/// Prepending an epsilon step to a path.
pub proof fn lemma_path_cons_eps(a: Seq<Option<State>>, i: int, p: Seq<int>, w: Seq<u8>)
    requires
        is_path(a, p, w),
        a_eps(a, i, p[0]),
    ensures
        is_path(a, seq![i] + p, w),
{
    let q = seq![i] + p;
    assert(q.drop_first() =~= p);
    assert(q[0] == i && q[1] == p[0]);
}

/// Prepending a byte step to a path.
pub proof fn lemma_path_cons_byte(a: Seq<Option<State>>, i: int, b: u8, p: Seq<int>, w: Seq<u8>)
    requires
        is_path(a, p, w),
        a_byte(a, i, b, p[0]),
    ensures
        is_path(a, seq![i] + p, seq![b] + w),
{
    let q = seq![i] + p;
    let v = seq![b] + w;
    assert(q.drop_first() =~= p);
    assert(v.drop_first() =~= w);
    assert(q[0] == i && q[1] == p[0] && v[0] == b);
    assert(v.len() > 0);
}

/// Appending an epsilon step to a path.
pub proof fn lemma_path_snoc_eps(a: Seq<Option<State>>, p: Seq<int>, w: Seq<u8>, j: int)
    requires
        is_path(a, p, w),
        p.len() > 0,
        a_eps(a, p.last(), j),
    ensures
        is_path(a, p.push(j), w),
    decreases p.len(),
{
    let q = p.push(j);
    if p.len() == 1 {
        assert(q.drop_first() =~= seq![j]);
        assert(q[0] == p[0] && q[1] == j);
        assert(is_path(a, seq![j], w));
    } else {
        assert(q.drop_first() =~= p.drop_first().push(j));
        assert(p.drop_first().last() == p.last());
        if a_eps(a, p[0], p[1]) && is_path(a, p.drop_first(), w) {
            lemma_path_snoc_eps(a, p.drop_first(), w, j);
            assert(q[0] == p[0] && q[1] == p[1]);
        } else {
            assert(w.len() > 0 && a_byte(a, p[0], w[0], p[1]) && is_path(
                a,
                p.drop_first(),
                w.drop_first(),
            ));
            lemma_path_snoc_eps(a, p.drop_first(), w.drop_first(), j);
            assert(q[0] == p[0] && q[1] == p[1]);
        }
    }
}

/// Joining two paths at a shared state spells the concatenated word.
pub proof fn lemma_path_concat(
    a: Seq<Option<State>>,
    p1: Seq<int>,
    w1: Seq<u8>,
    p2: Seq<int>,
    w2: Seq<u8>,
)
    requires
        is_path(a, p1, w1),
        is_path(a, p2, w2),
        p1.len() > 0,
        p2.len() > 0,
        p1.last() == p2[0],
    ensures
        is_path(a, p1 + p2.drop_first(), w1 + w2),
    decreases p1.len(),
{
    let q = p1 + p2.drop_first();
    if p1.len() == 1 {
        assert(q =~= p2);
        assert(w1 + w2 =~= w2);
    } else {
        assert(q.drop_first() =~= p1.drop_first() + p2.drop_first());
        assert(q[0] == p1[0] && q[1] == p1[1]);
        if a_eps(a, p1[0], p1[1]) && is_path(a, p1.drop_first(), w1) {
            lemma_path_concat(a, p1.drop_first(), w1, p2, w2);
        } else {
            assert(w1.len() > 0 && a_byte(a, p1[0], w1[0], p1[1]) && is_path(
                a,
                p1.drop_first(),
                w1.drop_first(),
            ));
            lemma_path_concat(a, p1.drop_first(), w1.drop_first(), p2, w2);
            assert((w1 + w2)[0] == w1[0]);
            assert((w1 + w2).drop_first() =~= w1.drop_first() + w2);
            assert((w1 + w2).len() > 0);
        }
    }
}

/// A path survives an arena change that keeps every edge of its states,
/// the excluded state aside.
pub proof fn lemma_path_mono(
    a1: Seq<Option<State>>,
    a2: Seq<Option<State>>,
    lo: int,
    hi: int,
    avoid: int,
    p: Seq<int>,
    w: Seq<u8>,
)
    requires
        is_path(a1, p, w),
        forall|idx: int| 0 <= idx < p.len() ==> lo < #[trigger] p[idx] <= hi && p[idx] != avoid,
        forall|i: int, j: int|
            lo < i <= hi && i != avoid && #[trigger] a_eps(a1, i, j) ==> a_eps(a2, i, j),
        forall|i: int, c: u8, j: int|
            lo < i <= hi && i != avoid && #[trigger] a_byte(a1, i, c, j) ==> a_byte(a2, i, c, j),
    ensures
        is_path(a2, p, w),
    decreases p.len(),
{
    if p.len() > 1 {
        assert(forall|idx: int|
            0 <= idx < p.drop_first().len() ==> lo < #[trigger] p.drop_first()[idx] <= hi
                && p.drop_first()[idx] != avoid);
        if a_eps(a1, p[0], p[1]) && is_path(a1, p.drop_first(), w) {
            lemma_path_mono(a1, a2, lo, hi, avoid, p.drop_first(), w);
        } else {
            assert(w.len() > 0 && a_byte(a1, p[0], w[0], p[1]) && is_path(
                a1,
                p.drop_first(),
                w.drop_first(),
            ));
            lemma_path_mono(a1, a2, lo, hi, avoid, p.drop_first(), w.drop_first());
        }
    }
}

/// Every step of a path is one of the arena's edges.
pub proof fn lemma_path_steps(a: Seq<Option<State>>, p: Seq<int>, w: Seq<u8>)
    requires
        is_path(a, p, w),
    ensures
        forall|idx: int|
            #![trigger p[idx]]
            0 <= idx < p.len() - 1 ==> a_eps(a, p[idx], p[idx + 1]) || (exists|b: u8|
                #[trigger] a_byte(a, p[idx], b, p[idx + 1])),
    decreases p.len(),
{
    if p.len() > 1 {
        if a_eps(a, p[0], p[1]) && is_path(a, p.drop_first(), w) {
            lemma_path_steps(a, p.drop_first(), w);
        } else {
            assert(w.len() > 0 && a_byte(a, p[0], w[0], p[1]) && is_path(
                a,
                p.drop_first(),
                w.drop_first(),
            ));
            assert(a_byte(a, p[0], w[0], p[1]));
            lemma_path_steps(a, p.drop_first(), w.drop_first());
        }
        assert forall|idx: int| #![trigger p[idx]]
            0 <= idx < p.len() - 1 implies a_eps(a, p[idx], p[idx + 1]) || (exists|b: u8|
                #[trigger] a_byte(a, p[idx], b, p[idx + 1])) by {
            if idx > 0 {
                assert(p.drop_first()[idx - 1] == p[idx]);
                assert(p.drop_first()[idx] == p[idx + 1]);
            }
        }
    }
}

/// In a sound span, a path's states past the first are edge destinations
/// and so never the excluded entry state.
pub proof fn lemma_path_targets(
    a: Seq<Option<State>>,
    lo: int,
    hi: int,
    avoid: int,
    p: Seq<int>,
    w: Seq<u8>,
)
    requires
        span_ok(a, lo, hi, avoid),
        is_path(a, p, w),
        forall|idx: int| 0 <= idx < p.len() ==> lo < #[trigger] p[idx] <= hi,
    ensures
        forall|idx: int| 1 <= idx < p.len() ==> p[idx] != avoid,
{
    lemma_path_steps(a, p, w);
    assert forall|idx: int| 1 <= idx < p.len() implies p[idx] != avoid by {
        assert(arena_live(a, p[idx - 1]));
        assert(span_state_ok(a, p[idx - 1], lo, hi, avoid));
        let st = arena_state(a, p[idx - 1]);
        if a_eps(a, p[idx - 1], p[idx]) {
            let e = choose|e: int|
                0 <= e < st.etrans@.len() && st.etrans@[e] == p[idx] as usize;
            assert(span_target(a, lo, hi, avoid, st.etrans@[e] as int));
        } else {
            let b = choose|b: u8| #[trigger] a_byte(a, p[idx - 1], b, p[idx]);
            let e = choose|e: int|
                0 <= e < st.trans@.len() && st.trans@[e] == (b, p[idx] as usize);
            assert(span_target(a, lo, hi, avoid, (st.trans@[e]).1 as int));
        }
    }
}

/// Reachability survives an arena change that preserves the span's edges,
/// and the span may widen.
pub proof fn lemma_reaches_mono(
    a1: Seq<Option<State>>,
    a2: Seq<Option<State>>,
    lo: int,
    hi: int,
    lo2: int,
    hi2: int,
    i: int,
    j: int,
    w: Seq<u8>,
)
    requires
        reaches_in(a1, lo, hi, i, j, w),
        lo2 <= lo,
        hi <= hi2,
        forall|x: int, y: int| lo < x <= hi && #[trigger] a_eps(a1, x, y) ==> a_eps(a2, x, y),
        forall|x: int, c: u8, y: int|
            lo < x <= hi && #[trigger] a_byte(a1, x, c, y) ==> a_byte(a2, x, c, y),
    ensures
        reaches_in(a2, lo2, hi2, i, j, w),
{
    let p = choose|p: Seq<int>|
        #[trigger] is_path(a1, p, w) && p.len() > 0 && p[0] == i && p.last() == j && (forall|
            idx: int,
        | 0 <= idx < p.len() ==> lo < #[trigger] p[idx] <= hi);
    lemma_path_mono(a1, a2, lo, hi, lo, p, w);
    assert(is_path(a2, p, w) && p.len() > 0 && p[0] == i && p.last() == j && (forall|idx: int|
        0 <= idx < p.len() ==> lo2 < #[trigger] p[idx] <= hi2));
}

/// Pumping a star: when the operand's words all travel from `iniop` to
/// `finop`, the loop-back and exit edges carry any nonempty starred word
/// from `iniop` to `fin`.
pub proof fn lemma_star_paths(
    a: Seq<Option<State>>,
    lo: int,
    hi: int,
    iniop: int,
    finop: int,
    fin: int,
    op: AST,
    w: Seq<u8>,
)
    requires
        forall|w2: Seq<u8>| #[trigger] lang(op, w2) ==> reaches_in(a, lo, hi, iniop, finop, w2),
        a_eps(a, finop, iniop),
        a_eps(a, finop, fin),
        lo < fin <= hi,
        iniop != fin,
        star_lang(op, w),
        w.len() > 0,
    ensures
        reaches_in(a, lo, hi, iniop, fin, w),
    decreases w.len(),
{
    let k = choose|k: int|
        1 <= k <= w.len() && lang(op, #[trigger] w.take(k)) && star_lang(op, w.skip(k));
    assert(reaches_in(a, lo, hi, iniop, finop, w.take(k)));
    let p1 = choose|p1: Seq<int>|
        #[trigger] is_path(a, p1, w.take(k)) && p1.len() > 0 && p1[0] == iniop && p1.last()
            == finop && (forall|idx: int| 0 <= idx < p1.len() ==> lo < #[trigger] p1[idx] <= hi);
    if w.skip(k).len() == 0 {
        lemma_path_snoc_eps(a, p1, w.take(k), fin);
        let q = p1.push(fin);
        assert(w.take(k) =~= w);
        assert(q[0] == iniop && q.last() == fin);
        assert(is_path(a, q, w) && q.len() > 0 && q[0] == iniop && q.last() == fin && (forall|
            idx: int,
        | 0 <= idx < q.len() ==> lo < #[trigger] q[idx] <= hi));
    } else {
        lemma_path_snoc_eps(a, p1, w.take(k), iniop);
        let q1 = p1.push(iniop);
        lemma_star_paths(a, lo, hi, iniop, finop, fin, op, w.skip(k));
        let p2 = choose|p2: Seq<int>|
            #[trigger] is_path(a, p2, w.skip(k)) && p2.len() > 0 && p2[0] == iniop && p2.last()
                == fin && (forall|idx: int|
                0 <= idx < p2.len() ==> lo < #[trigger] p2[idx] <= hi);
        assert(p2.len() >= 2);
        lemma_path_concat(a, q1, w.take(k), p2, w.skip(k));
        let q = q1 + p2.drop_first();
        assert(w.take(k) + w.skip(k) =~= w);
        assert(q[0] == iniop);
        assert(q.last() == p2.drop_first().last());
        assert(p2.drop_first().last() == p2.last());
        assert forall|idx: int| 0 <= idx < q.len() implies lo < #[trigger] q[idx] <= hi by {
            if idx < q1.len() {
                assert(q[idx] == q1[idx]);
            } else {
                assert(q[idx] == p2.drop_first()[idx - q1.len()]);
                assert(p2.drop_first()[idx - q1.len()] == p2[idx - q1.len() + 1]);
            }
        }
        assert(is_path(a, q, w) && q.len() > 0 && q[0] == iniop && q.last() == fin);
    }
}

/// Builds the automaton of `r` into the shared arena, in the classic
/// recursive structural fashion, and returns its entry and final state.
///
/// Every sub-automaton built this way has exactly one final state, an
/// invariant the concatenation case relies on; the pair is returned
/// directly rather than recovered from the arena.  The final state has no
/// outgoing edges yet, and no state of the new span points at the entry,
/// which lets the concatenation case delete the right operand's entry
/// without leaving a dangling edge.
#[verifier::rlimit(100)]
#[verifier::spinoff_prover]
fn build_into(arena: &mut Vec<Option<State>>, r: &AST, current_id: &mut usize) -> (res: (
    usize,
    usize,
))
    requires
        old(arena)@.len() == *old(current_id) + 1,
        *old(current_id) + 2 * r.size() <= usize::MAX,
    ensures
        *old(current_id) + 2 <= *final(current_id),
        *final(current_id) <= *old(current_id) + 2 * r.size(),
        final(arena)@.len() == *final(current_id) + 1,
        forall|i: int| 0 <= i <= *old(current_id) ==> final(arena)@[i] == old(arena)@[i],
        span_ok(final(arena)@, *old(current_id) as int, *final(current_id) as int, res.0 as int),
        *old(current_id) < res.0 <= *final(current_id),
        *old(current_id) < res.1 <= *final(current_id),
        res.0 != res.1,
        arena_live(final(arena)@, res.0 as int),
        arena_live(final(arena)@, res.1 as int),
        arena_state(final(arena)@, res.1 as int).no_edges(),
        ({
            let ist = arena_state(final(arena)@, res.0 as int);
            &&& (r matches AST::Char(p) ==> ist.trans@.len() == 1 && ist.trans@[0] == (
                p.0,
                res.1,
            ) && ist.etrans@.len() == 0)
            &&& (r matches AST::Or(l2, r2) ==> ist.trans@.len() == 0 && ist.etrans@.len() == 2)
            &&& (r matches AST::Clos(op) ==> ist.trans@.len() == 0 && ist.etrans@.len() == 2
                && ist.etrans@[1] == res.1)
        }),
        forall|w: Seq<u8>|
            #[trigger] lang(*r, w) ==> reaches_in(
                final(arena)@,
                *old(current_id) as int,
                *final(current_id) as int,
                res.0 as int,
                res.1 as int,
                w,
            ),
    decreases *r,
{
    let ghost c0 = *current_id as int;
    match r {
        AST::Char((ch, _pos)) => {
            let (ini, mut ist) = new_state(current_id);
            let (fin, fst) = new_state(current_id);
            ist.trans.push((*ch, fin));
            arena.push(Some(ist));
            arena.push(Some(fst));
            proof {
                assert forall|i: int|
                    c0 < i <= *current_id && arena_live(arena@, i) implies span_state_ok(
                    arena@,
                    i,
                    c0,
                    *current_id as int,
                    ini as int,
                ) by {
                    if i == ini as int {
                        let st = arena_state(arena@, i);
                        assert(st.trans@.len() == 1);
                        assert(st.trans@[0].1 == fin);
                        assert(span_target(arena@, c0, *current_id as int, ini as int, fin as int));
                    }
                }
                let hi = *current_id as int;
                assert forall|w: Seq<u8>| #[trigger] lang(*r, w) implies reaches_in(
                    arena@,
                    c0,
                    hi,
                    ini as int,
                    fin as int,
                    w,
                ) by {
                    assert(w.len() == 1 && w[0] == *ch);
                    let p = seq![ini as int, fin as int];
                    assert(arena_state(arena@, ini as int).trans@[0] == (*ch, fin));
                    assert(arena_state(arena@, ini as int).trans@.contains((*ch, fin)));
                    assert(a_byte(arena@, ini as int, *ch, fin as int));
                    assert(p.drop_first() =~= seq![fin as int]);
                    assert(w.drop_first() =~= Seq::<u8>::empty());
                    assert(is_path(arena@, seq![fin as int], w.drop_first()));
                    assert(is_path(arena@, p, w));
                    assert(p.len() > 0 && p[0] == ini as int && p.last() == fin as int && (forall|
                        idx: int,
                    | 0 <= idx < p.len() ==> c0 < #[trigger] p[idx] <= hi));
                }
            }
            (ini, fin)
        },
        AST::Clos(op) => {
            let (ini_o, fin_o) = build_into(arena, &**op, current_id);
            let ghost c1 = *current_id as int;
            let ghost a1 = arena@;
            let (ini, mut ist) = new_state(current_id);
            let (fin, fst) = new_state(current_id);
            ist.etrans.push(ini_o);
            ist.etrans.push(fin);
            arena.push(Some(ist));
            arena.push(Some(fst));
            add_etrans(arena, fin_o, fin);
            add_etrans(arena, fin_o, ini_o);
            proof {
                let hi = *current_id as int;
                assert forall|i: int|
                    c0 < i <= hi && arena_live(arena@, i) implies span_state_ok(
                    arena@,
                    i,
                    c0,
                    hi,
                    ini as int,
                ) by {
                    if i <= c1 && i != fin_o as int {
                        lemma_span_state_mono(
                            a1,
                            arena@,
                            i,
                            c0,
                            c1,
                            ini_o as int,
                            c0,
                            hi,
                            ini as int,
                        );
                    } else if i == fin_o as int {
                        assert(span_state_ok(a1, fin_o as int, c0, c1, ini_o as int));
                        let st = arena_state(arena@, i);
                        assert(st.etrans@ =~= seq![fin, ini_o]);
                        assert(span_target(arena@, c0, hi, ini as int, fin as int));
                        assert(span_target(arena@, c0, hi, ini as int, ini_o as int));
                    } else if i == ini as int {
                        let st = arena_state(arena@, i);
                        assert(st.etrans@ =~= seq![ini_o, fin]);
                        assert(span_target(arena@, c0, hi, ini as int, ini_o as int));
                        assert(span_target(arena@, c0, hi, ini as int, fin as int));
                    }
                }
                // the operand's words still travel from its entry to its
                // final state after the loop edges were added
                assert forall|x: int, y: int|
                    c0 < x <= c1 && #[trigger] a_eps(a1, x, y) implies a_eps(arena@, x, y) by {
                    if x == fin_o as int {
                        let st0 = arena_state(a1, x);
                        let e = choose|e: int|
                            0 <= e < st0.etrans@.len() && st0.etrans@[e] == y as usize;
                        assert(arena_state(arena@, x).etrans@[e] == y as usize);
                        assert(arena_state(arena@, x).etrans@.contains(y as usize));
                    } else {
                        assert(arena@[x] == a1[x]);
                    }
                }
                assert forall|x: int, c: u8, y: int|
                    c0 < x <= c1 && #[trigger] a_byte(a1, x, c, y) implies a_byte(
                    arena@,
                    x,
                    c,
                    y,
                ) by {
                    if x == fin_o as int {
                        assert(arena_state(arena@, x).trans@ == arena_state(a1, x).trans@);
                    } else {
                        assert(arena@[x] == a1[x]);
                    }
                }
                assert forall|w2: Seq<u8>| #[trigger] lang(**op, w2) implies reaches_in(
                    arena@,
                    c0,
                    hi,
                    ini_o as int,
                    fin_o as int,
                    w2,
                ) by {
                    lemma_reaches_mono(
                        a1,
                        arena@,
                        c0,
                        c1,
                        c0,
                        hi,
                        ini_o as int,
                        fin_o as int,
                        w2,
                    );
                }
                assert(arena_state(arena@, fin_o as int).etrans@ =~= seq![fin, ini_o]);
                assert(a_eps(arena@, fin_o as int, ini_o as int)) by {
                    assert(arena_state(arena@, fin_o as int).etrans@[1] == ini_o);
                    assert(arena_state(arena@, fin_o as int).etrans@.contains(ini_o));
                }
                assert(a_eps(arena@, fin_o as int, fin as int)) by {
                    assert(arena_state(arena@, fin_o as int).etrans@[0] == fin);
                    assert(arena_state(arena@, fin_o as int).etrans@.contains(fin));
                }
                assert(a_eps(arena@, ini as int, ini_o as int)) by {
                    assert(arena_state(arena@, ini as int).etrans@[0] == ini_o);
                    assert(arena_state(arena@, ini as int).etrans@.contains(ini_o));
                }
                assert(a_eps(arena@, ini as int, fin as int)) by {
                    assert(arena_state(arena@, ini as int).etrans@[1] == fin);
                    assert(arena_state(arena@, ini as int).etrans@.contains(fin));
                }
                assert forall|w: Seq<u8>| #[trigger] lang(*r, w) implies reaches_in(
                    arena@,
                    c0,
                    hi,
                    ini as int,
                    fin as int,
                    w,
                ) by {
                    assert(star_lang(**op, w));
                    if w.len() == 0 {
                        let p = seq![ini as int, fin as int];
                        assert(p.drop_first() =~= seq![fin as int]);
                        assert(is_path(arena@, seq![fin as int], w));
                        assert(is_path(arena@, p, w));
                        assert(p.len() > 0 && p[0] == ini as int && p.last() == fin as int && (
                        forall|idx: int| 0 <= idx < p.len() ==> c0 < #[trigger] p[idx] <= hi));
                    } else {
                        lemma_star_paths(
                            arena@,
                            c0,
                            hi,
                            ini_o as int,
                            fin_o as int,
                            fin as int,
                            **op,
                            w,
                        );
                        let p2 = choose|p2: Seq<int>|
                            #[trigger] is_path(arena@, p2, w) && p2.len() > 0 && p2[0]
                                == ini_o as int && p2.last() == fin as int && (forall|idx: int|
                                0 <= idx < p2.len() ==> c0 < #[trigger] p2[idx] <= hi);
                        lemma_path_cons_eps(arena@, ini as int, p2, w);
                        let q = seq![ini as int] + p2;
                        assert(q[0] == ini as int);
                        assert(q.last() == p2.last());
                        assert forall|idx: int| 0 <= idx < q.len() implies c0 < #[trigger] q[idx]
                            <= hi by {
                            if idx > 0 {
                                assert(q[idx] == p2[idx - 1]);
                            }
                        }
                        assert(is_path(arena@, q, w) && q.len() > 0 && q[0] == ini as int
                            && q.last() == fin as int);
                    }
                }
            }
            (ini, fin)
        },
        AST::Or(opl, opr) => {
            let (ini_l, fin_l) = build_into(arena, &**opl, current_id);
            let ghost cl = *current_id as int;
            let ghost al = arena@;
            let (ini_r, fin_r) = build_into(arena, &**opr, current_id);
            let ghost cr = *current_id as int;
            let ghost ar = arena@;
            let (ini, mut ist) = new_state(current_id);
            let (fin, fst) = new_state(current_id);
            ist.etrans.push(ini_l);
            ist.etrans.push(ini_r);
            arena.push(Some(ist));
            arena.push(Some(fst));
            add_etrans(arena, fin_l, fin);
            add_etrans(arena, fin_r, fin);
            proof {
                let hi = *current_id as int;
                assert forall|i: int|
                    c0 < i <= hi && arena_live(arena@, i) implies span_state_ok(
                    arena@,
                    i,
                    c0,
                    hi,
                    ini as int,
                ) by {
                    if i <= cl && i != fin_l as int {
                        assert(al[i] == ar[i]);
                        lemma_span_state_mono(
                            al,
                            arena@,
                            i,
                            c0,
                            cl,
                            ini_l as int,
                            c0,
                            hi,
                            ini as int,
                        );
                    } else if cl < i <= cr && i != fin_r as int {
                        lemma_span_state_mono(
                            ar,
                            arena@,
                            i,
                            cl,
                            cr,
                            ini_r as int,
                            c0,
                            hi,
                            ini as int,
                        );
                    } else if i == fin_l as int {
                        assert(span_state_ok(al, fin_l as int, c0, cl, ini_l as int));
                        let st = arena_state(arena@, i);
                        assert(st.etrans@ =~= seq![fin]);
                        assert(span_target(arena@, c0, hi, ini as int, fin as int));
                    } else if i == fin_r as int {
                        assert(span_state_ok(ar, fin_r as int, cl, cr, ini_r as int));
                        let st = arena_state(arena@, i);
                        assert(st.etrans@ =~= seq![fin]);
                        assert(span_target(arena@, c0, hi, ini as int, fin as int));
                    } else if i == ini as int {
                        let st = arena_state(arena@, i);
                        assert(st.etrans@ =~= seq![ini_l, ini_r]);
                        assert(span_target(arena@, c0, hi, ini as int, ini_l as int));
                        assert(span_target(arena@, c0, hi, ini as int, ini_r as int));
                    }
                }
                // each operand's words still travel through its span
                assert forall|x: int, y: int|
                    c0 < x <= cl && #[trigger] a_eps(al, x, y) implies a_eps(arena@, x, y) by {
                    if x == fin_l as int {
                        let st0 = arena_state(al, x);
                        let e = choose|e: int|
                            0 <= e < st0.etrans@.len() && st0.etrans@[e] == y as usize;
                        assert(arena_state(arena@, x).etrans@[e] == y as usize);
                        assert(arena_state(arena@, x).etrans@.contains(y as usize));
                    } else {
                        assert(arena@[x] == al[x]);
                    }
                }
                assert forall|x: int, c: u8, y: int|
                    c0 < x <= cl && #[trigger] a_byte(al, x, c, y) implies a_byte(
                    arena@,
                    x,
                    c,
                    y,
                ) by {
                    if x == fin_l as int {
                        assert(arena_state(arena@, x).trans@ == arena_state(al, x).trans@);
                    } else {
                        assert(arena@[x] == al[x]);
                    }
                }
                assert forall|x: int, y: int|
                    cl < x <= cr && #[trigger] a_eps(ar, x, y) implies a_eps(arena@, x, y) by {
                    if x == fin_r as int {
                        let st0 = arena_state(ar, x);
                        let e = choose|e: int|
                            0 <= e < st0.etrans@.len() && st0.etrans@[e] == y as usize;
                        assert(arena_state(arena@, x).etrans@[e] == y as usize);
                        assert(arena_state(arena@, x).etrans@.contains(y as usize));
                    } else {
                        assert(arena@[x] == ar[x]);
                    }
                }
                assert forall|x: int, c: u8, y: int|
                    cl < x <= cr && #[trigger] a_byte(ar, x, c, y) implies a_byte(
                    arena@,
                    x,
                    c,
                    y,
                ) by {
                    if x == fin_r as int {
                        assert(arena_state(arena@, x).trans@ == arena_state(ar, x).trans@);
                    } else {
                        assert(arena@[x] == ar[x]);
                    }
                }
                assert(a_eps(arena@, ini as int, ini_l as int)) by {
                    assert(arena_state(arena@, ini as int).etrans@[0] == ini_l);
                    assert(arena_state(arena@, ini as int).etrans@.contains(ini_l));
                }
                assert(a_eps(arena@, ini as int, ini_r as int)) by {
                    assert(arena_state(arena@, ini as int).etrans@[1] == ini_r);
                    assert(arena_state(arena@, ini as int).etrans@.contains(ini_r));
                }
                assert(a_eps(arena@, fin_l as int, fin as int)) by {
                    assert(arena_state(arena@, fin_l as int).etrans@ =~= seq![fin]);
                    assert(arena_state(arena@, fin_l as int).etrans@[0] == fin);
                    assert(arena_state(arena@, fin_l as int).etrans@.contains(fin));
                }
                assert(a_eps(arena@, fin_r as int, fin as int)) by {
                    assert(arena_state(arena@, fin_r as int).etrans@ =~= seq![fin]);
                    assert(arena_state(arena@, fin_r as int).etrans@[0] == fin);
                    assert(arena_state(arena@, fin_r as int).etrans@.contains(fin));
                }
                assert forall|w: Seq<u8>| #[trigger] lang(*r, w) implies reaches_in(
                    arena@,
                    c0,
                    hi,
                    ini as int,
                    fin as int,
                    w,
                ) by {
                    if lang(**opl, w) {
                        lemma_reaches_mono(
                            al,
                            arena@,
                            c0,
                            cl,
                            c0,
                            hi,
                            ini_l as int,
                            fin_l as int,
                            w,
                        );
                        let p1 = choose|p1: Seq<int>|
                            #[trigger] is_path(arena@, p1, w) && p1.len() > 0 && p1[0]
                                == ini_l as int && p1.last() == fin_l as int && (forall|idx: int|
                                0 <= idx < p1.len() ==> c0 < #[trigger] p1[idx] <= hi);
                        lemma_path_cons_eps(arena@, ini as int, p1, w);
                        let q1 = seq![ini as int] + p1;
                        assert(q1.last() == p1.last());
                        lemma_path_snoc_eps(arena@, q1, w, fin as int);
                        let q = q1.push(fin as int);
                        assert(q[0] == ini as int && q.last() == fin as int);
                        assert forall|idx: int| 0 <= idx < q.len() implies c0 < #[trigger] q[idx]
                            <= hi by {
                            if 0 < idx < q.len() - 1 {
                                assert(q[idx] == q1[idx]);
                                assert(q1[idx] == p1[idx - 1]);
                            }
                        }
                        assert(is_path(arena@, q, w) && q.len() > 0 && q[0] == ini as int
                            && q.last() == fin as int);
                    } else {
                        assert(lang(**opr, w));
                        lemma_reaches_mono(
                            ar,
                            arena@,
                            cl,
                            cr,
                            c0,
                            hi,
                            ini_r as int,
                            fin_r as int,
                            w,
                        );
                        let p1 = choose|p1: Seq<int>|
                            #[trigger] is_path(arena@, p1, w) && p1.len() > 0 && p1[0]
                                == ini_r as int && p1.last() == fin_r as int && (forall|idx: int|
                                0 <= idx < p1.len() ==> c0 < #[trigger] p1[idx] <= hi);
                        lemma_path_cons_eps(arena@, ini as int, p1, w);
                        let q1 = seq![ini as int] + p1;
                        assert(q1.last() == p1.last());
                        lemma_path_snoc_eps(arena@, q1, w, fin as int);
                        let q = q1.push(fin as int);
                        assert(q[0] == ini as int && q.last() == fin as int);
                        assert forall|idx: int| 0 <= idx < q.len() implies c0 < #[trigger] q[idx]
                            <= hi by {
                            if 0 < idx < q.len() - 1 {
                                assert(q[idx] == q1[idx]);
                                assert(q1[idx] == p1[idx - 1]);
                            }
                        }
                        assert(is_path(arena@, q, w) && q.len() > 0 && q[0] == ini as int
                            && q.last() == fin as int);
                    }
                }
            }
            (ini, fin)
        },
        AST::Cat(opl, opr) => {
            let (ini_l, fin_l) = build_into(arena, &**opl, current_id);
            let ghost cl = *current_id as int;
            let ghost al = arena@;
            let (ini_r, fin_r) = build_into(arena, &**opr, current_id);
            let ghost cr = *current_id as int;
            let ghost ar = arena@;
            // splice: re-home the right entry's outgoing edges onto the
            // left final state, then drop the right entry
            let rst = take_state(arena, ini_r);
            let mut lst = take_state(arena, fin_l);
            lst.trans = rst.trans;
            lst.etrans = rst.etrans;
            arena[fin_l] = Some(lst);
            proof {
                let hi = cr;
                assert forall|i: int|
                    c0 < i <= hi && arena_live(arena@, i) implies span_state_ok(
                    arena@,
                    i,
                    c0,
                    hi,
                    ini_l as int,
                ) by {
                    assert(span_ok(ar, cl, cr, ini_r as int));
                    if i <= cl && i != fin_l as int {
                        assert(al[i] == ar[i]);
                        lemma_span_state_mono(
                            al,
                            arena@,
                            i,
                            c0,
                            cl,
                            ini_l as int,
                            c0,
                            hi,
                            ini_l as int,
                        );
                    } else if cl < i && i != ini_r as int && i != fin_l as int {
                        lemma_span_state_mono(
                            ar,
                            arena@,
                            i,
                            cl,
                            cr,
                            ini_r as int,
                            c0,
                            hi,
                            ini_l as int,
                        );
                    } else if i == fin_l as int {
                        // the left final now carries the right entry's
                        // edges, whose destinations lie in the right span
                        assert(span_state_ok(al, fin_l as int, c0, cl, ini_l as int));
                        assert(span_state_ok(ar, ini_r as int, cl, cr, ini_r as int));
                        let st = arena_state(arena@, i);
                        let rold = arena_state(ar, ini_r as int);
                        assert(st.trans == rold.trans);
                        assert(st.etrans == rold.etrans);
                        assert forall|k: int| 0 <= k < st.trans@.len() implies span_target(
                            arena@,
                            c0,
                            hi,
                            ini_l as int,
                            (#[trigger] st.trans@[k]).1 as int,
                        ) by {
                            assert(span_target(ar, cl, cr, ini_r as int, rold.trans@[k].1 as int));
                        }
                        assert forall|k: int| 0 <= k < st.etrans@.len() implies span_target(
                            arena@,
                            c0,
                            hi,
                            ini_l as int,
                            #[trigger] st.etrans@[k] as int,
                        ) by {
                            assert(span_target(ar, cl, cr, ini_r as int, rold.etrans@[k] as int));
                        }
                    }
                }
                assert(arena_state(arena@, fin_r as int).no_edges());
                // the left operand's words still travel its span: its
                // final state had no outgoing edges, so the splice adds
                // edges only
                assert forall|x: int, y: int|
                    c0 < x <= cl && #[trigger] a_eps(al, x, y) implies a_eps(arena@, x, y) by {
                    if x == fin_l as int {
                        assert(arena_state(al, x).no_edges());
                    } else {
                        assert(arena@[x] == al[x]);
                    }
                }
                assert forall|x: int, c: u8, y: int|
                    c0 < x <= cl && #[trigger] a_byte(al, x, c, y) implies a_byte(
                    arena@,
                    x,
                    c,
                    y,
                ) by {
                    if x == fin_l as int {
                        assert(arena_state(al, x).no_edges());
                    } else {
                        assert(arena@[x] == al[x]);
                    }
                }
                // right-span states other than the deleted entry keep
                // their edges
                assert forall|x: int, y: int|
                    cl < x <= cr && x != ini_r as int && #[trigger] a_eps(ar, x, y) implies a_eps(
                    arena@,
                    x,
                    y,
                ) by {
                    assert(arena@[x] == ar[x]);
                }
                assert forall|x: int, c: u8, y: int|
                    cl < x <= cr && x != ini_r as int && #[trigger] a_byte(ar, x, c, y)
                    implies a_byte(arena@, x, c, y) by {
                    assert(arena@[x] == ar[x]);
                }
                assert forall|w: Seq<u8>| #[trigger] lang(*r, w) implies reaches_in(
                    arena@,
                    c0,
                    hi,
                    ini_l as int,
                    fin_r as int,
                    w,
                ) by {
                    let k = choose|k: int|
                        0 <= k <= w.len() && lang(**opl, #[trigger] w.take(k)) && lang(
                            **opr,
                            w.skip(k),
                        );
                    // the left part of the word reaches the left final
                    lemma_reaches_mono(
                        al,
                        arena@,
                        c0,
                        cl,
                        c0,
                        hi,
                        ini_l as int,
                        fin_l as int,
                        w.take(k),
                    );
                    let p1 = choose|p1: Seq<int>|
                        #[trigger] is_path(arena@, p1, w.take(k)) && p1.len() > 0 && p1[0]
                            == ini_l as int && p1.last() == fin_l as int && (forall|idx: int|
                            0 <= idx < p1.len() ==> c0 < #[trigger] p1[idx] <= hi);
                    // the right part's path, its deleted entry re-homed
                    // onto the left final
                    assert(reaches_in(ar, cl, cr, ini_r as int, fin_r as int, w.skip(k)));
                    let p2 = choose|p2: Seq<int>|
                        #[trigger] is_path(ar, p2, w.skip(k)) && p2.len() > 0 && p2[0]
                            == ini_r as int && p2.last() == fin_r as int && (forall|idx: int|
                            0 <= idx < p2.len() ==> cl < #[trigger] p2[idx] <= cr);
                    assert(p2.len() >= 2);
                    lemma_path_targets(ar, cl, cr, ini_r as int, p2, w.skip(k));
                    let tail = p2.drop_first();
                    assert(forall|idx: int|
                        0 <= idx < tail.len() ==> cl < #[trigger] tail[idx] <= cr && tail[idx]
                            != ini_r as int);
                    assert(tail.last() == p2.last());
                    let rold = arena_state(ar, ini_r as int);
                    let q2: Seq<int> = seq![fin_l as int] + tail;
                    assert(q2.last() == tail.last());
                    if a_eps(ar, p2[0], p2[1]) && is_path(ar, tail, w.skip(k)) {
                        lemma_path_mono(ar, arena@, cl, cr, ini_r as int, tail, w.skip(k));
                        assert(a_eps(arena@, fin_l as int, tail[0])) by {
                            assert(rold.etrans@.contains(p2[1] as usize));
                            assert(arena_state(arena@, fin_l as int).etrans@ == rold.etrans@);
                        }
                        lemma_path_cons_eps(arena@, fin_l as int, tail, w.skip(k));
                        assert(is_path(arena@, q2, w.skip(k)));
                    } else {
                        assert(w.skip(k).len() > 0 && a_byte(ar, p2[0], w.skip(k)[0], p2[1])
                            && is_path(ar, tail, w.skip(k).drop_first()));
                        lemma_path_mono(
                            ar,
                            arena@,
                            cl,
                            cr,
                            ini_r as int,
                            tail,
                            w.skip(k).drop_first(),
                        );
                        assert(a_byte(arena@, fin_l as int, w.skip(k)[0], tail[0])) by {
                            assert(rold.trans@.contains((w.skip(k)[0], p2[1] as usize)));
                            assert(arena_state(arena@, fin_l as int).trans@ == rold.trans@);
                        }
                        lemma_path_cons_byte(
                            arena@,
                            fin_l as int,
                            w.skip(k)[0],
                            tail,
                            w.skip(k).drop_first(),
                        );
                        assert(seq![w.skip(k)[0]] + w.skip(k).drop_first() =~= w.skip(k));
                        assert(is_path(arena@, q2, w.skip(k)));
                    }
                    lemma_path_concat(arena@, p1, w.take(k), q2, w.skip(k));
                    let q = p1 + q2.drop_first();
                    assert(q2.drop_first() =~= tail);
                    assert(w.take(k) + w.skip(k) =~= w);
                    assert(q[0] == p1[0]);
                    assert(q.last() == tail.last());
                    assert forall|idx: int| 0 <= idx < q.len() implies c0 < #[trigger] q[idx]
                        <= hi by {
                        if idx < p1.len() {
                            assert(q[idx] == p1[idx]);
                        } else {
                            assert(q[idx] == tail[idx - p1.len()]);
                        }
                    }
                    assert(is_path(arena@, q, w) && q.len() > 0 && q[0] == ini_l as int
                        && q.last() == fin_r as int);
                }
            }
            (ini_l, fin_r)
        },
    }
}

impl NFA {
    /// Builds the automaton of one pattern, drawing state ids from the
    /// shared counter.  The result has exactly one final state, not yet
    /// marked with an action.
    pub fn new(r: &AST, current_id: &mut usize) -> (nfa: NFA)
        requires
            *old(current_id) + 2 * r.size() <= usize::MAX,
        ensures
            *old(current_id) + 2 <= *final(current_id),
            *final(current_id) <= *old(current_id) + 2 * r.size(),
            nfa.wf_core(),
            nfa.states@.len() == *final(current_id) + 1,
            nfa.finals@.len() == 1,
            nfa.live(nfa.finals@[0] as int),
            forall|i: int| nfa.live(i) ==> *old(current_id) < i,
            forall|i: int| nfa.live(i) ==> (#[trigger] nfa.state_of(i)).action is None,
            ({
                let ist = nfa.state_of(nfa.initial as int);
                &&& (r matches AST::Char(p) ==> ist.trans@.len() == 1 && ist.trans@[0] == (
                    p.0,
                    nfa.finals@[0],
                ) && ist.etrans@.len() == 0)
                &&& (r matches AST::Or(l2, r2) ==> ist.trans@.len() == 0 && ist.etrans@.len()
                    == 2)
                &&& (r matches AST::Clos(op) ==> ist.trans@.len() == 0 && ist.etrans@.len() == 2
                    && ist.etrans@[1] == nfa.finals@[0])
            }),
            forall|w: Seq<u8>| #[trigger] lang(*r, w) ==> nfa.accepts(w),
    {
        let mut arena: Vec<Option<State>> = Vec::new();
        let target = *current_id + 1;
        let mut i: usize = 0;
        while i < target
            invariant
                i <= target,
                arena@.len() == i,
                forall|m: int| 0 <= m < i ==> arena@[m] is None,
            decreases target - i,
        {
            arena.push(None);
            i += 1;
        }
        let ghost c0 = *current_id as int;
        let (ini, fin) = build_into(&mut arena, r, current_id);
        let mut finals: Vec<usize> = Vec::new();
        finals.push(fin);
        let nfa = NFA { states: arena, finals, initial: ini };
        proof {
            assert forall|i2: int, j: int| #[trigger] nfa.eps_edge(i2, j) implies nfa.live(j) by {
                assert(c0 < i2);
                assert(span_state_ok(nfa.states@, i2, c0, *current_id as int, ini as int));
                let st = nfa.state_of(i2);
                let k = choose|k: int| 0 <= k < st.etrans@.len() && st.etrans@[k] == j as usize;
                assert(span_target(nfa.states@, c0, *current_id as int, ini as int, j));
            }
            assert forall|i2: int, c: u8, j: int| #[trigger] nfa.byte_edge(i2, c, j) implies nfa.live(
                j,
            ) by {
                assert(c0 < i2);
                assert(span_state_ok(nfa.states@, i2, c0, *current_id as int, ini as int));
                let st = nfa.state_of(i2);
                let k = choose|k: int|
                    0 <= k < st.trans@.len() && st.trans@[k] == (c, j as usize);
                assert(span_target(nfa.states@, c0, *current_id as int, ini as int, j));
            }
            assert forall|i2: int| nfa.live(i2) implies (#[trigger] nfa.state_of(
                i2,
            )).action is None by {
                assert(c0 < i2);
                assert(span_state_ok(nfa.states@, i2, c0, *current_id as int, ini as int));
            }
            assert forall|w: Seq<u8>| #[trigger] lang(*r, w) implies nfa.accepts(w) by {
                assert(reaches_in(
                    nfa.states@,
                    c0,
                    *current_id as int,
                    ini as int,
                    fin as int,
                    w,
                ));
                let p = choose|p: Seq<int>|
                    #[trigger] is_path(nfa.states@, p, w) && p.len() > 0 && p[0] == ini as int
                        && p.last() == fin as int && (forall|idx: int|
                        0 <= idx < p.len() ==> c0 < #[trigger] p[idx] <= *current_id as int);
                assert(is_path(nfa.states@, p, w) && p.len() > 0 && p[0] == nfa.initial as int
                    && p.last() == fin as int && (forall|idx: int|
                    0 <= idx < p.len() ==> 0 < #[trigger] p[idx] <= nfa.states@.len() - 1));
                assert(reaches_in(
                    nfa.states@,
                    0,
                    nfa.states@.len() - 1,
                    nfa.initial as int,
                    fin as int,
                    w,
                ));
                assert(nfa.finals@[0] == fin);
                assert(has_id(nfa.finals@, fin as int));
            }
        }
        nfa
    }
}

/// The total node count of the first `k` trees of a pattern list.
pub open spec fn regexs_size_prefix(rs: Seq<(AST, usize)>, k: int) -> nat
    decreases k,
{
    if k <= 0 {
        0
    } else {
        regexs_size_prefix(rs, k - 1) + rs[k - 1].0.size()
    }
}

/// The total node count of a pattern list.
pub open spec fn regexs_size(rs: Seq<(AST, usize)>) -> nat {
    regexs_size_prefix(rs, rs.len() as int)
}

pub proof fn lemma_regexs_size_mono(rs: Seq<(AST, usize)>, k1: int, k2: int)
    requires
        0 <= k1 <= k2,
    ensures
        regexs_size_prefix(rs, k1) <= regexs_size_prefix(rs, k2),
    decreases k2,
{
    if k1 < k2 {
        lemma_regexs_size_mono(rs, k1, k2 - 1);
    }
}

pub proof fn lemma_has_id_push(s: Seq<usize>, v: usize, x: int)
    requires
        has_id(s, x),
    ensures
        has_id(s.push(v), x),
{
    let k = choose|k: int| 0 <= k < s.len() && s[k] == x;
    assert(s.push(v)[k] == x);
}

impl NFA {
    /// Merges the automata of one start condition's patterns, in
    /// declaration order, under a fresh shared entry state that reaches
    /// each pattern by an epsilon edge, and marks each pattern's final
    /// state with that pattern's action id.  Pattern priority is not
    /// resolved here: it is the determinizer's concern.
    pub fn build_nfa(regexs: Vec<(AST, usize)>) -> (nfa: NFA)
        requires
            2 * regexs_size(regexs@) + 1 <= usize::MAX,
            forall|k: int| 0 <= k < regexs@.len() ==> 1 <= (#[trigger] regexs@[k]).1,
        ensures
            nfa.wf(),
            nfa.finals@.len() == regexs@.len(),
            forall|i: int|
                nfa.live(i) && (#[trigger] nfa.state_of(i)).action is Some ==> exists|k: int|
                    0 <= k < regexs@.len() && (#[trigger] regexs@[k]).1 == nfa.state_of(
                        i,
                    ).action->Some_0,
            nfa.state_of(nfa.initial as int).trans@.len() == 0,
            nfa.state_of(nfa.initial as int).etrans@.len() == regexs@.len(),
            forall|m: int|
                0 <= m < regexs@.len() ==> nfa.live(
                    (#[trigger] nfa.state_of(nfa.initial as int).etrans@[m]) as int,
                ),
            forall|m: int|
                0 <= m < regexs@.len() ==> nfa.state_of((#[trigger] nfa.finals@[m]) as int).action
                    == Some(regexs@[m].1),
            forall|m: int, w: Seq<u8>|
                0 <= m < regexs@.len() && #[trigger] lang(regexs@[m].0, w) ==> reaches_in(
                    nfa.states@,
                    0,
                    nfa.states@.len() - 1,
                    nfa.initial as int,
                    nfa.finals@[m] as int,
                    w,
                ),
    {
        let mut cid: usize = 0;
        let mut arena: Vec<Option<State>> = Vec::new();
        arena.push(None);
        let mut finals: Vec<usize> = Vec::new();
        let mut entries: Vec<usize> = Vec::new();
        let n = regexs.len();
        let mut k: usize = 0;
        while k < n
            invariant
                k <= n,
                n == regexs@.len(),
                2 * regexs_size(regexs@) + 1 <= usize::MAX,
                forall|k2: int| 0 <= k2 < n ==> 1 <= (#[trigger] regexs@[k2]).1,
                arena@.len() == cid + 1,
                cid as int <= 2 * regexs_size_prefix(regexs@, k as int),
                arena@[0] is None,
                arena_ok(arena@),
                finals@.len() == k,
                entries@.len() == k,
                forall|m: int| 0 <= m < k ==> 1 <= (#[trigger] finals@[m]) && finals@[m] <= cid,
                forall|m1: int, m2: int| 0 <= m1 < m2 < k ==> finals@[m1] < finals@[m2],
                forall|m: int| 0 <= m < k ==> arena_live(arena@, #[trigger] finals@[m] as int),
                forall|m: int|
                    0 <= m < k ==> arena_state(arena@, (#[trigger] finals@[m]) as int).action
                        == Some(regexs@[m].1),
                forall|m: int| 0 <= m < k ==> arena_live(arena@, #[trigger] entries@[m] as int),
                forall|m: int, w: Seq<u8>|
                    0 <= m < k && #[trigger] lang(regexs@[m].0, w) ==> reaches_in(
                        arena@,
                        0,
                        cid as int,
                        entries@[m] as int,
                        finals@[m] as int,
                        w,
                    ),
                forall|i: int|
                    arena_live(arena@, i) && (#[trigger] arena_state(arena@, i)).action is Some
                        ==> has_id(finals@, i),
            decreases n - k,
        {
            proof {
                lemma_regexs_size_mono(regexs@, k as int + 1, n as int);
            }
            let ghost cid0 = cid as int;
            let ghost a0 = arena@;
            let (ini, fin) = build_into(&mut arena, &regexs[k].0, &mut cid);
            let ghost a1 = arena@;
            let mut st = take_state(&mut arena, fin);
            st.action = Some(regexs[k].1);
            arena[fin] = Some(st);
            let ghost finals0 = finals@;
            let ghost entries0 = entries@;
            finals.push(fin);
            entries.push(ini);
            proof {
                // edges of the states already built are untouched; the new
                // final only gained its action mark
                assert forall|x: int, y: int|
                    0 < x <= cid0 && #[trigger] a_eps(a0, x, y) implies a_eps(arena@, x, y) by {
                    assert(arena@[x] == a0[x]);
                }
                assert forall|x: int, c: u8, y: int|
                    0 < x <= cid0 && #[trigger] a_byte(a0, x, c, y) implies a_byte(
                    arena@,
                    x,
                    c,
                    y,
                ) by {
                    assert(arena@[x] == a0[x]);
                }
                assert forall|x: int, y: int|
                    cid0 < x <= cid as int && #[trigger] a_eps(a1, x, y) implies a_eps(
                    arena@,
                    x,
                    y,
                ) by {
                    if x == fin as int {
                        assert(arena_state(arena@, x).etrans@ == arena_state(a1, x).etrans@);
                    } else {
                        assert(arena@[x] == a1[x]);
                    }
                }
                assert forall|x: int, c: u8, y: int|
                    cid0 < x <= cid as int && #[trigger] a_byte(a1, x, c, y) implies a_byte(
                    arena@,
                    x,
                    c,
                    y,
                ) by {
                    if x == fin as int {
                        assert(arena_state(arena@, x).trans@ == arena_state(a1, x).trans@);
                    } else {
                        assert(arena@[x] == a1[x]);
                    }
                }
                assert forall|m: int, w: Seq<u8>|
                    0 <= m < k + 1 && #[trigger] lang(regexs@[m].0, w) implies reaches_in(
                    arena@,
                    0,
                    cid as int,
                    entries@[m] as int,
                    finals@[m] as int,
                    w,
                ) by {
                    if m < k {
                        assert(entries@[m] == entries0[m] && finals@[m] == finals0[m]);
                        lemma_reaches_mono(
                            a0,
                            arena@,
                            0,
                            cid0,
                            0,
                            cid as int,
                            entries0[m] as int,
                            finals0[m] as int,
                            w,
                        );
                    } else {
                        assert(entries@[m] == ini && finals@[m] == fin);
                        lemma_reaches_mono(
                            a1,
                            arena@,
                            cid0,
                            cid as int,
                            0,
                            cid as int,
                            ini as int,
                            fin as int,
                            w,
                        );
                    }
                }
                assert forall|i: int| arena_live(arena@, i) implies #[trigger] arena_entry_ok(
                    arena@,
                    i,
                ) by {
                    let sti = arena_state(arena@, i);
                    if i <= cid0 {
                        assert(arena@[i] == a0[i]);
                        assert(arena_entry_ok(a0, i));
                        assert forall|e: int| 0 <= e < sti.trans@.len() implies arena_live(
                            arena@,
                            (#[trigger] sti.trans@[e]).1 as int,
                        ) by {
                            let t = sti.trans@[e].1 as int;
                            assert(arena_live(a0, t));
                            assert(arena@[t] == a0[t]);
                        }
                        assert forall|e: int| 0 <= e < sti.etrans@.len() implies arena_live(
                            arena@,
                            #[trigger] sti.etrans@[e] as int,
                        ) by {
                            let t = sti.etrans@[e] as int;
                            assert(arena_live(a0, t));
                            assert(arena@[t] == a0[t]);
                        }
                    } else {
                        assert(span_state_ok(a1, i, cid0, cid as int, ini as int));
                        assert forall|e: int| 0 <= e < sti.trans@.len() implies arena_live(
                            arena@,
                            (#[trigger] sti.trans@[e]).1 as int,
                        ) by {
                            assert(span_target(
                                a1,
                                cid0,
                                cid as int,
                                ini as int,
                                sti.trans@[e].1 as int,
                            ));
                        }
                        assert forall|e: int| 0 <= e < sti.etrans@.len() implies arena_live(
                            arena@,
                            #[trigger] sti.etrans@[e] as int,
                        ) by {
                            assert(span_target(
                                a1,
                                cid0,
                                cid as int,
                                ini as int,
                                sti.etrans@[e] as int,
                            ));
                        }
                    }
                }
                assert forall|i: int|
                    arena_live(arena@, i) && (#[trigger] arena_state(arena@, i)).action is Some
                        implies has_id(finals@, i) by {
                    if i <= cid0 {
                        assert(arena@[i] == a0[i]);
                        assert(arena_live(a0, i));
                        assert(arena_state(a0, i).action is Some);
                        assert(has_id(finals0, i));
                        lemma_has_id_push(finals0, fin, i);
                    } else if i != fin as int {
                        assert(span_state_ok(a1, i, cid0, cid as int, ini as int));
                    } else {
                        assert(finals@[finals@.len() - 1] == fin);
                    }
                }
            }
            k += 1;
        }
        let n_id = gen_state_num(&mut cid);
        let ghost entries_v = entries@;
        let ghost pre_push = arena@;
        arena.push(Some(State { trans: Vec::new(), etrans: entries, action: None }));
        let nfa = NFA { states: arena, finals, initial: n_id };
        proof {
            assert forall|i2: int, j: int| #[trigger] nfa.eps_edge(i2, j) implies nfa.live(j) by {
                let sti = nfa.state_of(i2);
                let e = choose|e: int| 0 <= e < sti.etrans@.len() && sti.etrans@[e] == j as usize;
                if i2 == n_id as int {
                    assert(arena_live(pre_push, entries_v[e] as int));
                } else {
                    assert(arena_live(pre_push, i2));
                    assert(arena_entry_ok(pre_push, i2));
                    assert(arena_live(pre_push, sti.etrans@[e] as int));
                }
            }
            assert forall|i2: int, c: u8, j: int| #[trigger] nfa.byte_edge(i2, c, j) implies nfa.live(
                j,
            ) by {
                let sti = nfa.state_of(i2);
                let e = choose|e: int|
                    0 <= e < sti.trans@.len() && sti.trans@[e] == (c, j as usize);
                if i2 != n_id as int {
                    assert(arena_live(pre_push, i2));
                    assert(arena_entry_ok(pre_push, i2));
                    assert(arena_live(pre_push, sti.trans@[e].1 as int));
                }
            }
            assert forall|i: int|
                nfa.live(i) && (#[trigger] nfa.state_of(i)).action is Some implies has_id(
                nfa.finals@,
                i,
            ) by {
                if i != n_id as int {
                    assert(arena_live(pre_push, i));
                    assert(arena_state(pre_push, i) == nfa.state_of(i));
                }
            }
            assert forall|i: int|
                nfa.live(i) && (#[trigger] nfa.state_of(i)).action is Some implies exists|k2: int|
                    0 <= k2 < regexs@.len() && (#[trigger] regexs@[k2]).1 == nfa.state_of(
                    i,
                ).action->Some_0 by {
                assert(has_id(nfa.finals@, i));
                let m = choose|m: int| 0 <= m < nfa.finals@.len() && nfa.finals@[m] == i;
                assert(nfa.state_of(i).action == Some(regexs@[m].1));
            }
            assert(nfa.state_of(n_id as int).etrans@ == entries_v);
            assert forall|m: int|
                0 <= m < regexs@.len() implies nfa.live(
                (#[trigger] nfa.state_of(nfa.initial as int).etrans@[m]) as int,
            ) by {
                assert(arena_live(pre_push, entries_v[m] as int));
            }
            assert forall|m: int|
                0 <= m < regexs@.len() implies nfa.state_of(
                (#[trigger] nfa.finals@[m]) as int,
            ).action == Some(regexs@[m].1) by {
                assert(arena_live(pre_push, nfa.finals@[m] as int));
                assert(arena_state(pre_push, nfa.finals@[m] as int).action == Some(regexs@[m].1));
            }
            assert forall|x: int, y: int|
                0 < x <= n_id - 1 && #[trigger] a_eps(pre_push, x, y) implies a_eps(
                nfa.states@,
                x,
                y,
            ) by {
                assert(nfa.states@[x] == pre_push[x]);
            }
            assert forall|x: int, c: u8, y: int|
                0 < x <= n_id - 1 && #[trigger] a_byte(pre_push, x, c, y) implies a_byte(
                nfa.states@,
                x,
                c,
                y,
            ) by {
                assert(nfa.states@[x] == pre_push[x]);
            }
            assert forall|m: int, w: Seq<u8>|
                0 <= m < regexs@.len() && #[trigger] lang(regexs@[m].0, w) implies reaches_in(
                nfa.states@,
                0,
                nfa.states@.len() - 1,
                nfa.initial as int,
                nfa.finals@[m] as int,
                w,
            ) by {
                lemma_reaches_mono(
                    pre_push,
                    nfa.states@,
                    0,
                    n_id - 1,
                    0,
                    n_id - 1,
                    entries_v[m] as int,
                    nfa.finals@[m] as int,
                    w,
                );
                let p = choose|p: Seq<int>|
                    #[trigger] is_path(nfa.states@, p, w) && p.len() > 0 && p[0]
                        == entries_v[m] as int && p.last() == nfa.finals@[m] as int && (forall|
                        idx: int,
                    | 0 <= idx < p.len() ==> 0 < #[trigger] p[idx] <= n_id - 1);
                assert(a_eps(nfa.states@, n_id as int, entries_v[m] as int)) by {
                    assert(nfa.state_of(n_id as int).etrans@ == entries_v);
                    assert(nfa.state_of(n_id as int).etrans@[m] == entries_v[m]);
                    assert(nfa.state_of(n_id as int).etrans@.contains(entries_v[m]));
                }
                lemma_path_cons_eps(nfa.states@, n_id as int, p, w);
                let q = seq![n_id as int] + p;
                assert(q[0] == n_id as int && q.last() == p.last());
                assert forall|idx: int| 0 <= idx < q.len() implies 0 < #[trigger] q[idx]
                    <= nfa.states@.len() - 1 by {
                    if idx > 0 {
                        assert(q[idx] == p[idx - 1]);
                    }
                }
                assert(is_path(nfa.states@, q, w) && q.len() > 0 && q[0] == nfa.initial as int
                    && q.last() == nfa.finals@[m] as int);
            }
        }
        nfa
    }
}

impl State {
    /// The destinations reachable from this state by one edge labelled `c`.
    pub fn trans(&self, c: u8) -> (r: Vec<usize>)
        ensures
            r@ == targets_of(self.trans@, c),
            forall|t: usize| r@.contains(t) <==> self.trans@.contains((c, t)),
    {
        let ne = self.trans.len();
        let mut r: Vec<usize> = Vec::new();
        let mut k: usize = 0;
        while k < ne
            invariant
                k <= ne,
                ne == self.trans@.len(),
                r@ == targets_of(self.trans@.subrange(0, k as int), c),
            decreases ne - k,
        {
            let ghost pre = self.trans@.subrange(0, k as int);
            let (b, t) = self.trans[k];
            if b == c {
                r.push(t);
            }
            proof {
                let post = self.trans@.subrange(0, k + 1);
                assert(post.drop_last() =~= pre);
                assert(post.last() == self.trans@[k as int]);
            }
            k += 1;
        }
        proof {
            assert(self.trans@.subrange(0, ne as int) =~= self.trans@);
            assert forall|t: usize| r@.contains(t) <==> self.trans@.contains((c, t)) by {
                lemma_targets_of(self.trans@, c, t);
            }
        }
        r
    }
}

} // verus!
