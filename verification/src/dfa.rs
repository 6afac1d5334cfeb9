//! Deterministic finite automata.
//!
//! A DFA state remembers the set of automaton states of the source NFA it
//! subsumes (as a bitmap over the NFA's arena), its 256-entry transition
//! row, and the action it fires on acceptance.  Transition entries hold
//! the destination state id, with 0 — the reserved dead state — standing
//! for "no transition".

use vstd::prelude::*;
use vstd::set_lib::lemma_int_range;
use vstd::set_lib::lemma_len_subset;
use vstd::set_lib::set_int_range;
use crate::action::Action;
use crate::nfa::NFA;
use crate::nfa::covers;
use crate::nfa::has_id;

verus! {

/// One deterministic state.
pub struct State {
    /// The source-NFA states this state subsumes, as a bitmap over the
    /// NFA arena.  Needed during construction and minimization only.
    pub nfa_states: Vec<bool>,
    /// The 256-entry transition row: entry `c` is the destination for
    /// byte `c`, 0 meaning no transition (the dead state).
    pub trans: Vec<usize>,
    /// The action fired on acceptance in this state, if it is final.
    pub action: Option<usize>,
}

/// A deterministic finite automaton.
pub struct DFA {
    /// The state arena: entry `i` holds the state with id `i`; entry 0 is
    /// always vacant, standing for the dead state.
    pub states: Vec<Option<State>>,
    /// The final state ids, pairwise distinct.
    pub finals: Vec<usize>,
    /// The entry state id.
    pub initial: usize,
}

impl DFA {
    /// State id `i` is in range and occupied.
    pub open spec fn live(&self, i: int) -> bool {
        0 <= i < self.states@.len() && self.states@[i] is Some
    }

    /// The state with id `i`.
    pub open spec fn state_of(&self, i: int) -> State {
        self.states@[i]->Some_0
    }

    /// A sound automaton: entry 0 vacant, the entry state occupied, every
    /// row 256 wide with destinations inside the arena, the final-state
    /// list exact, and action ids positive.
    pub open spec fn wf(&self) -> bool {
        &&& 1 <= self.states@.len()
        &&& self.states@[0] is None
        &&& self.live(self.initial as int)
        &&& forall|i: int| self.live(i) ==> (#[trigger] self.state_of(i)).trans@.len() == 256
        &&& forall|i: int, c: int|
            self.live(i) && 0 <= c < 256 ==> ((#[trigger] self.state_of(i).trans@[c]) as int == 0
                || self.live(self.state_of(i).trans@[c] as int))
        &&& forall|k: int|
            0 <= k < self.finals@.len() ==> self.live(#[trigger] self.finals@[k] as int)
                && self.state_of(self.finals@[k] as int).action is Some
        &&& forall|i: int|
            self.live(i) && (#[trigger] self.state_of(i)).action is Some ==> has_id(
                self.finals@,
                i,
            )
        &&& forall|k1: int, k2: int|
            0 <= k1 < k2 < self.finals@.len() ==> self.finals@[k1] != self.finals@[k2]
        &&& forall|i: int|
            self.live(i) && (#[trigger] self.state_of(i)).action is Some ==> 1 <= self.state_of(
                i,
            ).action->Some_0
    }

    /// Every action id the automaton fires is at most `n`.
    pub open spec fn actions_bounded(&self, n: int) -> bool {
        forall|i: int|
            self.live(i) && (#[trigger] self.state_of(i)).action is Some ==> self.state_of(
                i,
            ).action->Some_0 <= n
    }

    /// One step: the byte-`c` successor of state `q`; the dead state 0
    /// absorbs every byte.
    pub open spec fn step(&self, q: int, c: u8) -> int {
        if self.live(q) {
            self.state_of(q).trans@[c as int] as int
        } else {
            0
        }
    }

    /// The state reached from `q` after consuming `s`.
    pub open spec fn run_from(&self, q: int, s: Seq<u8>) -> int
        decreases s.len(),
    {
        if s.len() == 0 {
            q
        } else {
            self.run_from(self.step(q, s[0]), s.subrange(1, s.len() as int))
        }
    }

    /// The action of state `q`, `None` for non-final or dead states.
    pub open spec fn action_at(&self, q: int) -> Option<usize> {
        if self.live(q) {
            self.state_of(q).action
        } else {
            None
        }
    }

    /// The action the automaton selects for the complete input `s`: the
    /// action of the state reached from the entry state, if it is final.
    pub open spec fn selected_action(&self, s: Seq<u8>) -> Option<usize> {
        self.action_at(self.run_from(self.initial as int, s))
    }
}

/// Entry `i` of a raw DFA arena is occupied.
pub open spec fn slot_live(a: Seq<Option<State>>, i: int) -> bool {
    0 <= i < a.len() && a[i] is Some
}

/// 2 to the power `n`.
pub open spec fn pow2(n: nat) -> nat
    decreases n,
{
    if n == 0 {
        1
    } else {
        2 * pow2((n - 1) as nat)
    }
}

/// A bitmap read as a binary number.
pub open spec fn bits_val(s: Seq<bool>) -> int
    decreases s.len(),
{
    if s.len() == 0 {
        0
    } else {
        2 * bits_val(s.drop_last()) + if s.last() {
            1int
        } else {
            0int
        }
    }
}

pub proof fn lemma_bits_val_bounds(s: Seq<bool>)
    ensures
        0 <= bits_val(s) < pow2(s.len() as nat),
    decreases s.len(),
{
    if s.len() > 0 {
        lemma_bits_val_bounds(s.drop_last());
    }
}

/// Two bitmaps of the same length with the same value are equal.
pub proof fn lemma_bits_val_inj(a: Seq<bool>, b: Seq<bool>)
    requires
        a.len() == b.len(),
        bits_val(a) == bits_val(b),
    ensures
        a == b,
    decreases a.len(),
{
    if a.len() > 0 {
        let xa = bits_val(a.drop_last());
        let xb = bits_val(b.drop_last());
        assert(a.last() == b.last()) by {
            assert(2 * xa != 2 * xb + 1);
            assert(2 * xa + 1 != 2 * xb);
        }
        assert(xa == xb);
        lemma_bits_val_inj(a.drop_last(), b.drop_last());
        assert forall|i: int| 0 <= i < a.len() implies a[i] == b[i] by {
            if i < a.len() - 1 {
                assert(a[i] == a.drop_last()[i]);
                assert(b[i] == b.drop_last()[i]);
            } else {
                assert(a[i] == a.last());
                assert(b[i] == b.last());
            }
        }
        assert(a =~= b);
    } else {
        assert(a =~= b);
    }
}

/// An arena of states whose subsumed sets are bitmaps of length `n` and
/// pairwise distinct holds at most `2^n` states.
pub proof fn lemma_state_count_bound(a: Seq<Option<State>>, n: nat)
    requires
        a.len() >= 1,
        forall|i: int|
            1 <= i < a.len() ==> slot_live(a, i) && (#[trigger] a[i])->Some_0.nfa_states@.len()
                == n,
        forall|i: int, j: int|
            1 <= i < j < a.len() ==> (#[trigger] a[i])->Some_0.nfa_states@ != (
            #[trigger] a[j])->Some_0.nfa_states@,
    ensures
        a.len() <= pow2(n) + 1,
{
    let m = (a.len() - 1) as nat;
    let vals = Seq::new(m, |i: int| bits_val(a[i + 1]->Some_0.nfa_states@));
    assert(vals.no_duplicates()) by {
        assert forall|i: int, j: int|
            0 <= i < vals.len() && 0 <= j < vals.len() && i != j implies vals[i] != vals[j] by {
            if vals[i] == vals[j] {
                lemma_bits_val_inj(a[i + 1]->Some_0.nfa_states@, a[j + 1]->Some_0.nfa_states@);
            }
        }
    }
    vals.unique_seq_to_set();
    assert(vals.to_set().subset_of(set_int_range(0, pow2(n) as int))) by {
        assert forall|v: int| vals.to_set().contains(v) implies set_int_range(
            0,
            pow2(n) as int,
        ).contains(v) by {
            let i = choose|i: int| 0 <= i < vals.len() && vals[i] == v;
            lemma_bits_val_bounds(a[i + 1]->Some_0.nfa_states@);
        }
    }
    lemma_int_range(0, pow2(n) as int);
    lemma_len_subset(vals.to_set(), set_int_range(0, pow2(n) as int));
}

/// A 256-entry row of zeroes: no transition on any byte.
pub(crate) fn zeros256() -> (r: Vec<usize>)
    ensures
        r@.len() == 256,
        forall|c: int| 0 <= c < 256 ==> r@[c] == 0,
{
    let mut r: Vec<usize> = Vec::new();
    let mut c: usize = 0;
    while c < 256
        invariant
            c <= 256,
            r@.len() == c,
            forall|m: int| 0 <= m < c ==> r@[m] == 0,
        decreases 256 - c,
    {
        r.push(0);
        c += 1;
    }
    r
}

/// An all-false bitmap of length `n`.
fn empty_bitmap(n: usize) -> (r: Vec<bool>)
    ensures
        r@.len() == n,
        forall|m: int| 0 <= m < n ==> !r@[m],
{
    let mut r: Vec<bool> = Vec::new();
    let mut i: usize = 0;
    while i < n
        invariant
            i <= n,
            r@.len() == i,
            forall|m: int| 0 <= m < i ==> !r@[m],
        decreases n - i,
    {
        r.push(false);
        i += 1;
    }
    r
}

/// A copy of a bitmap.
fn copy_bools(v: &Vec<bool>) -> (r: Vec<bool>)
    ensures
        r@ == v@,
{
    let n = v.len();
    let mut r: Vec<bool> = Vec::new();
    let mut i: usize = 0;
    while i < n
        invariant
            i <= n,
            n == v@.len(),
            r@.len() == i,
            forall|m: int| 0 <= m < i ==> r@[m] == v@[m],
        decreases n - i,
    {
        r.push(v[i]);
        i += 1;
    }
    proof {
        assert(r@ =~= v@);
    }
    r
}

/// Whether two bitmaps are equal.
fn bitmap_eq(a: &Vec<bool>, b: &Vec<bool>) -> (r: bool)
    ensures
        r == (a@ == b@),
{
    let n = a.len();
    if n != b.len() {
        proof {
            assert(a@.len() != b@.len());
        }
        return false;
    }
    let mut i: usize = 0;
    while i < n
        invariant
            i <= n,
            n == a@.len(),
            n == b@.len(),
            forall|m: int| 0 <= m < i ==> a@[m] == b@[m],
        decreases n - i,
    {
        if a[i] != b[i] {
            return false;
        }
        i += 1;
    }
    proof {
        assert(a@ =~= b@);
    }
    true
}

/// Whether two id vectors are equal.
fn ids_eq(a: &Vec<usize>, b: &Vec<usize>) -> (r: bool)
    ensures
        r == (a@ == b@),
{
    let n = a.len();
    if n != b.len() {
        proof {
            assert(a@.len() != b@.len());
        }
        return false;
    }
    let mut i: usize = 0;
    while i < n
        invariant
            i <= n,
            n == a@.len(),
            n == b@.len(),
            forall|m: int| 0 <= m < i ==> a@[m] == b@[m],
        decreases n - i,
    {
        if a[i] != b[i] {
            return false;
        }
        i += 1;
    }
    proof {
        assert(a@ =~= b@);
    }
    true
}

/// All action records are well formed.
pub open spec fn atb_wf(atb: Seq<Action>) -> bool {
    forall|k: int| 0 <= k < atb.len() ==> (#[trigger] atb[k]).wf()
}


/// The record `merged` is the union of `lo` and `hi` with `lo` — the
/// earlier declaration — winning on any condition both define.
pub open spec fn merged_with_priority(lo: Action, hi: Action, merged: Action) -> bool {
    &&& forall|k: Seq<char>|
        #[trigger] lo.spec_has(k) ==> merged.spec_has(k) && merged.spec_code(k) == lo.spec_code(k)
    &&& forall|k: Seq<char>|
        !lo.spec_has(k) && #[trigger] hi.spec_has(k) ==> merged.spec_has(k) && merged.spec_code(k)
            == hi.spec_code(k)
    &&& forall|k: Seq<char>| #[trigger] merged.spec_has(k) ==> lo.spec_has(k) || hi.spec_has(k)
}

/// Every condition of record `a` carries a code that some record of the
/// table `src` carries under that same condition: merging never invents
/// code, it only moves it between records of one table.
pub open spec fn record_from(src: Seq<Action>, a: Action) -> bool {
    forall|k: Seq<char>|
        #[trigger] a.spec_has(k) ==> exists|k2: int|
            0 <= k2 < src.len() && (#[trigger] src[k2]).spec_has(k) && src[k2].spec_code(k)
                == a.spec_code(k)
}

/// No record of the table loses a condition it had.
pub open spec fn records_grow(src: Seq<Action>, cur: Seq<Action>) -> bool {
    &&& cur.len() == src.len()
    &&& forall|idx: int, k: Seq<char>|
        0 <= idx < src.len() && #[trigger] src[idx].spec_has(k) ==> cur[idx].spec_has(k)
}

/// Every record of a table is drawn from that table itself.
pub proof fn lemma_record_from_refl(src: Seq<Action>, idx: int)
    requires
        0 <= idx < src.len(),
    ensures
        record_from(src, src[idx]),
{
    assert forall|k: Seq<char>| #[trigger] src[idx].spec_has(k) implies exists|k2: int|
        0 <= k2 < src.len() && (#[trigger] src[k2]).spec_has(k) && src[k2].spec_code(k)
            == src[idx].spec_code(k) by {
        assert(src[idx].spec_has(k) && src[idx].spec_code(k) == src[idx].spec_code(k));
    }
}

/// A merge of two records drawn from a table is drawn from that table.
pub proof fn lemma_record_from_step(src: Seq<Action>, lo: Action, hi: Action, merged: Action)
    requires
        record_from(src, lo),
        record_from(src, hi),
        merged_with_priority(lo, hi, merged),
    ensures
        record_from(src, merged),
{
    assert forall|k: Seq<char>| #[trigger] merged.spec_has(k) implies exists|k2: int|
        0 <= k2 < src.len() && (#[trigger] src[k2]).spec_has(k) && src[k2].spec_code(k)
            == merged.spec_code(k) by {
        if lo.spec_has(k) {
            let k2 = choose|k2: int|
                0 <= k2 < src.len() && (#[trigger] src[k2]).spec_has(k) && src[k2].spec_code(k)
                    == lo.spec_code(k);
            assert(src[k2].spec_has(k) && src[k2].spec_code(k) == merged.spec_code(k));
        } else {
            assert(hi.spec_has(k));
            let k2 = choose|k2: int|
                0 <= k2 < src.len() && (#[trigger] src[k2]).spec_has(k) && src[k2].spec_code(k)
                    == hi.spec_code(k);
            assert(src[k2].spec_has(k) && src[k2].spec_code(k) == merged.spec_code(k));
        }
    }
}

/// Drawn-from composes across an intermediate table.
pub proof fn lemma_record_from_compose(orig: Seq<Action>, mid: Seq<Action>, a: Action)
    requires
        forall|i: int| 0 <= i < mid.len() ==> record_from(orig, #[trigger] mid[i]),
        record_from(mid, a),
    ensures
        record_from(orig, a),
{
    assert forall|k: Seq<char>| #[trigger] a.spec_has(k) implies exists|k2: int|
        0 <= k2 < orig.len() && (#[trigger] orig[k2]).spec_has(k) && orig[k2].spec_code(k)
            == a.spec_code(k) by {
        let km = choose|km: int|
            0 <= km < mid.len() && (#[trigger] mid[km]).spec_has(k) && mid[km].spec_code(k)
                == a.spec_code(k);
        assert(record_from(orig, mid[km]));
        let ko = choose|ko: int|
            0 <= ko < orig.len() && (#[trigger] orig[ko]).spec_has(k) && orig[ko].spec_code(k)
                == mid[km].spec_code(k);
        assert(orig[ko].spec_has(k) && orig[ko].spec_code(k) == a.spec_code(k));
    }
}

/// Every record of `cur` is drawn from the table `orig`.
pub open spec fn records_from_all(orig: Seq<Action>, cur: Seq<Action>) -> bool {
    forall|i: int| 0 <= i < cur.len() ==> record_from(orig, #[trigger] cur[i])
}

/// Drawn-from-all composes.
pub proof fn lemma_records_from_all_trans(orig: Seq<Action>, mid: Seq<Action>, cur: Seq<Action>)
    requires
        records_from_all(orig, mid),
        records_from_all(mid, cur),
    ensures
        records_from_all(orig, cur),
{
    assert forall|i: int| 0 <= i < cur.len() implies record_from(orig, #[trigger] cur[i]) by {
        lemma_record_from_compose(orig, mid, cur[i]);
    }
}

/// Growth composes.
pub proof fn lemma_records_grow_trans(a: Seq<Action>, b: Seq<Action>, c: Seq<Action>)
    requires
        records_grow(a, b),
        records_grow(b, c),
    ensures
        records_grow(a, c),
{
    assert forall|idx: int, k: Seq<char>|
        0 <= idx < a.len() && #[trigger] a[idx].spec_has(k) implies c[idx].spec_has(k) by {
        assert(b[idx].spec_has(k));
    }
}

/// Resolves a conflict between two action ids firing in one state: the
/// record of `keep` absorbs the record of `other`, and on a condition both
/// records define, the earlier-declared action — the one with the lower
/// id — wins.
pub fn merge_actions(atb: &mut Vec<Action>, keep: usize, other: usize)
    requires
        atb_wf(old(atb)@),
        1 <= keep <= old(atb)@.len(),
        1 <= other <= old(atb)@.len(),
        keep != other,
    ensures
        final(atb)@.len() == old(atb)@.len(),
        atb_wf(final(atb)@),
        forall|k: int|
            0 <= k < final(atb)@.len() && k != keep - 1 ==> final(atb)@[k] == old(atb)@[k],
        other < keep ==> merged_with_priority(
            old(atb)@[other - 1],
            old(atb)@[keep - 1],
            final(atb)@[keep - 1],
        ),
        keep < other ==> merged_with_priority(
            old(atb)@[keep - 1],
            old(atb)@[other - 1],
            final(atb)@[keep - 1],
        ),
{
    let merged = if other < keep {
        atb[other - 1].merge(&atb[keep - 1])
    } else {
        atb[keep - 1].merge(&atb[other - 1])
    };
    atb[keep - 1] = merged;
}

/// Scans a subsumed NFA state set for final states: returns the action of
/// the first final state found, and resolves every further conflicting
/// action against it in the action table, lower id winning per condition.
fn scan_set_action(nfa: &NFA, tr: &Vec<bool>, atb: &mut Vec<Action>) -> (act: Option<usize>)
    requires
        nfa.wf(),
        nfa.actions_bounded(old(atb)@.len() as int),
        tr@.len() == nfa.states@.len(),
        atb_wf(old(atb)@),
    ensures
        final(atb)@.len() == old(atb)@.len(),
        atb_wf(final(atb)@),
        act is Some ==> 1 <= act->Some_0 <= final(atb)@.len() && exists|j: int|
            0 <= j < tr@.len() && tr@[j] && nfa.live(j) && (#[trigger] nfa.state_of(j)).action
                == Some(act->Some_0),
        act is None ==> forall|j: int|
            0 <= j < tr@.len() && tr@[j] && nfa.live(j) ==> (#[trigger] nfa.state_of(
                j,
            )).action is None,
        records_grow(old(atb)@, final(atb)@),
        records_from_all(old(atb)@, final(atb)@),
{
    let n = tr.len();
    proof {
        assert forall|idx: int|
            0 <= idx < atb@.len() implies record_from(old(atb)@, #[trigger] atb@[idx]) by {
            lemma_record_from_refl(old(atb)@, idx);
        }
        assert(records_from_all(old(atb)@, atb@));
    }
    let mut act: Option<usize> = None;
    let mut j: usize = 0;
    while j < n
        invariant
            j <= n,
            n == tr@.len(),
            n == nfa.states@.len(),
            nfa.wf(),
            nfa.actions_bounded(atb@.len() as int),
            atb_wf(atb@),
            atb@.len() == old(atb)@.len(),
            act is Some ==> 1 <= act->Some_0 <= atb@.len() && exists|j2: int|
                0 <= j2 < n && tr@[j2] && nfa.live(j2) && (#[trigger] nfa.state_of(j2)).action
                    == Some(act->Some_0),
            act is None ==> forall|j2: int|
                0 <= j2 < j && tr@[j2] && nfa.live(j2) ==> (#[trigger] nfa.state_of(
                    j2,
                )).action is None,
            records_grow(old(atb)@, atb@),
            records_from_all(old(atb)@, atb@),
        decreases n - j,
    {
        if tr[j] {
            match &nfa.states[j] {
                Some(stj) => {
                    match stj.action {
                        Some(a) => {
                            proof {
                                assert(nfa.live(j as int));
                                assert(nfa.state_of(j as int).action == Some(a));
                                assert(1 <= a <= atb@.len());
                            }
                            match act {
                                None => {
                                    act = Some(a);
                                },
                                Some(a0) => {
                                    if a != a0 {
                                        let ghost pre = atb@;
                                        proof {
                                            assert(records_from_all(old(atb)@, atb@));
                                            assert(record_from(old(atb)@, atb@[a - 1]));
                                            assert(record_from(old(atb)@, atb@[a0 - 1]));
                                        }
                                        merge_actions(atb, a0, a);
                                        proof {
                                            if a < a0 {
                                                lemma_record_from_step(
                                                    old(atb)@,
                                                    pre[a - 1],
                                                    pre[a0 - 1],
                                                    atb@[a0 - 1],
                                                );
                                            } else {
                                                lemma_record_from_step(
                                                    old(atb)@,
                                                    pre[a0 - 1],
                                                    pre[a - 1],
                                                    atb@[a0 - 1],
                                                );
                                            }
                                            assert(records_from_all(old(atb)@, atb@)) by {
                                                assert forall|idx: int|
                                                    0 <= idx < atb@.len() implies record_from(
                                                    old(atb)@,
                                                    #[trigger] atb@[idx],
                                                ) by {
                                                    if idx != a0 - 1 {
                                                        assert(atb@[idx] == pre[idx]);
                                                        assert(record_from(old(atb)@, pre[idx]));
                                                    }
                                                }
                                            }
                                            assert forall|idx: int, k: Seq<char>|
                                                0 <= idx < old(atb)@.len() && #[trigger] old(
                                                atb,
                                            )@[idx].spec_has(k) implies atb@[idx].spec_has(
                                                k,
                                            ) by {
                                                assert(pre[idx].spec_has(k));
                                                if idx == a0 - 1 {
                                                    if a < a0 {
                                                        if pre[a - 1].spec_has(k) {
                                                        }
                                                    } else {
                                                        if pre[a0 - 1].spec_has(k) {
                                                        }
                                                    }
                                                }
                                            }
                                        }
                                    }
                                },
                            }
                        },
                        None => {},
                    }
                },
                None => {},
            }
        }
        j += 1;
    }
    act
}


/// The bitmap marks at least one state.
pub open spec fn set_nonempty(s: Seq<bool>) -> bool {
    exists|j: int| 0 <= j < s.len() && s[j]
}

/// NFA state `j` is reachable from one of the first `k` members of the
/// set `set` by a single byte-`c` edge.
pub open spec fn moved_upto(nfa: NFA, set: Seq<bool>, c: u8, k: int, j: int) -> bool {
    exists|s: int| 0 <= s < k && set[s] && #[trigger] nfa.byte_edge(s, c, j)
}

/// NFA state `j` is reachable from the set `set` by one byte-`c` edge.
pub open spec fn moved_to(nfa: NFA, set: Seq<bool>, c: u8, j: int) -> bool {
    moved_upto(nfa, set, c, set.len() as int, j)
}

/// The set `cc` contains the whole byte-`c` move of `set`.
pub open spec fn move_covered(nfa: NFA, set: Seq<bool>, c: u8, cc: Set<int>) -> bool {
    forall|j: int| #[trigger] moved_to(nfa, set, c, j) ==> cc.contains(j)
}

/// `tset` is exactly the epsilon closure of the byte-`c` move of `set`:
/// it contains the move, is closed under epsilon edges, and is least
/// with those two properties.
pub open spec fn move_closure(nfa: NFA, set: Seq<bool>, c: u8, tset: Seq<bool>) -> bool {
    &&& tset.len() == nfa.states@.len()
    &&& forall|j: int| #[trigger] moved_to(nfa, set, c, j) ==> 0 <= j < tset.len() && tset[j]
    &&& forall|j: int, j2: int|
        0 <= j < tset.len() && tset[j] && #[trigger] nfa.eps_edge(j, j2) ==> tset[j2]
    &&& forall|cc: Set<int>|
        move_covered(nfa, set, c, cc) && #[trigger] nfa.eps_closed_set(cc) ==> covers(cc, tset)
}

/// A transition entry `t` is exact for byte `c` of a state whose
/// subsumed set is `set`: 0 when the set has no byte-`c` successor, and
/// otherwise a state subsuming exactly the closure of the move.
pub open spec fn row_entry_exact(
    nfa: NFA,
    states: Seq<Option<State>>,
    set: Seq<bool>,
    t: int,
    c: int,
) -> bool {
    &&& (t == 0 ==> forall|j: int| !(#[trigger] moved_to(nfa, set, c as u8, j)))
    &&& (t != 0 ==> slot_live(states, t) && move_closure(
        nfa,
        set,
        c as u8,
        states[t]->Some_0.nfa_states@,
    ))
}

/// Row entry `c` of DFA state `i` is exact.
pub open spec fn row_exact(nfa: NFA, states: Seq<Option<State>>, i: int, c: int) -> bool {
    row_entry_exact(
        nfa,
        states,
        states[i]->Some_0.nfa_states@,
        states[i]->Some_0.trans@[c] as int,
        c,
    )
}

/// Every row entry of DFA state `i` is exact.
pub open spec fn rows_exact(nfa: NFA, states: Seq<Option<State>>, i: int) -> bool {
    forall|c: int| 0 <= c < 256 ==> #[trigger] row_exact(nfa, states, i, c)
}

/// One of the first `e` edges of NFA state `k` is a byte-`c` edge to `j`.
pub open spec fn edge_upto(nfa: NFA, k: int, c: u8, e: int, j: int) -> bool {
    exists|e2: int|
        0 <= e2 < e && ((#[trigger] nfa.state_of(k).trans@[e2]).0 == c) && (nfa.state_of(
            k,
        ).trans@[e2].1 as int == j)
}

/// Extending the scanned prefix of the set by one member adds exactly
/// that member's byte-`c` successors.
pub proof fn lemma_moved_upto_step(nfa: NFA, set: Seq<bool>, c: u8, k: int, j: int)
    requires
        0 <= k,
    ensures
        moved_upto(nfa, set, c, k + 1, j) <==> (moved_upto(nfa, set, c, k, j) || (set[k]
            && nfa.byte_edge(k, c, j))),
{
    if moved_upto(nfa, set, c, k + 1, j) {
        let s = choose|s: int| 0 <= s < k + 1 && set[s] && #[trigger] nfa.byte_edge(s, c, j);
        if s < k {
            assert(moved_upto(nfa, set, c, k, j));
        }
    }
    if moved_upto(nfa, set, c, k, j) {
        let s = choose|s: int| 0 <= s < k && set[s] && #[trigger] nfa.byte_edge(s, c, j);
        assert(0 <= s < k + 1 && set[s] && nfa.byte_edge(s, c, j));
    }
    if set[k] && nfa.byte_edge(k, c, j) {
        assert(0 <= k < k + 1 && set[k] && nfa.byte_edge(k, c, j));
    }
}

/// Extending the scanned prefix of an edge list by one edge adds exactly
/// that edge's destination when its label matches.
pub proof fn lemma_edge_upto_step(nfa: NFA, k: int, c: u8, e: int, j: int)
    requires
        0 <= e,
    ensures
        edge_upto(nfa, k, c, e + 1, j) <==> (edge_upto(nfa, k, c, e, j) || ((nfa.state_of(
            k,
        ).trans@[e].0 == c) && (nfa.state_of(k).trans@[e].1 as int == j))),
{
    if edge_upto(nfa, k, c, e + 1, j) {
        let e2 = choose|e2: int|
            0 <= e2 < e + 1 && ((#[trigger] nfa.state_of(k).trans@[e2]).0 == c) && (nfa.state_of(
                k,
            ).trans@[e2].1 as int == j);
        if e2 < e {
            assert(edge_upto(nfa, k, c, e, j));
        }
    }
    if edge_upto(nfa, k, c, e, j) {
        let e2 = choose|e2: int|
            0 <= e2 < e && ((#[trigger] nfa.state_of(k).trans@[e2]).0 == c) && (nfa.state_of(
                k,
            ).trans@[e2].1 as int == j);
        assert(edge_upto(nfa, k, c, e + 1, j));
    }
    if nfa.state_of(k).trans@[e].0 == c && nfa.state_of(k).trans@[e].1 as int == j {
        assert((#[trigger] nfa.state_of(k).trans@[e]).0 == c);
        assert(edge_upto(nfa, k, c, e + 1, j));
    }
}

/// The whole edge list of a live NFA state reaches `j` on `c` exactly
/// when the automaton has that byte edge.
pub proof fn lemma_edge_upto_full(nfa: NFA, k: int, c: u8, j: int)
    requires
        nfa.live(k),
        0 <= j <= usize::MAX,
    ensures
        edge_upto(nfa, k, c, nfa.state_of(k).trans@.len() as int, j) <==> nfa.byte_edge(k, c, j),
{
    let edges = nfa.state_of(k).trans@;
    if edge_upto(nfa, k, c, edges.len() as int, j) {
        let e2 = choose|e2: int|
            0 <= e2 < edges.len() && ((#[trigger] nfa.state_of(k).trans@[e2]).0 == c) && (
            nfa.state_of(k).trans@[e2].1 as int == j);
        assert(edges[e2] == (c, j as usize));
        assert(edges.contains((c, j as usize)));
    }
    if nfa.byte_edge(k, c, j) {
        let e2 = choose|e2: int| 0 <= e2 < edges.len() && edges[e2] == (c, j as usize);
        assert((#[trigger] nfa.state_of(k).trans@[e2]).0 == c && nfa.state_of(
            k,
        ).trans@[e2].1 as int == j);
        assert(edge_upto(nfa, k, c, edges.len() as int, j));
    }
}

/// An exact transition entry stays exact while the arena only grows and
/// keeps every occupied entry's subsumed set.
pub proof fn lemma_row_entry_stable(
    nfa: NFA,
    s1: Seq<Option<State>>,
    s2: Seq<Option<State>>,
    set: Seq<bool>,
    t: int,
    c: int,
)
    requires
        row_entry_exact(nfa, s1, set, t, c),
        s2.len() >= s1.len(),
        forall|m: int|
            0 <= m < s1.len() && s1[m] is Some ==> (#[trigger] s2[m]) is Some
                && s2[m]->Some_0.nfa_states@ == s1[m]->Some_0.nfa_states@,
    ensures
        row_entry_exact(nfa, s2, set, t, c),
{
    if t != 0 {
        assert(slot_live(s1, t));
        assert(s2[t] is Some);
    }
}

/// Exact rows stay exact while the arena only grows, keeps every
/// occupied entry's subsumed set, and keeps state `i` itself unchanged.
pub proof fn lemma_rows_exact_stable(nfa: NFA, s1: Seq<Option<State>>, s2: Seq<Option<State>>, i: int)
    requires
        rows_exact(nfa, s1, i),
        0 <= i < s1.len(),
        s1[i] is Some,
        s2.len() >= s1.len(),
        s2[i] == s1[i],
        forall|m: int|
            0 <= m < s1.len() && s1[m] is Some ==> (#[trigger] s2[m]) is Some
                && s2[m]->Some_0.nfa_states@ == s1[m]->Some_0.nfa_states@,
    ensures
        rows_exact(nfa, s2, i),
{
    assert forall|c: int| 0 <= c < 256 implies #[trigger] row_exact(nfa, s2, i, c) by {
        assert(row_exact(nfa, s1, i, c));
        lemma_row_entry_stable(
            nfa,
            s1,
            s2,
            s1[i]->Some_0.nfa_states@,
            s1[i]->Some_0.trans@[c] as int,
            c,
        );
    }
}

/// Removes the state with id `i` from a DFA arena and hands it out.
fn dfa_take_state(states: &mut Vec<Option<State>>, i: usize) -> (st: State)
    requires
        (i as int) < old(states)@.len(),
        old(states)@[i as int] is Some,
    ensures
        st == old(states)@[i as int]->Some_0,
        final(states)@ == old(states)@.update(i as int, None),
{
    let slot = states[i].take();
    slot.unwrap()
}

/// The first state whose subsumed set equals `tr`, or 0 when none exists.
fn find_state_with_set(states: &Vec<Option<State>>, tr: &Vec<bool>) -> (r: usize)
    requires
        states@.len() >= 1,
        states@[0] is None,
    ensures
        r == 0 ==> forall|i: int|
            slot_live(states@, i) ==> (#[trigger] states@[i])->Some_0.nfa_states@ != tr@,
        r != 0 ==> slot_live(states@, r as int) && states@[r as int]->Some_0.nfa_states@ == tr@,
{
    let n = states.len();
    let mut i: usize = 1;
    while i < n
        invariant
            1 <= i <= n,
            n == states@.len(),
            forall|m: int|
                0 <= m < i && slot_live(states@, m) ==> (#[trigger] states@[m])->Some_0.nfa_states@
                    != tr@,
        decreases n - i,
    {
        match &states[i] {
            Some(st) => {
                if bitmap_eq(&st.nfa_states, tr) {
                    return i;
                }
            },
            None => {},
        }
        i += 1;
    }
    0
}

impl DFA {
    /// Determinizes an NFA by subset construction over the byte alphabet.
    ///
    /// State 1 subsumes the epsilon closure of the NFA's entry state.  For
    /// each unprocessed state and each byte, the closure of the byte move
    /// of its subsumed set either matches an existing state's set, which
    /// is reused, or founds a new state.  An empty move is recorded as no
    /// transition; every recorded transition provably leads to the state
    /// subsuming exactly the closure of the move.  A state's action is
    /// the action of the first final NFA state its set is seen to
    /// contain; every further conflicting action is resolved in the
    /// action table, the earlier-declared (lower-id) action winning per
    /// start condition.
    #[verifier::rlimit(100)]
    #[verifier::spinoff_prover]
    pub fn new_from_nfa(nfa: &NFA, atb: &mut Vec<Action>) -> (d: DFA)
        requires
            nfa.wf(),
            nfa.actions_bounded(old(atb)@.len() as int),
            atb_wf(old(atb)@),
        ensures
            final(atb)@.len() == old(atb)@.len(),
            atb_wf(final(atb)@),
            d.wf(),
            d.initial == 1,
            d.actions_bounded(final(atb)@.len() as int),
            forall|i: int|
                d.live(i) ==> (#[trigger] d.state_of(i)).nfa_states@.len() == nfa.states@.len(),
            ({
                let seed = d.state_of(1).nfa_states@;
                &&& seed[nfa.initial as int]
                &&& forall|i: int, j: int|
                    0 <= i < seed.len() && seed[i] && nfa.eps_edge(i, j) ==> seed[j]
                &&& forall|c: Set<int>|
                    c.contains(nfa.initial as int) && #[trigger] nfa.eps_closed_set(c) ==> covers(
                        c,
                        seed,
                    )
            }),
            forall|i: int|
                d.live(i) && (#[trigger] d.state_of(i)).action is Some ==> exists|j: int|
                    0 <= j < nfa.states@.len() && d.state_of(i).nfa_states@[j] && nfa.live(j)
                        && nfa.state_of(j).action == Some(d.state_of(i).action->Some_0),
            forall|i: int, j: int|
                d.live(i) && (#[trigger] d.state_of(i)).action is None && 0 <= j
                    < nfa.states@.len() && (#[trigger] d.state_of(i).nfa_states@[j]) && nfa.live(j)
                    ==> nfa.state_of(j).action is None,
            forall|i: int| d.live(i) ==> #[trigger] rows_exact(*nfa, d.states@, i),
            subset_shape(*nfa, d),
            forall|i: int, j: int|
                d.live(i) && d.live(j) && i != j ==> (#[trigger] d.state_of(i)).nfa_states@ != (
                #[trigger] d.state_of(j)).nfa_states@,
            records_grow(old(atb)@, final(atb)@),
            records_from_all(old(atb)@, final(atb)@),
    {
        let n = nfa.states.len();
        let ghost nv = n as int;
        let mut states: Vec<Option<State>> = Vec::new();
        states.push(None);
        let seed = nfa.eclosure_(nfa.initial);
        let act0 = scan_set_action(nfa, &seed, atb);
        let ghost seedv = seed@;
        states.push(Some(State { nfa_states: seed, trans: zeros256(), action: act0 }));
        let mut finals: Vec<usize> = Vec::new();
        if act0.is_some() {
            finals.push(1);
        }
        let mut unmarked: Vec<usize> = Vec::new();
        unmarked.push(1);
        proof {
            lemma_state_count_bound(states@, nv as nat);
            assert forall|i: int|
                slot_live(states@, i) && (#[trigger] states@[i])->Some_0.action is Some
                    implies has_id(finals@, i) by {
                assert(i == 1);
                assert(finals@[0] == 1);
            }
            assert(unmarked@[0] == 1);
            assert(has_id(unmarked@, 1));
            assert(nfa.live(nfa.initial as int));
            assert(seedv[nfa.initial as int]);
            assert(set_nonempty(seedv));
        }
        while unmarked.len() > 0
            invariant
                n == nfa.states@.len(),
                nv == n as int,
                nfa.wf(),
                atb_wf(atb@),
                atb@.len() == old(atb)@.len(),
                records_grow(old(atb)@, atb@),
                records_from_all(old(atb)@, atb@),
                nfa.actions_bounded(atb@.len() as int),
                2 <= states@.len() <= pow2(nv as nat) + 1,
                states@[0] is None,
                forall|i: int| 1 <= i < states@.len() ==> slot_live(states@, i),
                forall|i: int|
                    slot_live(states@, i) ==> (#[trigger] states@[i])->Some_0.nfa_states@.len()
                        == nv,
                forall|i: int, j: int|
                    1 <= i < j < states@.len() ==> (#[trigger] states@[i])->Some_0.nfa_states@ != (
                    #[trigger] states@[j])->Some_0.nfa_states@,
                forall|i: int|
                    slot_live(states@, i) ==> (#[trigger] states@[i])->Some_0.trans@.len() == 256,
                forall|i: int, c: int|
                    slot_live(states@, i) && 0 <= c < 256 ==> ((
                    #[trigger] states@[i]->Some_0.trans@[c]) == 0 || (1
                        <= states@[i]->Some_0.trans@[c] < states@.len())),
                forall|k: int|
                    0 <= k < finals@.len() ==> 1 <= (#[trigger] finals@[k]) < states@.len()
                        && states@[finals@[k] as int]->Some_0.action is Some,
                forall|k1: int, k2: int|
                    0 <= k1 < k2 < finals@.len() ==> finals@[k1] < finals@[k2],
                forall|i: int|
                    slot_live(states@, i) && (#[trigger] states@[i])->Some_0.action is Some
                        ==> has_id(finals@, i),
                forall|i: int|
                    slot_live(states@, i) && (#[trigger] states@[i])->Some_0.action is Some ==> 1
                        <= states@[i]->Some_0.action->Some_0 <= atb@.len(),
                forall|k: int|
                    0 <= k < finals@.len() ==> (#[trigger] finals@[k] as int) < states@.len(),
                forall|k: int|
                    0 <= k < unmarked@.len() ==> 1 <= (#[trigger] unmarked@[k]) < states@.len(),
                forall|k1: int, k2: int|
                    0 <= k1 < k2 < unmarked@.len() ==> unmarked@[k1] != unmarked@[k2],
                forall|i: int|
                    1 <= i < states@.len() && !has_id(unmarked@, i) ==> #[trigger] rows_exact(
                        *nfa,
                        states@,
                        i,
                    ),
                states@[1] is Some,
                states@[1]->Some_0.nfa_states@ == seedv,
                forall|i: int|
                    slot_live(states@, i) ==> set_nonempty(
                        (#[trigger] states@[i])->Some_0.nfa_states@,
                    ),
                forall|i: int|
                    slot_live(states@, i) && (#[trigger] states@[i])->Some_0.action is Some
                        ==> exists|j: int|
                        0 <= j < nv && states@[i]->Some_0.nfa_states@[j] && nfa.live(j)
                            && nfa.state_of(j).action == Some(states@[i]->Some_0.action->Some_0),
                forall|i: int, j: int|
                    slot_live(states@, i) && (#[trigger] states@[i])->Some_0.action is None && 0
                        <= j < nv && (#[trigger] states@[i]->Some_0.nfa_states@[j]) && nfa.live(j)
                        ==> nfa.state_of(j).action is None,
            decreases pow2(nv as nat) + 1 - states@.len(), unmarked@.len(),
        {
            let ghost states_top = states@;
            let ghost unmarked_top = unmarked@;
            let next_id = unmarked.pop().unwrap();
            proof {
                assert(!has_id(unmarked@, next_id as int)) by {
                    if has_id(unmarked@, next_id as int) {
                        let k0 = choose|k0: int|
                            0 <= k0 < unmarked@.len() && unmarked@[k0] == next_id as int;
                        assert(unmarked_top[k0] == next_id);
                        assert(unmarked_top[unmarked_top.len() - 1] == next_id);
                    }
                }
                assert forall|i: int|
                    1 <= i < states@.len() && !has_id(unmarked@, i) && i != next_id
                        implies #[trigger] rows_exact(*nfa, states@, i) by {
                    assert(!has_id(unmarked_top, i)) by {
                        if has_id(unmarked_top, i) {
                            let k0 = choose|k0: int|
                                0 <= k0 < unmarked_top.len() && unmarked_top[k0] == i;
                            assert(k0 < unmarked_top.len() - 1);
                            assert(unmarked@[k0] == i);
                        }
                    }
                }
            }
            let ghost curset = states@[next_id as int]->Some_0.nfa_states@;
            let mut row: Vec<usize> = zeros256();
            let mut c: usize = 0;
            while c < 256
                invariant
                    c <= 256,
                    n == nfa.states@.len(),
                    nv == n as int,
                    nfa.wf(),
                    atb_wf(atb@),
                    atb@.len() == old(atb)@.len(),
                    records_grow(old(atb)@, atb@),
                    records_from_all(old(atb)@, atb@),
                    nfa.actions_bounded(atb@.len() as int),
                    2 <= states@.len() <= pow2(nv as nat) + 1,
                    states@[0] is None,
                    1 <= next_id < states@.len(),
                    forall|i: int| 1 <= i < states@.len() ==> slot_live(states@, i),
                    forall|i: int|
                        slot_live(states@, i) ==> (#[trigger] states@[i])->Some_0.nfa_states@.len()
                            == nv,
                    forall|i: int, j: int|
                        1 <= i < j < states@.len() ==> (#[trigger] states@[i])->Some_0.nfa_states@
                            != (#[trigger] states@[j])->Some_0.nfa_states@,
                    forall|i: int|
                        slot_live(states@, i) ==> (#[trigger] states@[i])->Some_0.trans@.len()
                            == 256,
                    forall|i: int, c2: int|
                        slot_live(states@, i) && 0 <= c2 < 256 ==> ((
                        #[trigger] states@[i]->Some_0.trans@[c2]) == 0 || (1
                            <= states@[i]->Some_0.trans@[c2] < states@.len())),
                    forall|k: int|
                        0 <= k < finals@.len() ==> 1 <= (#[trigger] finals@[k]) < states@.len()
                            && states@[finals@[k] as int]->Some_0.action is Some,
                    forall|k1: int, k2: int|
                        0 <= k1 < k2 < finals@.len() ==> finals@[k1] < finals@[k2],
                    forall|i: int|
                        slot_live(states@, i) && (#[trigger] states@[i])->Some_0.action is Some
                            ==> has_id(finals@, i),
                    forall|i: int|
                        slot_live(states@, i) && (#[trigger] states@[i])->Some_0.action is Some
                            ==> 1 <= states@[i]->Some_0.action->Some_0 <= atb@.len(),
                    forall|k: int|
                        0 <= k < unmarked@.len() ==> 1 <= (#[trigger] unmarked@[k])
                            < states@.len(),
                    states@[1] is Some,
                    states@[1]->Some_0.nfa_states@ == seedv,
                    forall|i: int|
                        slot_live(states@, i) ==> set_nonempty(
                            (#[trigger] states@[i])->Some_0.nfa_states@,
                        ),
                    forall|i: int|
                        slot_live(states@, i) && (#[trigger] states@[i])->Some_0.action is Some
                            ==> exists|j: int|
                            0 <= j < nv && states@[i]->Some_0.nfa_states@[j] && nfa.live(j)
                                && nfa.state_of(j).action == Some(
                                states@[i]->Some_0.action->Some_0,
                            ),
                    forall|i: int, j: int|
                        slot_live(states@, i) && (#[trigger] states@[i])->Some_0.action is None
                            && 0 <= j < nv && (#[trigger] states@[i]->Some_0.nfa_states@[j])
                            && nfa.live(j) ==> nfa.state_of(j).action is None,
                    row@.len() == 256,
                    forall|c2: int|
                        0 <= c2 < 256 ==> ((#[trigger] row@[c2]) == 0 || (1 <= row@[c2]
                            < states@.len())),
                    states@.len() >= states_top.len(),
                    unmarked@.len() + states_top.len() + 1 == unmarked_top.len() + states@.len(),
                    next_id < states_top.len(),
                    curset == states@[next_id as int]->Some_0.nfa_states@,
                    curset.len() == nv,
                    !has_id(unmarked@, next_id as int),
                    forall|k1: int, k2: int|
                        0 <= k1 < k2 < unmarked@.len() ==> unmarked@[k1] != unmarked@[k2],
                    forall|i: int| states_top.len() <= i < states@.len() ==> has_id(unmarked@, i),
                    forall|i: int|
                        1 <= i < states@.len() && !has_id(unmarked@, i) && i != next_id
                            ==> #[trigger] rows_exact(*nfa, states@, i),
                    forall|c2: int|
                        0 <= c2 < c ==> #[trigger] row_entry_exact(
                            *nfa,
                            states@,
                            curset,
                            row@[c2] as int,
                            c2,
                        ),
                    forall|c2: int| c <= c2 < 256 ==> (#[trigger] row@[c2]) == 0,
                decreases 256 - c,
            {
                let mut moved = empty_bitmap(n);
                let mut any = false;
                proof {
                    assert(slot_live(states@, next_id as int));
                    assert(states@[next_id as int]->Some_0.nfa_states@.len() == nv);
                }
                let cur = states[next_id].as_ref().unwrap();
                let mut k: usize = 0;
                while k < n
                    invariant
                        k <= n,
                        n == nfa.states@.len(),
                        nv == n as int,
                        c < 256,
                        nfa.wf(),
                        moved@.len() == n,
                        cur == &states@[next_id as int]->Some_0,
                        1 <= next_id < states@.len(),
                        states@[next_id as int] is Some,
                        cur.nfa_states@.len() == n,
                        curset == cur.nfa_states@,
                        forall|j: int|
                            0 <= j < nv ==> ((#[trigger] moved@[j]) <==> moved_upto(
                                *nfa,
                                curset,
                                c as u8,
                                k as int,
                                j,
                            )),
                        any == (exists|j: int| 0 <= j < nv && moved@[j]),
                    decreases n - k,
                {
                    let in_set = cur.nfa_states[k];
                    if in_set {
                        match &nfa.states[k] {
                            Some(nst) => {
                                let ne = nst.trans.len();
                                let mut e: usize = 0;
                                while e < ne
                                    invariant
                                        e <= ne,
                                        n == nfa.states@.len(),
                                        nv == n as int,
                                        c < 256,
                                        nfa.wf(),
                                        moved@.len() == n,
                                        k < n,
                                        nfa.states@[k as int] is Some,
                                        nst == &nfa.state_of(k as int),
                                        ne == nst.trans@.len(),
                                        curset.len() == nv,
                                        curset[k as int],
                                        forall|j: int|
                                            0 <= j < nv ==> ((#[trigger] moved@[j]) <==> (
                                            moved_upto(*nfa, curset, c as u8, k as int, j)
                                                || edge_upto(
                                                *nfa,
                                                k as int,
                                                c as u8,
                                                e as int,
                                                j,
                                            ))),
                                        any == (exists|j: int| 0 <= j < nv && moved@[j]),
                                    decreases ne - e,
                                {
                                    let (b, t) = nst.trans[e];
                                    let ghost moved0 = moved@;
                                    if b == (c as u8) {
                                        proof {
                                            assert(nfa.state_of(k as int).trans@.contains((b, t)));
                                            assert(nfa.byte_edge(k as int, b, t as int));
                                            assert(nfa.live(t as int));
                                        }
                                        if !moved[t] {
                                            moved[t] = true;
                                            any = true;
                                            proof {
                                                assert(moved@[t as int]);
                                            }
                                        }
                                    }
                                    proof {
                                        assert(nst.trans@[e as int] == (b, t));
                                        assert forall|j: int|
                                            0 <= j < nv implies ((#[trigger] moved@[j]) <==> (
                                            moved_upto(*nfa, curset, c as u8, k as int, j)
                                                || edge_upto(
                                                *nfa,
                                                k as int,
                                                c as u8,
                                                e as int + 1,
                                                j,
                                            ))) by {
                                            lemma_edge_upto_step(*nfa, k as int, c as u8, e as int, j);
                                            if j != t as int || b != (c as u8) {
                                                assert(moved@[j] == moved0[j]);
                                            }
                                        }
                                    }
                                    e += 1;
                                }
                                proof {
                                    assert forall|j: int|
                                        0 <= j < nv implies ((#[trigger] moved@[j])
                                        <==> moved_upto(
                                        *nfa,
                                        curset,
                                        c as u8,
                                        k as int + 1,
                                        j,
                                    )) by {
                                        lemma_moved_upto_step(*nfa, curset, c as u8, k as int, j);
                                        lemma_edge_upto_full(*nfa, k as int, c as u8, j);
                                        assert(nfa.state_of(k as int).trans@.len() == ne);
                                    }
                                }
                            },
                            None => {
                                proof {
                                    assert forall|j: int|
                                        0 <= j < nv implies ((#[trigger] moved@[j])
                                        <==> moved_upto(
                                        *nfa,
                                        curset,
                                        c as u8,
                                        k as int + 1,
                                        j,
                                    )) by {
                                        lemma_moved_upto_step(*nfa, curset, c as u8, k as int, j);
                                        assert(!nfa.live(k as int));
                                    }
                                }
                            },
                        }
                    } else {
                        proof {
                            assert forall|j: int|
                                0 <= j < nv implies ((#[trigger] moved@[j]) <==> moved_upto(
                                *nfa,
                                curset,
                                c as u8,
                                k as int + 1,
                                j,
                            )) by {
                                lemma_moved_upto_step(*nfa, curset, c as u8, k as int, j);
                                assert(!curset[k as int]);
                            }
                        }
                    }
                    k += 1;
                }
                if any {
                    let tr = nfa.eclosure(&moved);
                    let ghost atb_pre = atb@;
                    proof {
                        assert(move_closure(*nfa, curset, c as u8, tr@)) by {
                            assert forall|j: int|
                                #[trigger] moved_to(*nfa, curset, c as u8, j) implies 0 <= j
                                < tr@.len() && tr@[j] by {
                                let s = choose|s: int|
                                    0 <= s < curset.len() && curset[s] && #[trigger] nfa.byte_edge(
                                        s,
                                        c as u8,
                                        j,
                                    );
                                assert(nfa.live(j));
                                assert(moved@[j]);
                            }
                            assert forall|cc: Set<int>|
                                move_covered(*nfa, curset, c as u8, cc)
                                    && #[trigger] nfa.eps_closed_set(cc) implies covers(
                                cc,
                                tr@,
                            ) by {
                                assert(covers(cc, moved@)) by {
                                    assert forall|j: int|
                                        0 <= j < moved@.len() && moved@[j] implies cc.contains(
                                        j,
                                    ) by {
                                        assert(moved_to(*nfa, curset, c as u8, j));
                                    }
                                }
                            }
                        }
                    }
                    let act = scan_set_action(nfa, &tr, atb);
                    proof {
                        lemma_records_grow_trans(old(atb)@, atb_pre, atb@);
                        lemma_records_from_all_trans(old(atb)@, atb_pre, atb@);
                    }
                    let found = find_state_with_set(&states, &tr);
                    let id: usize = if found != 0 {
                        found
                    } else {
                        let ghost states_pre = states@;
                        states.push(Some(State { nfa_states: tr, trans: zeros256(), action: act }));
                        let nid = states.len() - 1;
                        let ghost finals_pre = finals@;
                        if act.is_some() {
                            finals.push(nid);
                        }
                        let ghost unmarked_pre = unmarked@;
                        unmarked.push(nid);
                        proof {
                            lemma_state_count_bound(states@, nv as nat);
                            assert forall|i: int|
                                slot_live(states@, i) && (#[trigger] states@[i])->Some_0.action is Some
                                    implies has_id(finals@, i) by {
                                if i < nid as int {
                                    assert(states@[i] == states_pre[i]);
                                    crate::nfa::lemma_has_id_push(finals_pre, nid, i);
                                } else {
                                    assert(finals@[finals@.len() - 1] == nid);
                                }
                            }
                            assert(unmarked@[unmarked@.len() - 1] == nid);
                            assert forall|i: int|
                                states_top.len() <= i < states@.len() implies has_id(
                                unmarked@,
                                i,
                            ) by {
                                if i < nid as int {
                                    assert(has_id(unmarked_pre, i));
                                    crate::nfa::lemma_has_id_push(unmarked_pre, nid, i);
                                }
                            }
                            assert(!has_id(unmarked@, next_id as int)) by {
                                if has_id(unmarked@, next_id as int) {
                                    let k0 = choose|k0: int|
                                        0 <= k0 < unmarked@.len() && unmarked@[k0]
                                            == next_id as int;
                                    assert(k0 < unmarked@.len() - 1);
                                    assert(unmarked_pre[k0] == next_id);
                                    assert(has_id(unmarked_pre, next_id as int));
                                }
                            }
                            assert forall|i: int|
                                1 <= i < states@.len() && !has_id(unmarked@, i) && i != next_id
                                    implies #[trigger] rows_exact(*nfa, states@, i) by {
                                assert(!has_id(unmarked_pre, i)) by {
                                    if has_id(unmarked_pre, i) {
                                        let k0 = choose|k0: int|
                                            0 <= k0 < unmarked_pre.len() && unmarked_pre[k0] == i;
                                        assert(unmarked@[k0] == i);
                                    }
                                }
                                assert(i < nid as int);
                                assert(states@[i] == states_pre[i]);
                                assert(slot_live(states_pre, i));
                                assert(states_pre[i] is Some);
                                assert(rows_exact(*nfa, states_pre, i));
                                lemma_rows_exact_stable(*nfa, states_pre, states@, i);
                            }
                            assert forall|c2: int|
                                0 <= c2 < c implies #[trigger] row_entry_exact(
                                *nfa,
                                states@,
                                curset,
                                row@[c2] as int,
                                c2,
                            ) by {
                                lemma_row_entry_stable(
                                    *nfa,
                                    states_pre,
                                    states@,
                                    curset,
                                    row@[c2] as int,
                                    c2,
                                );
                            }
                            assert(row_entry_exact(*nfa, states@, curset, nid as int, c as int));
                            let jw = choose|jw: int| 0 <= jw < nv && moved@[jw];
                            assert(states@[nid as int]->Some_0.nfa_states@[jw]);
                            assert(set_nonempty(states@[nid as int]->Some_0.nfa_states@));
                            assert forall|i: int|
                                slot_live(states@, i) implies set_nonempty(
                                (#[trigger] states@[i])->Some_0.nfa_states@,
                            ) by {
                                if i < nid as int {
                                    assert(states@[i] == states_pre[i]);
                                }
                            }
                        }
                        nid
                    };
                    proof {
                        if found != 0 {
                            assert(row_entry_exact(
                                *nfa,
                                states@,
                                curset,
                                found as int,
                                c as int,
                            ));
                        }
                    }
                    row[c] = id;
                    proof {
                        assert(row@[c as int] == id);
                        assert(row_entry_exact(*nfa, states@, curset, id as int, c as int));
                    }
                } else {
                    proof {
                        assert(row_entry_exact(*nfa, states@, curset, 0, c as int)) by {
                            assert forall|j: int|
                                !(#[trigger] moved_to(*nfa, curset, c as u8, j)) by {
                                if moved_to(*nfa, curset, c as u8, j) {
                                    let s = choose|s: int|
                                        0 <= s < curset.len() && curset[s]
                                            && #[trigger] nfa.byte_edge(s, c as u8, j);
                                    assert(nfa.live(j));
                                    assert(moved@[j]);
                                }
                            }
                        }
                        assert(row@[c as int] == 0);
                    }
                }
                c += 1;
            }
            proof {
                assert(slot_live(states@, next_id as int));
            }
            let ghost states_bt = states@;
            let ghost rowv = row@;
            let mut st = dfa_take_state(&mut states, next_id);
            st.trans = row;
            states[next_id] = Some(st);
            proof {
                assert forall|i: int, j: int|
                    1 <= i < j < states@.len() implies (#[trigger] states@[i])->Some_0.nfa_states@
                    != (#[trigger] states@[j])->Some_0.nfa_states@ by {}
                assert(states@[next_id as int]->Some_0.nfa_states@ == curset);
                assert(states@[next_id as int]->Some_0.trans@ == rowv);
                assert forall|m: int|
                    0 <= m < states_bt.len() && states_bt[m] is Some implies (
                #[trigger] states@[m]) is Some && states@[m]->Some_0.nfa_states@
                    == states_bt[m]->Some_0.nfa_states@ by {}
                assert forall|c2: int|
                    0 <= c2 < 256 implies #[trigger] row_exact(*nfa, states@, next_id as int, c2) by {
                    assert(row_entry_exact(*nfa, states_bt, curset, rowv[c2] as int, c2));
                    lemma_row_entry_stable(*nfa, states_bt, states@, curset, rowv[c2] as int, c2);
                }
                assert(rows_exact(*nfa, states@, next_id as int));
                assert forall|i: int|
                    1 <= i < states@.len() && !has_id(unmarked@, i) && i != next_id
                        implies #[trigger] rows_exact(*nfa, states@, i) by {
                    assert(states@[i] == states_bt[i]);
                    assert(slot_live(states_bt, i));
                    assert(states_bt[i] is Some);
                    assert(rows_exact(*nfa, states_bt, i));
                    lemma_rows_exact_stable(*nfa, states_bt, states@, i);
                }
            }
        }
        let d = DFA { states, finals, initial: 1 };
        proof {
            assert(d.live(1));
            assert forall|i: int, j: int|
                d.live(i) && d.live(j) && i != j implies (#[trigger] d.state_of(i)).nfa_states@
                != (#[trigger] d.state_of(j)).nfa_states@ by {
                if i < j {
                    assert((d.states@[i])->Some_0.nfa_states@ != (d.states@[j])->Some_0.nfa_states@);
                } else {
                    assert((d.states@[j])->Some_0.nfa_states@ != (d.states@[i])->Some_0.nfa_states@);
                }
            }
            assert forall|i: int, c: int|
                d.live(i) && 0 <= c < 256 implies ((#[trigger] d.state_of(i).trans@[c]) as int == 0
                || d.live(d.state_of(i).trans@[c] as int)) by {
                assert(slot_live(d.states@, i));
                let t = d.states@[i]->Some_0.trans@[c];
                if t != 0 {
                    assert(1 <= t < d.states@.len());
                    assert(slot_live(d.states@, t as int));
                }
            }
            assert forall|k: int| 0 <= k < d.finals@.len() implies d.live(
                #[trigger] d.finals@[k] as int,
            ) && d.state_of(d.finals@[k] as int).action is Some by {
                assert(slot_live(d.states@, d.finals@[k] as int));
            }
        }
        d
    }
}

/// The structural contract of subset construction, as `new_from_nfa`
/// establishes it: the automaton starts at state 1, whose subsumed set
/// is the epsilon closure of the NFA's entry state, and every transition
/// entry is exact.
pub open spec fn subset_shape(nfa: NFA, d: DFA) -> bool {
    &&& d.initial == 1
    &&& d.live(1)
    &&& forall|i: int|
        d.live(i) ==> (#[trigger] d.state_of(i)).nfa_states@.len() == nfa.states@.len()
    &&& ({
        let seed = d.state_of(1).nfa_states@;
        &&& seed[nfa.initial as int]
        &&& forall|i: int, j: int|
            0 <= i < seed.len() && seed[i] && nfa.eps_edge(i, j) ==> seed[j]
        &&& forall|cc: Set<int>|
            cc.contains(nfa.initial as int) && #[trigger] nfa.eps_closed_set(cc) ==> covers(
                cc,
                seed,
            )
    })
    &&& forall|i: int| d.live(i) ==> #[trigger] rows_exact(nfa, d.states@, i)
    &&& forall|i: int| d.live(i) ==> set_nonempty((#[trigger] d.state_of(i)).nfa_states@)
}

/// The epsilon closure of a byte move is unique: two bitmaps that both
/// satisfy its characterization are equal.
pub proof fn lemma_move_closure_unique(nfa: NFA, set: Seq<bool>, c: u8, t1: Seq<bool>, t2: Seq<bool>)
    requires
        nfa.wf(),
        move_closure(nfa, set, c, t1),
        move_closure(nfa, set, c, t2),
    ensures
        t1 == t2,
{
    lemma_closure_half(nfa, set, c, t1, t2);
    lemma_closure_half(nfa, set, c, t2, t1);
    assert forall|j: int| 0 <= j < t1.len() implies t1[j] == t2[j] by {}
    assert(t1 =~= t2);
}

/// One inclusion of the closure-uniqueness argument: a least set
/// satisfying the closure characterization is below any other set
/// satisfying it.
proof fn lemma_closure_half(nfa: NFA, set: Seq<bool>, c: u8, t1: Seq<bool>, t2: Seq<bool>)
    requires
        nfa.wf(),
        move_closure(nfa, set, c, t1),
        move_closure(nfa, set, c, t2),
    ensures
        forall|j: int| 0 <= j < t1.len() && t1[j] ==> t2[j],
{
    let cc = Set::new(|j: int| 0 <= j < t2.len() && t2[j]);
    assert(move_covered(nfa, set, c, cc)) by {
        assert forall|j: int| #[trigger] moved_to(nfa, set, c, j) implies cc.contains(j) by {
            assert(t2[j]);
        }
    }
    assert(nfa.eps_closed_set(cc)) by {
        assert forall|i: int, j: int|
            cc.contains(i) && #[trigger] nfa.eps_edge(i, j) implies cc.contains(j) by {
            assert(nfa.live(j));
            assert(t2[j]);
        }
    }
    assert(covers(cc, t1));
}

/// The seed set of subset construction is unique as well.
proof fn lemma_seed_unique(nfa: NFA, s1: Seq<bool>, s2: Seq<bool>)
    requires
        nfa.wf(),
        s1.len() == nfa.states@.len(),
        s2.len() == nfa.states@.len(),
        s1[nfa.initial as int],
        s2[nfa.initial as int],
        forall|i: int, j: int| 0 <= i < s1.len() && s1[i] && nfa.eps_edge(i, j) ==> s1[j],
        forall|i: int, j: int| 0 <= i < s2.len() && s2[i] && nfa.eps_edge(i, j) ==> s2[j],
        forall|cc: Set<int>|
            cc.contains(nfa.initial as int) && #[trigger] nfa.eps_closed_set(cc) ==> covers(
                cc,
                s1,
            ),
        forall|cc: Set<int>|
            cc.contains(nfa.initial as int) && #[trigger] nfa.eps_closed_set(cc) ==> covers(
                cc,
                s2,
            ),
    ensures
        s1 == s2,
{
    lemma_seed_half(nfa, s1, s2);
    lemma_seed_half(nfa, s2, s1);
    assert forall|j: int| 0 <= j < s1.len() implies s1[j] == s2[j] by {}
    assert(s1 =~= s2);
}

proof fn lemma_seed_half(nfa: NFA, s1: Seq<bool>, s2: Seq<bool>)
    requires
        nfa.wf(),
        s1.len() == nfa.states@.len(),
        s2.len() == nfa.states@.len(),
        s2[nfa.initial as int],
        forall|i: int, j: int| 0 <= i < s2.len() && s2[i] && nfa.eps_edge(i, j) ==> s2[j],
        forall|cc: Set<int>|
            cc.contains(nfa.initial as int) && #[trigger] nfa.eps_closed_set(cc) ==> covers(
                cc,
                s1,
            ),
    ensures
        forall|j: int| 0 <= j < s1.len() && s1[j] ==> s2[j],
{
    let cc = Set::new(|j: int| 0 <= j < s2.len() && s2[j]);
    assert(cc.contains(nfa.initial as int)) by {
        assert(nfa.live(nfa.initial as int));
    }
    assert(nfa.eps_closed_set(cc)) by {
        assert forall|i: int, j: int|
            cc.contains(i) && #[trigger] nfa.eps_edge(i, j) implies cc.contains(j) by {
            assert(nfa.live(j));
            assert(s2[j]);
        }
    }
    assert(covers(cc, s1));
}

/// Subset construction is canonical up to state numbering: any two
/// automata satisfying its structural contract for one NFA reach, on
/// every byte string, either both the dead state or two states that
/// subsume exactly the same NFA state set.
pub proof fn lemma_subset_runs_agree(nfa: NFA, d1: DFA, d2: DFA, q1: int, q2: int, s: Seq<u8>)
    requires
        nfa.wf(),
        d1.wf(),
        d2.wf(),
        subset_shape(nfa, d1),
        subset_shape(nfa, d2),
        d1.live(q1),
        d2.live(q2),
        d1.state_of(q1).nfa_states@ == d2.state_of(q2).nfa_states@,
    ensures
        ({
            let r1 = d1.run_from(q1, s);
            let r2 = d2.run_from(q2, s);
            &&& (r1 == 0 <==> r2 == 0)
            &&& (r1 != 0 ==> d1.live(r1) && d2.live(r2) && d1.state_of(r1).nfa_states@
                == d2.state_of(r2).nfa_states@)
        }),
    decreases s.len(),
{
    assert(!d1.live(0));
    assert(!d2.live(0));
    if s.len() > 0 {
        let c = s[0];
        let rest = s.subrange(1, s.len() as int);
        let t1 = d1.state_of(q1).trans@[c as int] as int;
        let t2 = d2.state_of(q2).trans@[c as int] as int;
        let set = d1.state_of(q1).nfa_states@;
        assert(rows_exact(nfa, d1.states@, q1));
        assert(rows_exact(nfa, d2.states@, q2));
        assert(row_exact(nfa, d1.states@, q1, c as int));
        assert(row_exact(nfa, d2.states@, q2, c as int));
        if t1 == 0 {
            assert(t2 == 0) by {
                if t2 != 0 {
                    lemma_no_transition_agrees(nfa, d2, q2, c, set);
                }
            }
            lemma_run_dead(d1, rest);
            lemma_run_dead(d2, rest);
        } else {
            assert(t2 != 0) by {
                if t2 == 0 {
                    lemma_no_transition_agrees(nfa, d1, q1, c, set);
                }
            }
            let tset1 = d1.states@[t1]->Some_0.nfa_states@;
            let tset2 = d2.states@[t2]->Some_0.nfa_states@;
            assert(move_closure(nfa, set, c, tset1));
            assert(move_closure(nfa, set, c, tset2));
            lemma_move_closure_unique(nfa, set, c, tset1, tset2);
            assert(d1.step(q1, c) == t1);
            assert(d2.step(q2, c) == t2);
            assert(d1.live(t1));
            assert(d2.live(t2));
            lemma_subset_runs_agree(nfa, d1, d2, t1, t2, rest);
        }
    }
}

/// Determinism of subset construction up to state renumbering: two
/// automata that both satisfy the determinizer's structural contract for
/// one NFA reach, on every byte string, either both the dead state or
/// two states subsuming exactly the same NFA state set.
pub proof fn lemma_determinize_canonical(nfa: NFA, d1: DFA, d2: DFA, s: Seq<u8>)
    requires
        nfa.wf(),
        d1.wf(),
        d2.wf(),
        subset_shape(nfa, d1),
        subset_shape(nfa, d2),
    ensures
        ({
            let r1 = d1.run_from(d1.initial as int, s);
            let r2 = d2.run_from(d2.initial as int, s);
            &&& (r1 == 0 <==> r2 == 0)
            &&& (r1 != 0 ==> d1.live(r1) && d2.live(r2) && d1.state_of(r1).nfa_states@
                == d2.state_of(r2).nfa_states@)
        }),
{
    lemma_seed_unique(nfa, d1.state_of(1).nfa_states@, d2.state_of(1).nfa_states@);
    lemma_subset_runs_agree(nfa, d1, d2, 1, 1, s);
}

/// A state records no transition for a byte on which the set `set` has
/// no successor: a recorded target would subsume the closure of an empty
/// move, hence the empty set, which no live state subsumes.
proof fn lemma_no_transition_agrees(nfa: NFA, d: DFA, q: int, c: u8, set: Seq<bool>)
    requires
        nfa.wf(),
        d.wf(),
        subset_shape(nfa, d),
        d.live(q),
        d.state_of(q).nfa_states@ == set,
        forall|j: int| !(#[trigger] moved_to(nfa, set, c, j)),
    ensures
        (d.state_of(q).trans@[c as int] as int) == 0,
{
    let t = d.state_of(q).trans@[c as int] as int;
    if t != 0 {
        assert(rows_exact(nfa, d.states@, q));
        assert(row_exact(nfa, d.states@, q, c as int));
        let tset = d.states@[t]->Some_0.nfa_states@;
        assert(move_closure(nfa, set, c, tset));
        assert(move_covered(nfa, set, c, Set::<int>::empty()));
        assert(nfa.eps_closed_set(Set::<int>::empty()));
        assert(covers(Set::<int>::empty(), tset));
        assert(slot_live(d.states@, t));
        assert(d.live(t));
        let j0 = choose|j0: int|
            0 <= j0 < d.state_of(t).nfa_states@.len() && d.state_of(t).nfa_states@[j0];
        assert(tset[j0]);
        assert(Set::<int>::empty().contains(j0));
    }
}

/// The bitmap `s` is closed under the source automaton's epsilon edges.
pub open spec fn bitmap_closed(nfa: NFA, s: Seq<bool>) -> bool {
    forall|i: int, j: int| 0 <= i < s.len() && s[i] && #[trigger] nfa.eps_edge(i, j) ==> s[j]
}

/// Subset construction simulates the source automaton: a path of the NFA
/// that starts inside a deterministic state's subsumed set drives the
/// deterministic run to a live state whose set contains the path's end.
proof fn lemma_dfa_simulates(nfa: NFA, d: DFA, q: int, p: Seq<int>, w: Seq<u8>)
    requires
        nfa.wf(),
        d.wf(),
        subset_shape(nfa, d),
        d.live(q),
        bitmap_closed(nfa, d.state_of(q).nfa_states@),
        crate::nfa::is_path(nfa.states@, p, w),
        0 <= p[0] < nfa.states@.len(),
        d.state_of(q).nfa_states@[p[0]],
    ensures
        ({
            let qf = d.run_from(q, w);
            &&& d.live(qf)
            &&& 0 <= p.last() < nfa.states@.len()
            &&& d.state_of(qf).nfa_states@[p.last()]
            &&& bitmap_closed(nfa, d.state_of(qf).nfa_states@)
        }),
    decreases p.len(),
{
    let setq = d.state_of(q).nfa_states@;
    assert(setq.len() == nfa.states@.len());
    if p.len() == 1 {
        assert(w.len() == 0);
    } else if crate::nfa::a_eps(nfa.states@, p[0], p[1]) && crate::nfa::is_path(
        nfa.states@,
        p.drop_first(),
        w,
    ) {
        assert(nfa.eps_edge(p[0], p[1]));
        assert(nfa.live(p[1]));
        assert(setq[p[1]]);
        assert(p.drop_first()[0] == p[1]);
        assert(p.drop_first().last() == p.last());
        lemma_dfa_simulates(nfa, d, q, p.drop_first(), w);
    } else {
        let c = w[0];
        assert(w.len() > 0 && crate::nfa::a_byte(nfa.states@, p[0], c, p[1])
            && crate::nfa::is_path(nfa.states@, p.drop_first(), w.drop_first()));
        assert(nfa.byte_edge(p[0], c, p[1]));
        assert(nfa.live(p[1]));
        assert(moved_to(nfa, setq, c, p[1])) by {
            assert(0 <= p[0] < setq.len() && setq[p[0]] && nfa.byte_edge(p[0], c, p[1]));
        }
        assert(rows_exact(nfa, d.states@, q));
        assert(row_exact(nfa, d.states@, q, c as int));
        assert((c as int) as u8 == c);
        assert(moved_to(nfa, d.states@[q]->Some_0.nfa_states@, (c as int) as u8, p[1]));
        let t = d.state_of(q).trans@[c as int] as int;
        assert(t != 0);
        assert(slot_live(d.states@, t));
        let sett = d.states@[t]->Some_0.nfa_states@;
        assert(move_closure(nfa, setq, c, sett));
        assert(sett[p[1]]);
        assert(bitmap_closed(nfa, sett)) by {
            assert forall|i: int, j: int|
                0 <= i < sett.len() && sett[i] && #[trigger] nfa.eps_edge(i, j) implies sett[j] by {}
        }
        assert(d.step(q, c) == t);
        assert(d.live(t));
        assert(w.drop_first() =~= w.subrange(1, w.len() as int));
        assert(p.drop_first()[0] == p[1]);
        assert(p.drop_first().last() == p.last());
        lemma_dfa_simulates(nfa, d, t, p.drop_first(), w.drop_first());
    }
}

/// Completeness of subset construction: a word the source automaton
/// accepts drives the determinized automaton — whose states mark
/// acceptance whenever their set holds a final — into an accepting state.
pub proof fn lemma_determinize_complete(nfa: NFA, d: DFA, w: Seq<u8>)
    requires
        nfa.wf(),
        d.wf(),
        subset_shape(nfa, d),
        forall|i: int, j: int|
            d.live(i) && (#[trigger] d.state_of(i)).action is None && 0 <= j < nfa.states@.len()
                && (#[trigger] d.state_of(i).nfa_states@[j]) && nfa.live(j) ==> nfa.state_of(
                j,
            ).action is None,
        nfa.accepts(w),
    ensures
        d.action_at(d.run_from(d.initial as int, w)) is Some,
{
    let f = choose|f: int|
        crate::nfa::has_id(nfa.finals@, f) && #[trigger] crate::nfa::reaches_in(
            nfa.states@,
            0,
            nfa.states@.len() - 1,
            nfa.initial as int,
            f,
            w,
        );
    let p = choose|p: Seq<int>|
        #[trigger] crate::nfa::is_path(nfa.states@, p, w) && p.len() > 0 && p[0]
            == nfa.initial as int && p.last() == f && (forall|idx: int|
            0 <= idx < p.len() ==> 0 < #[trigger] p[idx] <= nfa.states@.len() - 1);
    let seed = d.state_of(1).nfa_states@;
    assert(bitmap_closed(nfa, seed)) by {
        assert forall|i: int, j: int|
            0 <= i < seed.len() && seed[i] && #[trigger] nfa.eps_edge(i, j) implies seed[j] by {}
    }
    assert(seed[p[0]]);
    lemma_dfa_simulates(nfa, d, 1, p, w);
    let qf = d.run_from(1, w);
    let k0 = choose|k0: int| 0 <= k0 < nfa.finals@.len() && nfa.finals@[k0] == f;
    assert(nfa.live(f) && nfa.state_of(f).action is Some);
    assert(d.state_of(qf).nfa_states@[f]);
    if d.state_of(qf).action is None {
        assert(nfa.state_of(f).action is None);
    }
}

/// A leader-based partition of the automaton's states: `part[i]` is the
/// lowest state id of `i`'s class.  Entries of vacant slots are 0.
pub open spec fn part_wf(d: DFA, part: Seq<usize>) -> bool {
    &&& part.len() == d.states@.len()
    &&& forall|i: int| 0 <= i < part.len() && !d.live(i) ==> part[i] == 0
    &&& forall|i: int| d.live(i) ==> d.live((#[trigger] part[i]) as int)
    &&& forall|i: int| d.live(i) ==> (#[trigger] part[i]) as int <= i
    &&& forall|i: int| d.live(i) ==> part[(#[trigger] part[i]) as int] == part[i]
    &&& forall|i: int| d.live(i) ==> d.action_at((#[trigger] part[i]) as int) == d.action_at(i)
}

/// The signature of state `p` on byte `c` under a partition: the class
/// leader of its byte-`c` successor, 0 when there is none.
pub open spec fn sig_at(d: DFA, part: Seq<usize>, p: int, c: int) -> int {
    let t = d.state_of(p).trans@[c] as int;
    if t == 0 {
        0
    } else {
        part[t] as int
    }
}

/// States `p` and `q` transition into the same classes on every byte.
pub open spec fn sig_eq(d: DFA, part: Seq<usize>, p: int, q: int) -> bool {
    forall|c: int| 0 <= c < 256 ==> sig_at(d, part, p, c) == sig_at(d, part, q, c)
}

/// States `p` and `q` stay together through one refinement round: they
/// are in one class and have the same signature.
pub open spec fn requiv(d: DFA, part: Seq<usize>, p: int, q: int) -> bool {
    part[p] == part[q] && sig_eq(d, part, p, q)
}

/// The partition is stable: the states of each class all have the
/// signature of their leader.
pub open spec fn compatible(d: DFA, part: Seq<usize>) -> bool {
    forall|p: int| d.live(p) ==> sig_eq(d, part, p, (#[trigger] part[p]) as int)
}

/// The minimized automaton keeps exactly the class leaders, with the
/// leader's action, its transitions rewritten to leaders, and the old
/// entry state's leader as the new entry state.
pub open spec fn min_shape(d: DFA, part: Seq<usize>, m: DFA) -> bool {
    &&& m.states@.len() == d.states@.len()
    &&& forall|i: int|
        0 <= i < m.states@.len() ==> ((#[trigger] m.states@[i]) is Some <==> (d.live(i) && part[i]
            == i))
    &&& forall|i: int| m.live(i) ==> (#[trigger] m.state_of(i)).action == d.state_of(i).action
    &&& forall|i: int| m.live(i) ==> (#[trigger] m.state_of(i)).trans@.len() == 256
    &&& forall|i: int, c: int|
        m.live(i) && 0 <= c < 256 ==> (#[trigger] m.state_of(i).trans@[c]) as int == (
        if d.state_of(i).trans@[c] == 0 {
            0int
        } else {
            part[d.state_of(i).trans@[c] as int] as int
        })
    &&& m.initial == part[d.initial as int]
}

/// A vector of `n` zeroes.
fn zero_ids(n: usize) -> (r: Vec<usize>)
    ensures
        r@.len() == n,
        forall|m: int| 0 <= m < n ==> r@[m] == 0,
{
    let mut r: Vec<usize> = Vec::new();
    let mut i: usize = 0;
    while i < n
        invariant
            i <= n,
            r@.len() == i,
            forall|m: int| 0 <= m < i ==> r@[m] == 0,
        decreases n - i,
    {
        r.push(0);
        i += 1;
    }
    r
}

/// Whether two optional action ids are equal.
fn opt_eq(a: Option<usize>, b: Option<usize>) -> (r: bool)
    ensures
        r == (a == b),
{
    match (a, b) {
        (None, None) => true,
        (Some(x), Some(y)) => x == y,
        _ => false,
    }
}

/// Whether states `p` and `q` have the same signature under `part`.
fn sig_eq_exec(d: &DFA, part: &Vec<usize>, p: usize, q: usize) -> (r: bool)
    requires
        d.wf(),
        d.live(p as int),
        d.live(q as int),
        part@.len() == d.states@.len(),
    ensures
        r == sig_eq(*d, part@, p as int, q as int),
{
    let sp = d.states[p].as_ref().unwrap();
    let sq = d.states[q].as_ref().unwrap();
    let mut c: usize = 0;
    while c < 256
        invariant
            c <= 256,
            d.wf(),
            d.live(p as int),
            d.live(q as int),
            part@.len() == d.states@.len(),
            sp == &d.state_of(p as int),
            sq == &d.state_of(q as int),
            sp.trans@.len() == 256,
            sq.trans@.len() == 256,
            forall|c2: int| 0 <= c2 < c ==> sig_at(*d, part@, p as int, c2) == sig_at(
                *d,
                part@,
                q as int,
                c2,
            ),
        decreases 256 - c,
    {
        let tp = sp.trans[c];
        let tq = sq.trans[c];
        proof {
            assert(tp as int == 0 || d.live(tp as int));
            assert(tq as int == 0 || d.live(tq as int));
        }
        let vp: usize = if tp == 0 {
            0
        } else {
            part[tp]
        };
        let vq: usize = if tq == 0 {
            0
        } else {
            part[tq]
        };
        if vp != vq {
            proof {
                assert(sig_at(*d, part@, p as int, c as int) != sig_at(
                    *d,
                    part@,
                    q as int,
                    c as int,
                ));
            }
            return false;
        }
        c += 1;
    }
    true
}

/// The initial partition: states grouped by action, the class leader
/// being the lowest state with that action.  Non-final states all carry
/// no action and so fall into one class; final states with different
/// actions start — and therefore stay — apart.
fn seed_partition(d: &DFA) -> (part: Vec<usize>)
    requires
        d.wf(),
    ensures
        part_wf(*d, part@),
        forall|p: int, q: int|
            #![trigger part@[p], part@[q]]
            d.live(p) && d.live(q) ==> ((part@[p] == part@[q]) <==> d.action_at(p) == d.action_at(
                q,
            )),
        sep_dist(*d, part@),
{
    let n = d.states.len();
    let mut part = zero_ids(n);
    let mut i: usize = 1;
    while i < n
        invariant
            1 <= i <= n,
            n == d.states@.len(),
            d.wf(),
            part@.len() == n,
            forall|p: int| 0 <= p < part@.len() && !(d.live(p) && p < i) ==> part@[p] == 0,
            forall|p: int|
                0 <= p < i && d.live(p) ==> d.live((#[trigger] part@[p]) as int) && part@[p] as int
                    <= p && d.action_at(part@[p] as int) == d.action_at(p),
            forall|p: int, j: int|
                #![trigger part@[p], d.action_at(j)]
                0 <= p < i && d.live(p) && 1 <= j < part@[p] as int && d.live(j) ==> d.action_at(j)
                    != d.action_at(p),
        decreases n - i,
    {
        match &d.states[i] {
            Some(sti) => {
                let mut j: usize = 1;
                let mut found: usize = 0;
                while j < i && found == 0
                    invariant
                        1 <= j <= i,
                        i < n,
                        n == d.states@.len(),
                        d.wf(),
                        d.live(i as int),
                        sti == &d.state_of(i as int),
                        found == 0 ==> forall|m: int|
                            1 <= m < j && d.live(m) ==> d.action_at(m) != d.action_at(i as int),
                        found != 0 ==> 1 <= found < i && d.live(found as int) && d.action_at(
                            found as int,
                        ) == d.action_at(i as int) && (forall|m: int|
                            1 <= m < found && d.live(m) ==> d.action_at(m) != d.action_at(
                                i as int,
                            )),
                    decreases i - j + (if found == 0 {
                        1int
                    } else {
                        0int
                    }),
                {
                    match &d.states[j] {
                        Some(stj) => {
                            if opt_eq(stj.action, sti.action) {
                                found = j;
                            } else {
                                j += 1;
                            }
                        },
                        None => {
                            j += 1;
                        },
                    }
                }
                let lead: usize = if found != 0 {
                    found
                } else {
                    i
                };
                part[i] = lead;
            },
            None => {},
        }
        i += 1;
    }
    proof {
        assert forall|p: int| d.live(p) implies part@[(#[trigger] part@[p]) as int] == part@[p] by {
            let l = part@[p] as int;
            assert(d.live(l) && d.action_at(l) == d.action_at(p));
            assert(part@[l] as int <= l);
            if (part@[l] as int) < l {
                assert(d.live(part@[l] as int));
                assert(d.action_at(part@[l] as int) == d.action_at(l));
                assert(d.action_at(part@[l] as int) != d.action_at(p));
            }
        }
        assert forall|p: int, q: int| #![trigger part@[p], part@[q]]
            d.live(p) && d.live(q) implies ((part@[p] == part@[q]) <==> d.action_at(p)
            == d.action_at(q)) by {
            if part@[p] == part@[q] {
                assert(d.action_at(p) == d.action_at(part@[p] as int));
            }
            if d.action_at(p) == d.action_at(q) {
                if (part@[p] as int) < part@[q] as int {
                    assert(d.live(part@[p] as int));
                    assert(d.action_at(part@[p] as int) == d.action_at(q));
                } else if (part@[q] as int) < part@[p] as int {
                    assert(d.live(part@[q] as int));
                    assert(d.action_at(part@[q] as int) == d.action_at(p));
                }
            }
        }
        assert forall|p: int, q: int|
            #![trigger part@[p], part@[q]]
            d.live(p) && d.live(q) && part@[p] != part@[q] implies distinguishable(*d, p, q) by {
            assert(d.action_at(p) != d.action_at(q));
            assert(d.run_from(p, Seq::empty()) == p);
            assert(d.run_from(q, Seq::empty()) == q);
            assert(distinguishes(*d, p, q, Seq::empty()));
        }
    }
    part
}

/// One refinement round: every state's new leader is the lowest state of
/// its class with the same signature.  Classes only ever split, and a
/// state's leader can only grow.
#[verifier::rlimit(100)]
#[verifier::spinoff_prover]
fn refine(d: &DFA, part: &Vec<usize>) -> (newp: Vec<usize>)
    requires
        d.wf(),
        part_wf(*d, part@),
    ensures
        part_wf(*d, newp@),
        forall|p: int, q: int|
            #![trigger newp@[p], newp@[q]]
            d.live(p) && d.live(q) ==> ((newp@[p] == newp@[q]) <==> requiv(*d, part@, p, q)),
        forall|i: int| d.live(i) ==> part@[i] <= #[trigger] newp@[i],
{
    let n = d.states.len();
    let mut newp = zero_ids(n);
    let mut i: usize = 1;
    while i < n
        invariant
            1 <= i <= n,
            n == d.states@.len(),
            d.wf(),
            part_wf(*d, part@),
            newp@.len() == n,
            forall|p: int| 0 <= p < newp@.len() && !(d.live(p) && p < i) ==> newp@[p] == 0,
            forall|p: int|
                0 <= p < i && d.live(p) ==> 1 <= (#[trigger] newp@[p]) as int <= p && d.live(
                    newp@[p] as int,
                ) && requiv(*d, part@, newp@[p] as int, p),
            forall|p: int, j: int|
                #![trigger newp@[p], requiv(*d, part@, j, p)]
                0 <= p < i && d.live(p) && 1 <= j < newp@[p] as int && d.live(j) ==> !requiv(
                    *d,
                    part@,
                    j,
                    p,
                ),
        decreases n - i,
    {
        let ghost newp0 = newp@;
        match &d.states[i] {
            Some(_) => {
                let mut j: usize = 1;
                let mut found: usize = 0;
                while j < i && found == 0
                    invariant
                        1 <= j <= i,
                        i < n,
                        n == d.states@.len(),
                        d.wf(),
                        part_wf(*d, part@),
                        d.live(i as int),
                        found == 0 ==> forall|m: int|
                            1 <= m < j && d.live(m) ==> !requiv(*d, part@, m, i as int),
                        found != 0 ==> 1 <= found < i && d.live(found as int) && requiv(
                            *d,
                            part@,
                            found as int,
                            i as int,
                        ) && (forall|m: int|
                            1 <= m < found && d.live(m) ==> !requiv(*d, part@, m, i as int)),
                    decreases i - j + (if found == 0 {
                        1int
                    } else {
                        0int
                    }),
                {
                    match &d.states[j] {
                        Some(_) => {
                            if part[j] == part[i] && sig_eq_exec(d, part, j, i) {
                                found = j;
                            } else {
                                j += 1;
                            }
                        },
                        None => {
                            j += 1;
                        },
                    }
                }
                let lead: usize = if found != 0 {
                    found
                } else {
                    i
                };
                proof {
                    assert(requiv(*d, part@, i as int, i as int));
                }
                newp[i] = lead;
            },
            None => {},
        }
        proof {
            assert forall|p: int| #![trigger newp@[p]]
                0 <= p < newp@.len() && !(d.live(p) && p < i + 1) implies newp@[p] == 0 by {
                assert(!(d.live(p) && p < i as int));
                assert(newp@[p] == newp0[p]);
            }
        }
        i += 1;
    }
    proof {
        // a qualifying leader sits in the same old class, so it is at
        // least the old leader
        assert forall|i: int| d.live(i) implies part@[i] <= #[trigger] newp@[i] by {
            let l = newp@[i] as int;
            assert(requiv(*d, part@, l, i));
            assert(part@[l] as int <= l);
        }
        // new leaders lead themselves
        assert forall|i: int| d.live(i) implies newp@[(#[trigger] newp@[i]) as int] == newp@[i] by {
            let l = newp@[i] as int;
            assert(requiv(*d, part@, l, i));
            let l2 = newp@[l] as int;
            assert(requiv(*d, part@, l2, l));
            assert(l2 <= l);
            if l2 < l {
                // l2 would have qualified for i as well, below its leader
                assert(requiv(*d, part@, l2, i)) by {
                    assert forall|c: int| 0 <= c < 256 implies sig_at(*d, part@, l2, c) == sig_at(
                        *d,
                        part@,
                        i,
                        c,
                    ) by {
                        assert(sig_at(*d, part@, l2, c) == sig_at(*d, part@, l, c));
                        assert(sig_at(*d, part@, l, c) == sig_at(*d, part@, i, c));
                    }
                }
            }
        }
        // actions stay uniform inside the refined classes
        assert forall|i: int| d.live(i) implies d.action_at((#[trigger] newp@[i]) as int)
            == d.action_at(i) by {
            let l = newp@[i] as int;
            assert(requiv(*d, part@, l, i));
            assert(d.action_at(part@[l] as int) == d.action_at(l));
            assert(d.action_at(part@[i] as int) == d.action_at(i));
        }
        // two states get one new leader exactly when they are requivalent
        assert forall|p: int, q: int| #![trigger newp@[p], newp@[q]]
            d.live(p) && d.live(q) implies ((newp@[p] == newp@[q]) <==> requiv(*d, part@, p, q)) by {
            if newp@[p] == newp@[q] {
                let l = newp@[p] as int;
                assert(requiv(*d, part@, l, p));
                assert(requiv(*d, part@, l, q));
                assert forall|c: int| 0 <= c < 256 implies sig_at(*d, part@, p, c) == sig_at(
                    *d,
                    part@,
                    q,
                    c,
                ) by {
                    assert(sig_at(*d, part@, l, c) == sig_at(*d, part@, p, c));
                    assert(sig_at(*d, part@, l, c) == sig_at(*d, part@, q, c));
                }
            }
            if requiv(*d, part@, p, q) {
                let lp = newp@[p] as int;
                let lq = newp@[q] as int;
                assert(requiv(*d, part@, lp, p));
                assert(requiv(*d, part@, lq, q));
                if lp < lq {
                    assert(requiv(*d, part@, lp, q)) by {
                        assert forall|c: int| 0 <= c < 256 implies sig_at(*d, part@, lp, c)
                            == sig_at(*d, part@, q, c) by {
                            assert(sig_at(*d, part@, lp, c) == sig_at(*d, part@, p, c));
                            assert(sig_at(*d, part@, p, c) == sig_at(*d, part@, q, c));
                        }
                    }
                } else if lq < lp {
                    assert(requiv(*d, part@, lq, p)) by {
                        assert forall|c: int| 0 <= c < 256 implies sig_at(*d, part@, lq, c)
                            == sig_at(*d, part@, p, c) by {
                            assert(sig_at(*d, part@, lq, c) == sig_at(*d, part@, q, c));
                            assert(sig_at(*d, part@, q, c) == sig_at(*d, part@, p, c));
                        }
                    }
                }
            }
        }
    }
    newp
}

/// The sum of `n - part[i]` over all entries; refinement drives it
/// strictly down, which bounds the number of rounds.
pub open spec fn part_metric(part: Seq<usize>, n: int) -> int
    decreases part.len(),
{
    if part.len() == 0 {
        0
    } else {
        part_metric(part.drop_last(), n) + (n - part.last())
    }
}

pub proof fn lemma_metric_nonneg(a: Seq<usize>, n: int)
    requires
        forall|i: int| 0 <= i < a.len() ==> (#[trigger] a[i]) as int <= n,
    ensures
        part_metric(a, n) >= 0,
    decreases a.len(),
{
    if a.len() > 0 {
        lemma_metric_nonneg(a.drop_last(), n);
    }
}

pub proof fn lemma_metric_mono(a: Seq<usize>, b: Seq<usize>, n: int)
    requires
        a.len() == b.len(),
        forall|i: int| 0 <= i < a.len() ==> (#[trigger] a[i]) <= b[i],
    ensures
        part_metric(b, n) <= part_metric(a, n),
    decreases a.len(),
{
    if a.len() > 0 {
        lemma_metric_mono(a.drop_last(), b.drop_last(), n);
    }
}

pub proof fn lemma_metric_strict(a: Seq<usize>, b: Seq<usize>, n: int, i0: int)
    requires
        a.len() == b.len(),
        forall|i: int| 0 <= i < a.len() ==> (#[trigger] a[i]) <= b[i],
        0 <= i0 < a.len(),
        a[i0] < b[i0],
    ensures
        part_metric(b, n) < part_metric(a, n),
    decreases a.len(),
{
    if i0 == a.len() - 1 {
        lemma_metric_mono(a.drop_last(), b.drop_last(), n);
    } else {
        lemma_metric_strict(a.drop_last(), b.drop_last(), n, i0);
    }
}

/// Dead stays dead: a run started in the dead state never leaves it.
pub proof fn lemma_run_dead(d: DFA, s: Seq<u8>)
    requires
        d.states@.len() >= 1,
        !(d.states@[0] is Some),
    ensures
        d.run_from(0, s) == 0,
    decreases s.len(),
{
    if s.len() > 0 {
        assert(d.step(0, s[0]) == 0);
        lemma_run_dead(d, s.subrange(1, s.len() as int));
    }
}

/// Runs of the original automaton and of the minimized one move in
/// lock-step: from a state and its class leader, every byte string leads
/// either both to the dead state or to a state and its class leader.
pub proof fn lemma_run_leader(d: DFA, part: Seq<usize>, m: DFA, q: int, s: Seq<u8>)
    requires
        d.wf(),
        part_wf(d, part),
        compatible(d, part),
        min_shape(d, part, m),
        d.live(q),
    ensures
        ({
            let qd = d.run_from(q, s);
            let qm = m.run_from(part[q] as int, s);
            &&& (qd == 0 ==> qm == 0)
            &&& (qd != 0 ==> d.live(qd) && qm == part[qd] as int)
        }),
    decreases s.len(),
{
    let l = part[q] as int;
    assert(d.live(l));
    assert(part[l] == part[q]);
    assert(m.states@[l] is Some);
    if s.len() == 0 {
        assert(d.run_from(q, s) == q);
        assert(!d.live(0));
    } else {
        let c = s[0];
        let rest = s.subrange(1, s.len() as int);
        let t = d.state_of(q).trans@[c as int] as int;
        let tl = d.state_of(l).trans@[c as int] as int;
        assert(sig_eq(d, part, q, l));
        assert(sig_at(d, part, q, c as int) == sig_at(d, part, l, c as int));
        assert(m.live(l));
        assert(m.state_of(l).trans@[c as int] as int == (if tl == 0 {
            0int
        } else {
            part[tl] as int
        }));
        if t == 0 {
            assert(tl == 0);
            assert(m.step(l, c) == 0);
            assert(d.step(q, c) == 0);
            lemma_run_dead(d, rest);
            assert(m.states@.len() >= 1 && !(m.states@[0] is Some)) by {
                assert(!(d.live(0) && part[0] == 0) || !(d.states@[0] is Some));
                assert(!d.live(0));
            }
            lemma_run_dead(m, rest);
        } else {
            assert(part[t] as int != 0) by {
                assert(d.live(t));
                assert(d.live(part[t] as int));
                assert(!d.live(0));
            }
            assert(tl != 0);
            assert(part[t] == part[tl]);
            assert(d.live(t));
            assert(m.step(l, c) == part[t] as int);
            assert(d.step(q, c) == t);
            lemma_run_leader(d, part, m, t, rest);
        }
    }
}


/// A refinement round that changes the partition drives the metric
/// strictly down.
#[verifier::rlimit(60)]
#[verifier::spinoff_prover]
pub proof fn lemma_refine_decreases(d: DFA, part: Seq<usize>, newp: Seq<usize>, n: int)
    requires
        d.wf(),
        part_wf(d, part),
        part_wf(d, newp),
        n == d.states@.len(),
        forall|i: int| d.live(i) ==> part[i] <= #[trigger] newp[i],
        newp != part,
    ensures
        0 <= part_metric(newp, n) < part_metric(part, n),
{
    assert(exists|i0: int| 0 <= i0 < part.len() && part[i0] != newp[i0]) by {
        if forall|i0: int| 0 <= i0 < part.len() ==> part[i0] == newp[i0] {
            assert(part =~= newp);
        }
    }
    let i0 = choose|i0: int| 0 <= i0 < part.len() && part[i0] != newp[i0];
    assert forall|i2: int| 0 <= i2 < part.len() implies (#[trigger] part[i2]) <= newp[i2] by {
        if !d.live(i2) {
            assert(part[i2] == 0 && newp[i2] == 0);
        }
    }
    assert(d.live(i0)) by {
        if !d.live(i0) {
            assert(part[i0] == 0 && newp[i0] == 0);
        }
    }
    lemma_metric_strict(part, newp, n, i0);
    assert forall|i2: int| 0 <= i2 < newp.len() implies (#[trigger] newp[i2]) as int <= n by {
        if d.live(i2) {
            assert(newp[i2] as int <= i2);
        }
    }
    lemma_metric_nonneg(newp, n);
}

/// A partition that a refinement round leaves unchanged is stable.
pub proof fn lemma_fixpoint_compatible(d: DFA, part: Seq<usize>, newp: Seq<usize>)
    requires
        d.wf(),
        part_wf(d, part),
        forall|p: int, q: int|
            #![trigger newp[p], newp[q]]
            d.live(p) && d.live(q) ==> ((newp[p] == newp[q]) <==> requiv(d, part, p, q)),
        newp == part,
    ensures
        compatible(d, part),
{
    assert forall|p: int| d.live(p) implies sig_eq(d, part, p, (#[trigger] part[p]) as int) by {
        let l = part[p] as int;
        assert(d.live(l));
        assert(part[l] == part[p]);
        assert(newp[p] == newp[l]);
        assert(requiv(d, part, p, l));
    }
}


/// The byte string `s` tells states `p` and `q` apart: after consuming
/// it, the two runs select different actions, or exactly one of them has
/// died in the reject state.
pub open spec fn distinguishes(d: DFA, p: int, q: int, s: Seq<u8>) -> bool {
    ||| d.action_at(d.run_from(p, s)) != d.action_at(d.run_from(q, s))
    ||| ((d.run_from(p, s) == 0) != (d.run_from(q, s) == 0))
}

/// Some byte string tells states `p` and `q` apart.
pub open spec fn distinguishable(d: DFA, p: int, q: int) -> bool {
    exists|s: Seq<u8>| distinguishes(d, p, q, s)
}

/// States in different classes of the partition are distinguishable.
pub open spec fn sep_dist(d: DFA, part: Seq<usize>) -> bool {
    forall|p: int, q: int|
        #![trigger part[p], part[q]]
        d.live(p) && d.live(q) && part[p] != part[q] ==> distinguishable(d, p, q)
}

/// Consuming one byte then the rest equals one step then a run.
pub proof fn lemma_run_cons(d: DFA, p: int, c: u8, s: Seq<u8>)
    ensures
        d.run_from(p, seq![c] + s) == d.run_from(d.step(p, c), s),
{
    let full = seq![c] + s;
    assert(full.len() == s.len() + 1);
    assert(full[0] == c);
    assert(full.subrange(1, full.len() as int) =~= s);
}

/// Two states of one class with different signatures are told apart by a
/// byte followed by whatever distinguishes their successors' classes.
pub proof fn lemma_split_distinguishable(d: DFA, part: Seq<usize>, p: int, q: int)
    requires
        d.wf(),
        part_wf(d, part),
        sep_dist(d, part),
        d.live(p),
        d.live(q),
        !sig_eq(d, part, p, q),
    ensures
        distinguishable(d, p, q),
{
    let c0 = choose|c0: int| 0 <= c0 < 256 && sig_at(d, part, p, c0) != sig_at(d, part, q, c0);
    let c = c0 as u8;
    assert(c as int == c0);
    let tp = d.state_of(p).trans@[c0] as int;
    let tq = d.state_of(q).trans@[c0] as int;
    assert(d.step(p, c) == tp);
    assert(d.step(q, c) == tq);
    if tp == 0 || tq == 0 {
        // exactly one run dies on this byte
        assert(tp != tq);
        assert(tp == 0 || d.live(tp));
        assert(tq == 0 || d.live(tq));
        assert(!d.live(0));
        let s = seq![c] + Seq::<u8>::empty();
        lemma_run_cons(d, p, c, Seq::empty());
        lemma_run_cons(d, q, c, Seq::empty());
        assert(d.run_from(p, s) == tp && d.run_from(q, s) == tq);
        assert((tp == 0) != (tq == 0));
        assert(distinguishes(d, p, q, s));
    } else {
        // both survive, into classes already known to be distinguishable
        assert(d.live(tp) && d.live(tq));
        assert(part[tp] != part[tq]);
        assert(distinguishable(d, tp, tq));
        let s0 = choose|s0: Seq<u8>| distinguishes(d, tp, tq, s0);
        lemma_run_cons(d, p, c, s0);
        lemma_run_cons(d, q, c, s0);
        assert(distinguishes(d, p, q, seq![c] + s0));
    }
}

impl DFA {
    /// Minimizes the automaton by partition refinement.
    ///
    /// The state classes are seeded by action — so states with different
    /// actions never merge — and refined until no class splits any more;
    /// each class then collapses to its leader state, with transitions
    /// rewritten to leaders.  The result selects the same action as the
    /// original for every byte string; every state of the original
    /// behaves, action-wise on every string, like some state of the
    /// result; and any two distinct states of the result are told apart
    /// by some byte string, so no further merging is possible.
    #[verifier::rlimit(100)]
    #[verifier::spinoff_prover]
    pub fn minimize(&self) -> (m: DFA)
        requires
            self.wf(),
        ensures
            m.wf(),
            m.states@.len() == self.states@.len(),
            forall|s: Seq<u8>| #[trigger] m.selected_action(s) == self.selected_action(s),
            forall|p: int|
                self.live(p) ==> exists|r: int|
                    #![trigger m.live(r)]
                    m.live(r) && (forall|s: Seq<u8>|
                        m.action_at(#[trigger] m.run_from(r, s)) == self.action_at(
                            self.run_from(p, s),
                        )),
            forall|n2: int| #[trigger] self.actions_bounded(n2) ==> m.actions_bounded(n2),
            forall|p: int, q: int|
                #![trigger m.live(p), m.live(q)]
                m.live(p) && m.live(q) && p != q ==> distinguishable(*self, p, q),
            forall|i: int|
                #[trigger] m.live(i) ==> self.live(i) && m.state_of(i).action == self.state_of(
                    i,
                ).action && m.state_of(i).nfa_states@ == self.state_of(i).nfa_states@,
            self.live(m.initial as int),
            crate::trans_table::live_count(m.states@) <= crate::trans_table::live_count(
                self.states@,
            ),
    {
        let n = self.states.len();
        let mut part = seed_partition(self);
        loop
            invariant
                self.wf(),
                n == self.states@.len(),
                part_wf(*self, part@),
                sep_dist(*self, part@),
            ensures
                part_wf(*self, part@),
                compatible(*self, part@),
                sep_dist(*self, part@),
            decreases part_metric(part@, n as int),
        {
            let newp = refine(self, &part);
            if ids_eq(&newp, &part) {
                proof {
                    lemma_fixpoint_compatible(*self, part@, newp@);
                }
                break;
            }
            proof {
                lemma_refine_decreases(*self, part@, newp@, n as int);
                assert forall|p: int, q: int|
                    #![trigger newp@[p], newp@[q]]
                    self.live(p) && self.live(q) && newp@[p] != newp@[q]
                        implies distinguishable(*self, p, q) by {
                    assert(!requiv(*self, part@, p, q));
                    if part@[p] == part@[q] {
                        lemma_split_distinguishable(*self, part@, p, q);
                    }
                }
            }
            part = newp;
        }
        let mut mstates: Vec<Option<State>> = Vec::new();
        let mut mfinals: Vec<usize> = Vec::new();
        let mut i: usize = 0;
        while i < n
            invariant
                i <= n,
                n == self.states@.len(),
                self.wf(),
                part@.len() == n,
                part_wf(*self, part@),
                compatible(*self, part@),
                sep_dist(*self, part@),
                mstates@.len() == i,
                forall|p: int|
                    0 <= p < i ==> ((#[trigger] mstates@[p]) is Some <==> (self.live(p)
                        && part@[p] as int == p)),
                forall|p: int|
                    0 <= p < i && mstates@[p] is Some ==> (#[trigger] mstates@[p])->Some_0.action
                        == self.state_of(p).action,
                forall|p: int|
                    0 <= p < i && mstates@[p] is Some ==> (
                    #[trigger] mstates@[p])->Some_0.nfa_states@ == self.state_of(p).nfa_states@,
                forall|p: int|
                    0 <= p < i && mstates@[p] is Some ==> (
                    #[trigger] mstates@[p])->Some_0.trans@.len() == 256,
                forall|p: int, c: int|
                    0 <= p < i && mstates@[p] is Some && 0 <= c < 256 ==> (
                    #[trigger] mstates@[p]->Some_0.trans@[c]) as int == (if self.state_of(
                        p,
                    ).trans@[c] == 0 {
                        0int
                    } else {
                        part@[self.state_of(p).trans@[c] as int] as int
                    }),
                forall|k: int|
                    0 <= k < mfinals@.len() ==> 0 <= (#[trigger] mfinals@[k]) < i
                        && mstates@[mfinals@[k] as int] is Some
                        && mstates@[mfinals@[k] as int]->Some_0.action is Some,
                forall|k1: int, k2: int|
                    0 <= k1 < k2 < mfinals@.len() ==> mfinals@[k1] < mfinals@[k2],
                forall|p: int|
                    0 <= p < i && (#[trigger] mstates@[p]) is Some
                        && mstates@[p]->Some_0.action is Some ==> has_id(mfinals@, p),
            decreases n - i,
        {
            let mut is_rep = false;
            if i >= 1 {
                match &self.states[i] {
                    Some(_) => {
                        if part[i] == i {
                            is_rep = true;
                        }
                    },
                    None => {},
                }
            }
            if is_rep {
                let old_st = self.states[i].as_ref().unwrap();
                let mut row = zeros256();
                let mut c: usize = 0;
                while c < 256
                    invariant
                        c <= 256,
                        n == self.states@.len(),
                        self.wf(),
                        part@.len() == n,
                        part_wf(*self, part@),
                        i < n,
                        self.live(i as int),
                        old_st == &self.state_of(i as int),
                        old_st.trans@.len() == 256,
                        row@.len() == 256,
                        forall|c2: int|
                            0 <= c2 < c ==> (#[trigger] row@[c2]) as int == (if self.state_of(
                                i as int,
                            ).trans@[c2] == 0 {
                                0int
                            } else {
                                part@[self.state_of(i as int).trans@[c2] as int] as int
                            }),
                        forall|c2: int| c <= c2 < 256 ==> (#[trigger] row@[c2]) == 0,
                    decreases 256 - c,
                {
                    let t = old_st.trans[c];
                    if t != 0 {
                        proof {
                            assert(self.live(t as int));
                        }
                        row[c] = part[t];
                    }
                    c += 1;
                }
                let nset = copy_bools(&old_st.nfa_states);
                let act = old_st.action;
                let ghost mfinals0 = mfinals@;
                mstates.push(Some(State { nfa_states: nset, trans: row, action: act }));
                if act.is_some() {
                    mfinals.push(i);
                }
                proof {
                    assert forall|p: int|
                        0 <= p < i + 1 && (#[trigger] mstates@[p]) is Some
                            && mstates@[p]->Some_0.action is Some implies has_id(mfinals@, p) by {
                        if p < i {
                            assert(has_id(mfinals0, p));
                            if mfinals@.len() > mfinals0.len() {
                                crate::nfa::lemma_has_id_push(mfinals0, i, p);
                            }
                        } else {
                            assert(mfinals@[mfinals@.len() - 1] == i);
                        }
                    }
                }
            } else {
                mstates.push(None);
            }
            i += 1;
        }
        let minit = part[self.initial];
        let m = DFA { states: mstates, finals: mfinals, initial: minit };
        proof {
            assert(min_shape(*self, part@, m));
            assert forall|i2: int| #[trigger] m.live(i2) implies self.live(i2)
                && m.state_of(i2).action == self.state_of(i2).action && m.state_of(
                i2,
            ).nfa_states@ == self.state_of(i2).nfa_states@ by {}
            assert(self.live(minit as int));
            crate::trans_table::lemma_live_count_le(self.states@, m.states@, n as int);
            let l0 = part@[self.initial as int] as int;
            assert(self.live(l0) && part@[l0] as int == l0);
            assert(m.live(l0));
            assert forall|i2: int, c: int|
                m.live(i2) && 0 <= c < 256 implies ((#[trigger] m.state_of(i2).trans@[c]) as int
                == 0 || m.live(m.state_of(i2).trans@[c] as int)) by {
                let t = self.state_of(i2).trans@[c] as int;
                if t != 0 {
                    assert(self.live(t));
                    let lt = part@[t] as int;
                    assert(self.live(lt) && part@[lt] as int == lt);
                    assert(m.live(lt));
                    assert(!self.live(0));
                    assert(lt != 0);
                }
            }
            assert forall|s: Seq<u8>| #[trigger] m.selected_action(s) == self.selected_action(
                s,
            ) by {
                lemma_run_leader(*self, part@, m, self.initial as int, s);
                let qd = self.run_from(self.initial as int, s);
                if qd != 0 {
                    assert(self.action_at(part@[qd] as int) == self.action_at(qd));
                    assert(m.action_at(part@[qd] as int) == self.action_at(part@[qd] as int));
                }
            }
            assert forall|p: int, q: int|
                #![trigger m.live(p), m.live(q)]
                m.live(p) && m.live(q) && p != q implies distinguishable(*self, p, q) by {
                assert(self.live(p) && part@[p] as int == p);
                assert(self.live(q) && part@[q] as int == q);
                assert(part@[p] != part@[q]);
            }
            assert forall|p: int| self.live(p) implies exists|r: int|
                #![trigger m.live(r)]
                m.live(r) && (forall|s: Seq<u8>|
                    m.action_at(#[trigger] m.run_from(r, s)) == self.action_at(
                        self.run_from(p, s),
                    )) by {
                let r = part@[p] as int;
                assert(m.live(r));
                assert forall|s: Seq<u8>|
                    m.action_at(#[trigger] m.run_from(r, s)) == self.action_at(
                        self.run_from(p, s),
                    ) by {
                    lemma_run_leader(*self, part@, m, p, s);
                    let qd = self.run_from(p, s);
                    if qd != 0 {
                        assert(self.action_at(part@[qd] as int) == self.action_at(qd));
                        assert(m.action_at(part@[qd] as int) == self.action_at(part@[qd] as int));
                    }
                }
            }
        }
        m
    }
}

} // verus!
