//! The combined transition table.
//!
//! The deterministic automata of all start conditions are renumbered into
//! one contiguous id space starting at 1 — id 0 is the shared dead state —
//! and emitted as a dense transition table, an accepting table, and the
//! renumbered initial state of each automaton.  These tables, together
//! with the action table, are the complete contract a code emitter
//! depends on.

use vstd::prelude::*;
use crate::dfa::DFA;
use crate::dfa::State;

verus! {

/// Relies on core::slice::from_ref: the returned slice holds exactly the
/// referenced value.
pub assume_specification<T>[ core::slice::from_ref::<T> ](s: &T) -> (r: &[T])
    ensures
        r@ == seq![*s],
;

/// How many of the first `i` arena entries are occupied.
pub open spec fn rank(a: Seq<Option<State>>, i: int) -> int
    decreases i,
{
    if i <= 0 {
        0
    } else {
        rank(a, i - 1) + if a[i - 1] is Some {
            1int
        } else {
            0int
        }
    }
}

/// The number of occupied entries of an arena.
pub open spec fn live_count(a: Seq<Option<State>>) -> int {
    rank(a, a.len() as int)
}

/// The number of states of the first `k` automata.
pub open spec fn offset(ds: Seq<DFA>, k: int) -> int
    decreases k,
{
    if k <= 0 {
        0
    } else {
        offset(ds, k - 1) + live_count(ds[k - 1].states@)
    }
}

/// The number of states of all automata together.
pub open spec fn total_live(ds: Seq<DFA>) -> int {
    offset(ds, ds.len() as int)
}

/// The combined id of state `i` of automaton `k`: one past the dead
/// state, the states of earlier automata, and the earlier states of
/// automaton `k`.
pub open spec fn new_id(ds: Seq<DFA>, k: int, i: int) -> int {
    1 + offset(ds, k) + rank(ds[k].states@, i)
}

pub proof fn lemma_rank_mono(a: Seq<Option<State>>, i1: int, i2: int)
    requires
        0 <= i1 <= i2,
    ensures
        rank(a, i1) <= rank(a, i2),
        rank(a, i2) - rank(a, i1) <= i2 - i1,
    decreases i2,
{
    if i1 < i2 {
        lemma_rank_mono(a, i1, i2 - 1);
    }
}

/// An occupied entry counts: its combined id lies inside the table.
pub proof fn lemma_rank_live(a: Seq<Option<State>>, i: int)
    requires
        0 <= i < a.len(),
        a[i] is Some,
    ensures
        0 <= rank(a, i),
        rank(a, i) + 1 <= live_count(a),
    decreases a.len(),
{
    lemma_rank_mono(a, 0, i);
    assert(rank(a, i + 1) == rank(a, i) + 1);
    lemma_rank_mono(a, i + 1, a.len() as int);
}

/// An arena whose occupied entries all are occupied in another arena of
/// the same length has no more occupied entries.
pub proof fn lemma_live_count_le(a: Seq<Option<State>>, b: Seq<Option<State>>, k: int)
    requires
        a.len() == b.len(),
        forall|m: int| 0 <= m < b.len() && b[m] is Some ==> a[m] is Some,
        0 <= k <= a.len(),
    ensures
        rank(b, k) <= rank(a, k),
    decreases k,
{
    if k > 0 {
        lemma_live_count_le(a, b, k - 1);
    }
}

pub proof fn lemma_offset_mono(ds: Seq<DFA>, k1: int, k2: int)
    requires
        0 <= k1 <= k2 <= ds.len(),
        forall|k: int| 0 <= k < ds.len() ==> live_count((#[trigger] ds[k]).states@) >= 0,
    ensures
        offset(ds, k1) <= offset(ds, k2),
    decreases k2,
{
    if k1 < k2 {
        lemma_offset_mono(ds, k1, k2 - 1);
    }
}

/// Some state owns combined id `r`.
pub open spec fn row_owner_exists(ds: Seq<DFA>, r: int) -> bool {
    exists|k: int, i: int|
        #![trigger ds[k].live(i)]
        0 <= k < ds.len() && ds[k].live(i) && new_id(ds, k, i) == r
}

/// The combined tables describe the automata exactly: row 0 belongs to
/// the dead state, every state of every automaton owns the row and the
/// accepting entry of its combined id, with transition targets rewritten
/// to combined ids, and every row past 0 belongs to some state.
pub open spec fn tables_of(
    ds: Seq<DFA>,
    trans: Seq<Vec<usize>>,
    accept: Seq<usize>,
    inits: Seq<usize>,
) -> bool {
    &&& trans.len() == 1 + total_live(ds)
    &&& accept.len() == 1 + total_live(ds)
    &&& inits.len() == ds.len()
    &&& forall|r: int| 0 <= r < trans.len() ==> (#[trigger] trans[r])@.len() == 256
    &&& forall|c: int| 0 <= c < 256 ==> trans[0]@[c] == 0
    &&& accept[0] == 0
    &&& forall|k: int, i: int, c: int|
        #![trigger trans[new_id(ds, k, i)]@[c], ds[k].live(i)]
        0 <= k < ds.len() && ds[k].live(i) && 0 <= c < 256 ==> trans[new_id(ds, k, i)]@[c] as int
            == (if ds[k].state_of(i).trans@[c] == 0 {
            0int
        } else {
            new_id(ds, k, ds[k].state_of(i).trans@[c] as int)
        })
    &&& forall|k: int, i: int|
        #![trigger accept[new_id(ds, k, i)], ds[k].live(i)]
        0 <= k < ds.len() && ds[k].live(i) ==> accept[new_id(ds, k, i)] as int == (
        if ds[k].state_of(i).action is Some {
            ds[k].state_of(i).action->Some_0 as int
        } else {
            0int
        })
    &&& forall|k: int|
        0 <= k < ds.len() ==> (#[trigger] inits[k]) as int == new_id(
            ds,
            k,
            ds[k].initial as int,
        )
    &&& forall|r: int| 1 <= r < trans.len() ==> #[trigger] row_owner_exists(ds, r)
}

/// Assigns combined ids to one automaton's states.  `olds` records, at
/// each combined id, which automaton and old id own it; the returned map
/// gives each old id its combined id, 0 for vacant entries.
fn index_automaton(d: &DFA, k: usize, olds: &mut Vec<(usize, usize)>) -> (ids: Vec<usize>)
    requires
        d.wf(),
        1 <= old(olds)@.len(),
    ensures
        ids@.len() == d.states@.len(),
        final(olds)@.len() == old(olds)@.len() + live_count(d.states@),
        forall|m: int| 0 <= m < old(olds)@.len() ==> final(olds)@[m] == old(olds)@[m],
        forall|i: int|
            d.live(i) ==> (#[trigger] ids@[i]) as int == old(olds)@.len() + rank(d.states@, i),
        forall|i: int| 0 <= i < ids@.len() && !d.live(i) ==> ids@[i] == 0,
        forall|m: int|
            #![trigger final(olds)@[m]]
            old(olds)@.len() <= m < final(olds)@.len() ==> ((final(olds)@[m]).0 == k && d.live(
                (final(olds)@[m]).1 as int,
            ) && m == old(olds)@.len() + rank(d.states@, (final(olds)@[m]).1 as int)),
    decreases d.states@.len(),
{
    let n = d.states.len();
    let base = olds.len();
    let mut ids: Vec<usize> = Vec::new();
    let mut i: usize = 0;
    while i < n
        invariant
            i <= n,
            n == d.states@.len(),
            d.wf(),
            base == old(olds)@.len(),
            1 <= base,
            ids@.len() == i,
            olds@.len() == base + rank(d.states@, i as int),
            forall|m: int| 0 <= m < base ==> olds@[m] == old(olds)@[m],
            forall|i2: int|
                0 <= i2 < i && d.live(i2) ==> (#[trigger] ids@[i2]) as int == base + rank(
                    d.states@,
                    i2,
                ),
            forall|i2: int| 0 <= i2 < i && !d.live(i2) ==> ids@[i2] == 0,
            forall|m: int|
                #![trigger olds@[m]]
                base <= m < olds@.len() ==> ((olds@[m]).0 == k && d.live((olds@[m]).1 as int) && (
                (olds@[m]).1 as int) < i && m == base + rank(d.states@, (olds@[m]).1 as int)),
        decreases n - i,
    {
        proof {
            lemma_rank_mono(d.states@, 0, i as int);
            assert(rank(d.states@, i as int + 1) == rank(d.states@, i as int) + (
            if d.states@[i as int] is Some {
                1int
            } else {
                0int
            }));
        }
        match &d.states[i] {
            Some(_) => {
                let ghost olds0 = olds@;
                let pos = olds.len();
                ids.push(pos);
                olds.push((k, i));
                proof {
                    assert(olds@[pos as int] == (k, i as usize));
                    assert forall|m: int| #![trigger olds@[m]]
                        base <= m < olds@.len() implies ((olds@[m]).0 == k && d.live(
                        (olds@[m]).1 as int,
                    ) && ((olds@[m]).1 as int) < i + 1 && m == base + rank(
                        d.states@,
                        (olds@[m]).1 as int,
                    )) by {
                        if m < pos as int {
                            assert(olds@[m] == olds0[m]);
                        }
                    }
                }
            },
            None => {
                ids.push(0);
            },
        }
        i += 1;
    }
    ids
}

/// Every entry of the owner list names a state whose combined id is that
/// entry's position.
pub open spec fn olds_ok(a: Seq<DFA>, olds: Seq<(usize, usize)>, k: int) -> bool {
    forall|m: int|
        #![trigger olds[m]]
        1 <= m < olds.len() ==> (((olds[m]).0 as int) < k && a[(olds[m]).0 as int].live(
            (olds[m]).1 as int,
        ) && new_id(a, (olds[m]).0 as int, (olds[m]).1 as int) == m)
}

/// Converts a set of deterministic automata, one per start condition,
/// into their combined table representation: the transition table, the
/// accepting table, and the renumbered initial state of each automaton.
/// Ids are assigned contiguously from 1, in automaton order and state-id
/// order, so the tables hold exactly the automata's states plus the dead
/// row 0.
pub fn transition_table(a: &[DFA]) -> (r: (Vec<Vec<usize>>, Vec<usize>, Vec<usize>))
    requires
        forall|k: int| 0 <= k < a@.len() ==> (#[trigger] a@[k]).wf(),
    ensures
        tables_of(a@, r.0@, r.1@, r.2@),
{
    let nk = a.len();
    let mut olds: Vec<(usize, usize)> = Vec::new();
    olds.push((0, 0));
    let mut idmaps: Vec<Vec<usize>> = Vec::new();
    let mut inits: Vec<usize> = Vec::new();
    proof {
        assert forall|k: int| 0 <= k < a@.len() implies live_count(
            (#[trigger] a@[k]).states@,
        ) >= 0 by {
            lemma_rank_mono(a@[k].states@, 0, a@[k].states@.len() as int);
        }
    }
    let mut k: usize = 0;
    while k < nk
        invariant
            k <= nk,
            nk == a@.len(),
            forall|k2: int| 0 <= k2 < a@.len() ==> (#[trigger] a@[k2]).wf(),
            forall|k2: int| 0 <= k2 < a@.len() ==> live_count((#[trigger] a@[k2]).states@) >= 0,
            olds@.len() == 1 + offset(a@, k as int),
            olds@.len() >= 1,
            idmaps@.len() == k,
            inits@.len() == k,
            forall|k2: int|
                0 <= k2 < k ==> (#[trigger] idmaps@[k2])@.len() == a@[k2].states@.len(),
            forall|k2: int, i: int|
                #![trigger idmaps@[k2]@[i]]
                0 <= k2 < k && a@[k2].live(i) ==> idmaps@[k2]@[i] as int == new_id(a@, k2, i),
            forall|k2: int|
                0 <= k2 < k ==> (#[trigger] inits@[k2]) as int == new_id(
                    a@,
                    k2,
                    a@[k2].initial as int,
                ),
            olds_ok(a@, olds@, k as int),
        decreases nk - k,
    {
        proof {
            lemma_offset_mono(a@, k as int + 1, nk as int);
            assert(offset(a@, k as int + 1) == offset(a@, k as int) + live_count(
                a@[k as int].states@,
            ));
            lemma_rank_mono(a@[k as int].states@, 0, a@[k as int].states@.len() as int);
        }
        let ghost olds_pre = olds@;
        let dk = &a[k];
        proof {
            assert(*dk == a@[k as int]);
        }
        let ids = index_automaton(dk, k, &mut olds);
        let init_id = ids[dk.initial];
        inits.push(init_id);
        idmaps.push(ids);
        proof {
            assert forall|m: int| #![trigger olds@[m]]
                1 <= m < olds@.len() implies (((olds@[m]).0 as int) < k + 1 && a@[(
                olds@[m]).0 as int].live((olds@[m]).1 as int) && new_id(
                a@,
                (olds@[m]).0 as int,
                (olds@[m]).1 as int,
            ) == m) by {
                if m < olds_pre.len() {
                    assert(olds@[m] == olds_pre[m]);
                } else {
                    let iw = (olds@[m]).1 as int;
                    assert((olds@[m]).0 == k && dk.live(iw) && m == olds_pre.len() + rank(
                        dk.states@,
                        iw,
                    ));
                    assert(a@[k as int].live(iw));
                    assert(new_id(a@, k as int, iw) == m);
                }
            }
        }
        k += 1;
    }
    let total = olds.len();
    proof {
        assert forall|k2: int, i: int|
            #![trigger a@[k2].live(i)]
            0 <= k2 < nk && a@[k2].live(i) implies 1 <= new_id(a@, k2, i) < total as int by {
            lemma_new_id_bounds(a@, k2, i);
        }
    }
    let mut trans: Vec<Vec<usize>> = Vec::new();
    trans.push(crate::dfa::zeros256());
    let mut accept: Vec<usize> = Vec::new();
    accept.push(0);
    let mut r: usize = 1;
    while r < total
        invariant
            1 <= r <= total,
            nk == a@.len(),
            forall|k2: int| 0 <= k2 < a@.len() ==> (#[trigger] a@[k2]).wf(),
            total == olds@.len(),
            total as int == 1 + total_live(a@),
            forall|k2: int, i: int|
                #![trigger a@[k2].live(i)]
                0 <= k2 < nk && a@[k2].live(i) ==> 1 <= new_id(a@, k2, i) < total as int,
            olds_ok(a@, olds@, nk as int),
            idmaps@.len() == nk,
            forall|k2: int|
                0 <= k2 < nk ==> (#[trigger] idmaps@[k2])@.len() == a@[k2].states@.len(),
            forall|k2: int, i: int|
                #![trigger idmaps@[k2]@[i]]
                0 <= k2 < nk && a@[k2].live(i) ==> idmaps@[k2]@[i] as int == new_id(a@, k2, i),
            trans@.len() == r,
            accept@.len() == r,
            forall|m: int| 0 <= m < r ==> (#[trigger] trans@[m])@.len() == 256,
            forall|c: int| 0 <= c < 256 ==> trans@[0]@[c] == 0,
            accept@[0] == 0,
            forall|k2: int, i: int, c: int|
                #![trigger trans@[new_id(a@, k2, i)]@[c], a@[k2].live(i)]
                0 <= k2 < nk && a@[k2].live(i) && 0 <= c < 256 && new_id(a@, k2, i) < r
                    ==> trans@[new_id(a@, k2, i)]@[c] as int == (if a@[k2].state_of(i).trans@[c]
                    == 0 {
                    0int
                } else {
                    new_id(a@, k2, a@[k2].state_of(i).trans@[c] as int)
                }),
            forall|k2: int, i: int|
                #![trigger accept@[new_id(a@, k2, i)], a@[k2].live(i)]
                0 <= k2 < nk && a@[k2].live(i) && new_id(a@, k2, i) < r ==> accept@[new_id(
                    a@,
                    k2,
                    i,
                )] as int == (if a@[k2].state_of(i).action is Some {
                    a@[k2].state_of(i).action->Some_0 as int
                } else {
                    0int
                }),
        decreases total - r,
    {
        let (k2, i2) = olds[r];
        proof {
            assert((olds@[r as int]).0 == k2 && (olds@[r as int]).1 == i2);
            assert(a@[k2 as int].live(i2 as int));
            assert(new_id(a@, k2 as int, i2 as int) == r as int);
        }
        let dk = &a[k2];
        proof {
            assert(*dk == a@[k2 as int]);
        }
        let st = dk.states[i2].as_ref().unwrap();
        let idk = &idmaps[k2];
        let mut row: Vec<usize> = Vec::new();
        let mut c: usize = 0;
        while c < 256
            invariant
                c <= 256,
                nk == a@.len(),
                forall|k3: int| 0 <= k3 < a@.len() ==> (#[trigger] a@[k3]).wf(),
                (k2 as int) < nk,
                a@[k2 as int].live(i2 as int),
                st == &a@[k2 as int].state_of(i2 as int),
                st.trans@.len() == 256,
                idk == &idmaps@[k2 as int],
                idmaps@.len() == nk,
                idk@.len() == a@[k2 as int].states@.len(),
                forall|i: int|
                    #![trigger idk@[i]]
                    a@[k2 as int].live(i) ==> idk@[i] as int == new_id(a@, k2 as int, i),
                row@.len() == c,
                forall|c2: int|
                    0 <= c2 < c ==> (#[trigger] row@[c2]) as int == (if a@[k2 as int].state_of(
                        i2 as int,
                    ).trans@[c2] == 0 {
                        0int
                    } else {
                        new_id(
                            a@,
                            k2 as int,
                            a@[k2 as int].state_of(i2 as int).trans@[c2] as int,
                        )
                    }),
            decreases 256 - c,
        {
            let t = st.trans[c];
            if t == 0 {
                row.push(0);
            } else {
                proof {
                    assert(a@[k2 as int].live(t as int));
                }
                row.push(idk[t]);
            }
            c += 1;
        }
        let ghost trans0 = trans@;
        let ghost accept0 = accept@;
        trans.push(row);
        let av: usize = match st.action {
            Some(x) => x,
            None => 0,
        };
        accept.push(av);
        proof {
            assert(trans@[r as int]@.len() == 256);
            assert forall|k3: int, i3: int, c3: int|
                #![trigger trans@[new_id(a@, k3, i3)]@[c3], a@[k3].live(i3)]
                0 <= k3 < nk && a@[k3].live(i3) && 0 <= c3 < 256 && new_id(a@, k3, i3) < r + 1
                    implies trans@[new_id(a@, k3, i3)]@[c3] as int == (if a@[k3].state_of(
                    i3,
                ).trans@[c3] == 0 {
                    0int
                } else {
                    new_id(a@, k3, a@[k3].state_of(i3).trans@[c3] as int)
                }) by {
                let m = new_id(a@, k3, i3);
                if m < r as int {
                    assert(trans@[m] == trans0[m]);
                } else {
                    assert(m == r as int);
                    lemma_olds_at(a@, olds@, nk as int, k3, i3);
                    assert(((olds@[m]).0 as int) == k3 && ((olds@[m]).1 as int) == i3);
                    assert(k3 == k2 as int && i3 == i2 as int);
                    assert(trans@[m] == row);
                }
            }
            assert forall|k3: int, i3: int|
                #![trigger accept@[new_id(a@, k3, i3)], a@[k3].live(i3)]
                0 <= k3 < nk && a@[k3].live(i3) && new_id(a@, k3, i3) < r + 1
                    implies accept@[new_id(a@, k3, i3)] as int == (if a@[k3].state_of(
                    i3,
                ).action is Some {
                    a@[k3].state_of(i3).action->Some_0 as int
                } else {
                    0int
                }) by {
                let m = new_id(a@, k3, i3);
                if m < r as int {
                    assert(accept@[m] == accept0[m]);
                } else {
                    assert(m == r as int);
                    lemma_olds_at(a@, olds@, nk as int, k3, i3);
                    assert(((olds@[m]).0 as int) == k3 && ((olds@[m]).1 as int) == i3);
                    assert(k3 == k2 as int && i3 == i2 as int);
                }
            }
        }
        r += 1;
    }
    proof {
        assert forall|r2: int| 1 <= r2 < trans@.len() implies #[trigger] row_owner_exists(
            a@,
            r2,
        ) by {
            let p = olds@[r2];
            assert(a@[p.0 as int].live(p.1 as int) && new_id(a@, p.0 as int, p.1 as int) == r2);
        }
    }
    (trans, accept, inits)
}

/// With every owner-list entry naming its own position's state, the state
/// that owns a given combined id is unique: it is the listed one.
pub proof fn lemma_olds_at(a: Seq<DFA>, olds: Seq<(usize, usize)>, nk: int, k: int, i: int)
    requires
        nk == a.len(),
        olds_ok(a, olds, nk),
        0 <= k < nk,
        a[k].live(i),
        1 <= new_id(a, k, i) < olds.len(),
    ensures
        ((olds[new_id(a, k, i)]).0 as int) == k,
        ((olds[new_id(a, k, i)]).1 as int) == i,
{
    let m = new_id(a, k, i);
    let p = olds[m];
    let k2 = p.0 as int;
    let i2 = p.1 as int;
    assert(a[k2].live(i2) && new_id(a, k2, i2) == m);
    assert forall|kk: int| 0 <= kk < nk implies live_count((#[trigger] a[kk]).states@) >= 0 by {
        lemma_rank_mono(a[kk].states@, 0, a[kk].states@.len() as int);
    }
    if k2 != k {
        if k2 < k {
            lemma_rank_live(a[k2].states@, i2);
            lemma_offset_mono(a, k2 + 1, k);
            lemma_rank_mono(a[k].states@, 0, i);
            assert(false);
        } else {
            lemma_rank_live(a[k].states@, i);
            lemma_offset_mono(a, k + 1, k2);
            lemma_rank_mono(a[k2].states@, 0, i2);
            assert(false);
        }
    }
    if i2 != i {
        if i2 < i {
            assert(rank(a[k].states@, i2 + 1) == rank(a[k].states@, i2) + 1);
            lemma_rank_mono(a[k].states@, i2 + 1, i);
            assert(false);
        } else {
            assert(rank(a[k].states@, i + 1) == rank(a[k].states@, i) + 1);
            lemma_rank_mono(a[k].states@, i + 1, i2);
            assert(false);
        }
    }
}

/// One step of the combined table; the dead row 0 absorbs every byte.
pub open spec fn table_step(trans: Seq<Vec<usize>>, q: int, c: u8) -> int {
    if 0 <= q < trans.len() {
        trans[q]@[c as int] as int
    } else {
        0
    }
}

/// The row reached from row `q` after consuming `s`.
pub open spec fn table_run(trans: Seq<Vec<usize>>, q: int, s: Seq<u8>) -> int
    decreases s.len(),
{
    if s.len() == 0 {
        q
    } else {
        table_run(trans, table_step(trans, q, s[0]), s.subrange(1, s.len() as int))
    }
}

/// The action id the combined table selects from entry row `q` for the
/// complete input `s`; 0 when the reached row accepts nothing.
pub open spec fn table_action(trans: Seq<Vec<usize>>, accept: Seq<usize>, q: int, s: Seq<u8>) -> int {
    let r = table_run(trans, q, s);
    if 0 <= r < accept.len() {
        accept[r] as int
    } else {
        0
    }
}

/// A run started in the dead row never leaves it.
pub proof fn lemma_table_run_dead(trans: Seq<Vec<usize>>, s: Seq<u8>)
    requires
        trans.len() >= 1,
        trans[0]@.len() == 256,
        forall|c: int| 0 <= c < 256 ==> trans[0]@[c] == 0,
    ensures
        table_run(trans, 0, s) == 0,
    decreases s.len(),
{
    if s.len() > 0 {
        assert(table_step(trans, 0, s[0]) == 0);
        lemma_table_run_dead(trans, s.subrange(1, s.len() as int));
    }
}

/// A run of automaton `k` and a run of the combined table move in
/// lock-step: from a state and its combined row, every byte string leads
/// either both to the dead state or to a state and its combined row.
pub proof fn lemma_table_run(
    ds: Seq<DFA>,
    trans: Seq<Vec<usize>>,
    accept: Seq<usize>,
    inits: Seq<usize>,
    k: int,
    i: int,
    s: Seq<u8>,
)
    requires
        forall|k2: int| 0 <= k2 < ds.len() ==> (#[trigger] ds[k2]).wf(),
        tables_of(ds, trans, accept, inits),
        0 <= k < ds.len(),
        ds[k].live(i),
    ensures
        ({
            let qd = ds[k].run_from(i, s);
            let qt = table_run(trans, new_id(ds, k, i), s);
            &&& (qd == 0 ==> qt == 0)
            &&& (qd != 0 ==> ds[k].live(qd) && qt == new_id(ds, k, qd))
        }),
    decreases s.len(),
{
    lemma_new_id_bounds(ds, k, i);
    if s.len() == 0 {
        assert(!ds[k].live(0));
    } else {
        let c = s[0];
        let rest = s.subrange(1, s.len() as int);
        let t = ds[k].state_of(i).trans@[c as int] as int;
        assert(trans[new_id(ds, k, i)]@[c as int] as int == (if t == 0 {
            0int
        } else {
            new_id(ds, k, t)
        }));
        if t == 0 {
            assert(ds[k].step(i, c) == 0);
            assert(table_step(trans, new_id(ds, k, i), c) == 0);
            crate::dfa::lemma_run_dead(ds[k], rest);
            lemma_table_run_dead(trans, rest);
        } else {
            assert(ds[k].live(t));
            assert(ds[k].step(i, c) == t);
            assert(table_step(trans, new_id(ds, k, i), c) == new_id(ds, k, t));
            lemma_table_run(ds, trans, accept, inits, k, t, rest);
        }
    }
}

/// The combined table is a faithful replay of each condition's
/// automaton: from a condition's entry row it selects, for every byte
/// string, exactly the action id that condition's automaton selects.
pub proof fn lemma_table_selects(
    ds: Seq<DFA>,
    trans: Seq<Vec<usize>>,
    accept: Seq<usize>,
    inits: Seq<usize>,
    k: int,
    s: Seq<u8>,
)
    requires
        forall|k2: int| 0 <= k2 < ds.len() ==> (#[trigger] ds[k2]).wf(),
        tables_of(ds, trans, accept, inits),
        0 <= k < ds.len(),
    ensures
        table_action(trans, accept, inits[k] as int, s) == (if ds[k].selected_action(
            s,
        ) is Some {
            ds[k].selected_action(s)->Some_0 as int
        } else {
            0int
        }),
{
    let i0 = ds[k].initial as int;
    assert(ds[k].live(i0));
    lemma_table_run(ds, trans, accept, inits, k, i0, s);
    let qd = ds[k].run_from(i0, s);
    if qd != 0 {
        lemma_new_id_bounds(ds, k, qd);
        assert(accept[new_id(ds, k, qd)] as int == (if ds[k].state_of(qd).action is Some {
            ds[k].state_of(qd).action->Some_0 as int
        } else {
            0int
        }));
    }
}

/// Table shape: row 0 is all zeroes, the dead entry of the accepting
/// table is 0, and every transition target and every condition's initial
/// id lies inside the table, initial ids never naming the dead state.
pub proof fn lemma_table_shape(
    ds: Seq<DFA>,
    trans: Seq<Vec<usize>>,
    accept: Seq<usize>,
    inits: Seq<usize>,
)
    requires
        forall|k: int| 0 <= k < ds.len() ==> (#[trigger] ds[k]).wf(),
        tables_of(ds, trans, accept, inits),
    ensures
        trans.len() == 1 + total_live(ds),
        accept.len() == trans.len(),
        forall|c: int| 0 <= c < 256 ==> trans[0]@[c] == 0,
        accept[0] == 0,
        forall|r: int, c: int|
            0 <= r < trans.len() && 0 <= c < 256 ==> ((#[trigger] trans[r]@[c]) as int)
                < trans.len(),
        forall|k: int|
            0 <= k < inits.len() ==> 1 <= ((#[trigger] inits[k]) as int) < trans.len(),
{
    assert forall|k: int, i: int| #![trigger ds[k].live(i)]
        0 <= k < ds.len() && ds[k].live(i) implies 1 <= new_id(ds, k, i) < trans.len() by {
        lemma_new_id_bounds(ds, k, i);
    }
    assert forall|r: int, c: int|
        0 <= r < trans.len() && 0 <= c < 256 implies ((#[trigger] trans[r]@[c]) as int)
        < trans.len() by {
        if r >= 1 {
            assert(row_owner_exists(ds, r));
            let (k, i) = choose|k: int, i: int|
                #![trigger ds[k].live(i)]
                0 <= k < ds.len() && ds[k].live(i) && new_id(ds, k, i) == r;
            let t = ds[k].state_of(i).trans@[c] as int;
            assert(trans[r]@[c] as int == (if t == 0 {
                0int
            } else {
                new_id(ds, k, t)
            }));
            if t != 0 {
                assert(ds[k].live(t));
                lemma_new_id_bounds(ds, k, t);
            }
        }
    }
    assert forall|k: int| 0 <= k < inits.len() implies 1 <= ((#[trigger] inits[k]) as int)
        < trans.len() by {
        assert(ds[k].live(ds[k].initial as int));
        lemma_new_id_bounds(ds, k, ds[k].initial as int);
    }
}

/// A state's combined id lies strictly between the dead row and the table
/// length.
pub proof fn lemma_new_id_bounds(ds: Seq<DFA>, k: int, i: int)
    requires
        0 <= k < ds.len(),
        ds[k].live(i),
    ensures
        1 <= new_id(ds, k, i) < 1 + total_live(ds),
{
    assert forall|k2: int| 0 <= k2 < ds.len() implies live_count(
        (#[trigger] ds[k2]).states@,
    ) >= 0 by {
        lemma_rank_mono(ds[k2].states@, 0, ds[k2].states@.len() as int);
    }
    lemma_rank_live(ds[k].states@, i);
    lemma_rank_mono(ds[k].states@, 0, i);
    lemma_offset_mono(ds, 0, k);
    lemma_offset_mono(ds, k + 1, ds.len() as int);
    assert(offset(ds, k + 1) == offset(ds, k) + live_count(ds[k].states@));
}

/// Table construction is deterministic: any two table sets that describe
/// the same automata are identical, entry for entry.
pub proof fn lemma_tables_deterministic(
    ds: Seq<DFA>,
    trans1: Seq<Vec<usize>>,
    accept1: Seq<usize>,
    inits1: Seq<usize>,
    trans2: Seq<Vec<usize>>,
    accept2: Seq<usize>,
    inits2: Seq<usize>,
)
    requires
        forall|k: int| 0 <= k < ds.len() ==> (#[trigger] ds[k]).wf(),
        tables_of(ds, trans1, accept1, inits1),
        tables_of(ds, trans2, accept2, inits2),
    ensures
        trans1.len() == trans2.len(),
        forall|r: int| 0 <= r < trans1.len() ==> (#[trigger] trans1[r])@ == trans2[r]@,
        accept1 == accept2,
        inits1 == inits2,
{
    assert forall|r: int|
        #![trigger trans1[r]]
        #![trigger accept1[r]]
        0 <= r < trans1.len() implies trans1[r]@ == trans2[r]@ && accept1[r] == accept2[r] by {
        if r == 0 {
            assert forall|c: int| 0 <= c < 256 implies trans1[r]@[c] == trans2[r]@[c] by {}
            assert(trans1[r]@ =~= trans2[r]@);
        } else {
            assert(row_owner_exists(ds, r));
            let (k, i) = choose|k: int, i: int|
                #![trigger ds[k].live(i)]
                0 <= k < ds.len() && ds[k].live(i) && new_id(ds, k, i) == r;
            assert forall|c: int| 0 <= c < 256 implies trans1[r]@[c] == trans2[r]@[c] by {
                lemma_new_id_bounds(ds, k, i);
                assert(trans1[new_id(ds, k, i)]@[c] as int == trans2[new_id(ds, k, i)]@[c] as int);
            }
            lemma_new_id_bounds(ds, k, i);
            assert(trans1[r]@ =~= trans2[r]@);
            assert(accept1[new_id(ds, k, i)] as int == accept2[new_id(ds, k, i)] as int);
        }
    }
    assert(accept1 =~= accept2);
    assert forall|k: int| 0 <= k < inits1.len() implies inits1[k] == inits2[k] by {}
    assert(inits1 =~= inits2);
}

impl DFA {
    /// The table representation of this automaton alone: its transition
    /// table, accepting table, and renumbered initial state.
    pub fn transition_table(&self) -> (r: (Vec<Vec<usize>>, Vec<usize>, usize))
        requires
            self.wf(),
        ensures
            tables_of(seq![*self], r.0@, r.1@, seq![r.2]),
    {
        proof {
            assert(seq![*self][0] == *self);
            assert(offset(seq![*self], 0) == 0);
            assert(offset(seq![*self], 1) == live_count(self.states@));
        }
        let s = core::slice::from_ref(self);
        let (trans, accept, inits) = transition_table(s);
        let init0 = inits[0];
        proof {
            assert(seq![init0] =~= inits@);
        }
        (trans, accept, init0)
    }
}

} // verus!
