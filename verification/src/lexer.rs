//! The lexer builder.
//!
//! `Lexer::new` consumes the rule list — pattern tree, action code, and
//! optional start-condition name — groups the rules by condition in order
//! of first appearance, assigns action ids in declaration order (reusing
//! the id of an identical pattern declared earlier, so one id can carry
//! per-condition code), and runs each condition's patterns through the
//! automaton pipeline: merged non-deterministic automaton, subset
//! construction, minimization.

use vstd::prelude::*;
use crate::action::Action;
use crate::dfa::DFA;
use crate::dfa::atb_wf;
use crate::nfa::NFA;
use crate::nfa::regexs_size;
use crate::nfa::regexs_size_prefix;
use crate::regex::AST;
use crate::regex::ast_copy;
use crate::regex::ast_eq;
use crate::regex::lang;

verus! {

/// The total node count of the first `k` rules' pattern trees.
pub open spec fn rules_size_prefix(rs: Seq<(AST, String, Option<String>)>, k: int) -> nat
    decreases k,
{
    if k <= 0 {
        0
    } else {
        rules_size_prefix(rs, k - 1) + rs[k - 1].0.size()
    }
}

/// The total node count of a rule list's pattern trees.
pub open spec fn rules_size(rs: Seq<(AST, String, Option<String>)>) -> nat {
    rules_size_prefix(rs, rs.len() as int)
}

/// The views of a list of condition names.
pub open spec fn cond_views(cs: Seq<String>) -> Seq<Seq<char>> {
    cs.map_values(|c: String| c@)
}

/// The name of the start condition a rule belongs to: its own, or the
/// default `Initial`.
pub open spec fn rule_cond(r: (AST, String, Option<String>)) -> Seq<char> {
    match r.2 {
        Some(c) => c@,
        None => "Initial"@,
    }
}

/// The distinct condition names of the first `k` rules, in order of
/// first appearance.
pub open spec fn conds_of(rs: Seq<(AST, String, Option<String>)>, k: int) -> Seq<Seq<char>>
    decreases k,
{
    if k <= 0 {
        Seq::empty()
    } else {
        let prev = conds_of(rs, k - 1);
        if prev.contains(rule_cond(rs[k - 1])) {
            prev
        } else {
            prev.push(rule_cond(rs[k - 1]))
        }
    }
}

/// Rule `m` declares a pattern that no earlier rule declares.
pub open spec fn first_of_pattern(rs: Seq<(AST, String, Option<String>)>, m: int) -> bool {
    forall|m2: int| 0 <= m2 < m ==> !(#[trigger] rs[m2]).0.same_pattern(rs[m].0)
}

/// How many of the first `k` rules declare new patterns — the number of
/// action ids allocated for them, identical patterns sharing one id.
pub open spec fn n_patterns(rs: Seq<(AST, String, Option<String>)>, k: int) -> int
    decreases k,
{
    if k <= 0 {
        0
    } else {
        n_patterns(rs, k - 1) + if first_of_pattern(rs, k - 1) {
            1int
        } else {
            0int
        }
    }
}

/// The index of the first rule declaring the same pattern as rule `m`,
/// scanning from position `j`.
pub open spec fn first_pattern_from(
    rs: Seq<(AST, String, Option<String>)>,
    m: int,
    j: int,
) -> int
    decreases m - j,
{
    if j >= m {
        m
    } else if rs[j].0.same_pattern(rs[m].0) {
        j
    } else {
        first_pattern_from(rs, m, j + 1)
    }
}

/// The action id of rule `m`: ids run 1, 2, … over distinct patterns in
/// declaration order, a repeated pattern reusing its first declaration's
/// id — so an earlier-declared pattern always has the lower id.
pub open spec fn rule_aid(rs: Seq<(AST, String, Option<String>)>, m: int) -> int {
    n_patterns(rs, first_pattern_from(rs, m, 0)) + 1
}

/// The first-pattern scan lands exactly on the least matching index.
pub proof fn lemma_first_pattern_from(
    rs: Seq<(AST, String, Option<String>)>,
    m: int,
    j: int,
    jstar: int,
)
    requires
        0 <= j <= jstar <= m,
        jstar < m ==> rs[jstar].0.same_pattern(rs[m].0),
        forall|j2: int| j <= j2 < jstar ==> !(#[trigger] rs[j2]).0.same_pattern(rs[m].0),
    ensures
        first_pattern_from(rs, m, j) == jstar,
    decreases jstar - j,
{
    if j < jstar {
        lemma_first_pattern_from(rs, m, j + 1, jstar);
    }
}

/// Every stored key pattern is the pattern of the rule its source index
/// names, among the first `k` rules.
pub open spec fn keys_linked(
    rs: Seq<(AST, String, Option<String>)>,
    k: int,
    keys: Seq<AST>,
    src: Seq<int>,
) -> bool {
    &&& src.len() == keys.len()
    &&& forall|t: int| 0 <= t < src.len() ==> 0 <= #[trigger] src[t] && src[t] < k
    &&& forall|t: int| 0 <= t < keys.len() ==> (#[trigger] keys[t]).same_pattern(rs[src[t]].0)
    &&& forall|t: int| 0 <= t < src.len() ==> first_of_pattern(rs, #[trigger] src[t])
    &&& forall|t: int| 0 <= t < src.len() ==> n_patterns(rs, #[trigger] src[t]) == t
}

/// Every one of the first `k` rules has a stored key — named by `rk` —
/// with an identical pattern.
pub open spec fn rules_keyed(
    rs: Seq<(AST, String, Option<String>)>,
    k: int,
    keys: Seq<AST>,
    rk: Seq<int>,
) -> bool {
    &&& rk.len() == k
    &&& forall|m: int| 0 <= m < rk.len() ==> 0 <= #[trigger] rk[m] && rk[m] < keys.len()
    &&& forall|m: int| 0 <= m < rk.len() ==> keys[#[trigger] rk[m]].same_pattern(rs[m].0)
    &&& forall|m: int| 0 <= m < rk.len() ==> (#[trigger] rk[m]) + 1 == rule_aid(rs, m)
}

/// Grouping one rule keeps the condition list exactly the distinct names
/// seen so far, in order of first appearance.
pub proof fn lemma_conds_step(
    rs: Seq<(AST, String, Option<String>)>,
    done: int,
    conds0: Seq<String>,
    conds1: Seq<String>,
    fresh: bool,
    cv: Seq<char>,
)
    requires
        0 <= done < rs.len(),
        cv == rule_cond(rs[done]),
        cond_views(conds0) == conds_of(rs, done),
        fresh ==> (forall|m: int| 0 <= m < conds0.len() ==> (#[trigger] conds0[m])@ != cv)
            && conds1.len() == conds0.len() + 1 && (forall|m: int|
            0 <= m < conds0.len() ==> conds1[m] == conds0[m]) && conds1[conds0.len() as int]@
            == cv,
        !fresh ==> conds1 == conds0 && (exists|m: int|
            0 <= m < conds0.len() && (#[trigger] conds0[m])@ == cv),
    ensures
        cond_views(conds1) == conds_of(rs, done + 1),
{
    if fresh {
        assert(!conds_of(rs, done).contains(cv)) by {
            if conds_of(rs, done).contains(cv) {
                let i0 = choose|i0: int|
                    0 <= i0 < conds_of(rs, done).len() && conds_of(rs, done)[i0] == cv;
                assert(cond_views(conds0)[i0] == conds0[i0]@);
            }
        }
        assert(cond_views(conds1) =~= conds_of(rs, done).push(cv));
    } else {
        let m0 = choose|m0: int| 0 <= m0 < conds0.len() && (#[trigger] conds0[m0])@ == cv;
        assert(cond_views(conds0)[m0] == conds0[m0]@);
        assert(conds_of(rs, done).contains(cv));
    }
}

/// The total node count of a family of pattern lists.
pub open spec fn pats_size(ps: Seq<Vec<(AST, usize)>>) -> nat
    decreases ps.len(),
{
    if ps.len() == 0 {
        0
    } else {
        pats_size(ps.drop_last()) + regexs_size(ps.last()@)
    }
}

pub proof fn lemma_prefix_same(
    rs1: Seq<(AST, usize)>,
    rs2: Seq<(AST, usize)>,
    m: int,
)
    requires
        0 <= m <= rs1.len(),
        m <= rs2.len(),
        forall|i: int| 0 <= i < m ==> rs1[i] == rs2[i],
    ensures
        regexs_size_prefix(rs1, m) == regexs_size_prefix(rs2, m),
    decreases m,
{
    if m > 0 {
        lemma_prefix_same(rs1, rs2, m - 1);
    }
}

/// Appending one pattern grows a list's size by that pattern's size.
pub proof fn lemma_regexs_size_push(rs: Seq<(AST, usize)>, x: (AST, usize))
    ensures
        regexs_size(rs.push(x)) == regexs_size(rs) + x.0.size(),
{
    lemma_prefix_same(rs.push(x), rs, rs.len() as int);
    assert(rs.push(x)[rs.len() as int] == x);
}

/// Replacing one list changes the family's size by the difference.
pub proof fn lemma_pats_size_update(ps: Seq<Vec<(AST, usize)>>, j: int, v: Vec<(AST, usize)>)
    requires
        0 <= j < ps.len(),
    ensures
        pats_size(ps.update(j, v)) + regexs_size(ps[j]@) == pats_size(ps) + regexs_size(v@),
    decreases ps.len(),
{
    let up = ps.update(j, v);
    if j == ps.len() - 1 {
        assert(up.drop_last() =~= ps.drop_last());
    } else {
        assert(up.drop_last() =~= ps.drop_last().update(j, v));
        assert(up.last() == ps.last());
        lemma_pats_size_update(ps.drop_last(), j, v);
    }
}

/// Each list's size is at most the family's.
pub proof fn lemma_pats_size_elem(ps: Seq<Vec<(AST, usize)>>, j: int)
    requires
        0 <= j < ps.len(),
    ensures
        regexs_size(ps[j]@) <= pats_size(ps),
    decreases ps.len(),
{
    if j < ps.len() - 1 {
        lemma_pats_size_elem(ps.drop_last(), j);
        assert(ps.drop_last()[j] == ps[j]);
    }
}

/// Monotonicity of the rule-size prefix.
pub proof fn lemma_rules_size_mono(rs: Seq<(AST, String, Option<String>)>, k1: int, k2: int)
    requires
        0 <= k1 <= k2,
    ensures
        rules_size_prefix(rs, k1) <= rules_size_prefix(rs, k2),
    decreases k2,
{
    if k1 < k2 {
        lemma_rules_size_mono(rs, k1, k2 - 1);
    }
}

/// Removes one pattern list from the family, leaving an empty list in
/// its place; the family's total size drops by the removed list's.
fn take_pat_list(pats: &mut Vec<Vec<(AST, usize)>>, j: usize) -> (v: Vec<(AST, usize)>)
    requires
        (j as int) < old(pats)@.len(),
    ensures
        v == old(pats)@[j as int],
        final(pats)@.len() == old(pats)@.len(),
        forall|m: int|
            0 <= m < final(pats)@.len() && m != j ==> final(pats)@[m] == old(pats)@[m],
        final(pats)@[j as int]@.len() == 0,
        pats_size(final(pats)@) + regexs_size(v@) == pats_size(old(pats)@),
{
    let mut tmp: Vec<(AST, usize)> = Vec::new();
    core::mem::swap(&mut tmp, &mut pats[j]);
    proof {
        let ghost fresh = pats@[j as int];
        assert(pats@ =~= old(pats)@.update(j as int, fresh));
        lemma_pats_size_update(old(pats)@, j as int, fresh);
        assert(regexs_size(fresh@) == 0);
    }
    tmp
}

/// A vector with the elements in reverse order.
fn reverse_vec<T>(v: Vec<T>) -> (r: Vec<T>)
    ensures
        r@.len() == v@.len(),
        forall|m: int| 0 <= m < v@.len() ==> r@[m] == v@[v@.len() - 1 - m],
{
    let ghost orig = v@;
    let mut rest = v;
    let mut r: Vec<T> = Vec::new();
    while rest.len() > 0
        invariant
            rest@ == orig.subrange(0, rest@.len() as int),
            r@.len() + rest@.len() == orig.len(),
            forall|m: int| 0 <= m < r@.len() ==> r@[m] == orig[orig.len() - 1 - m],
        decreases rest@.len(),
    {
        let x = rest.pop().unwrap();
        proof {
            assert(rest@ =~= orig.subrange(0, rest@.len() as int));
        }
        r.push(x);
    }
    r
}

/// The index-plus-one of the first stored pattern identical to `pat`, or
/// 0 when none is.
fn find_pattern(keys: &Vec<AST>, pat: &AST) -> (r: usize)
    ensures
        r == 0 ==> forall|m: int| 0 <= m < keys@.len() ==> !(#[trigger] keys@[m]).same_pattern(
            *pat,
        ),
        r != 0 ==> 1 <= r <= keys@.len() && keys@[r - 1].same_pattern(*pat),
{
    let n = keys.len();
    let mut m: usize = 0;
    while m < n
        invariant
            m <= n,
            n == keys@.len(),
            forall|m2: int| 0 <= m2 < m ==> !(#[trigger] keys@[m2]).same_pattern(*pat),
        decreases n - m,
    {
        if ast_eq(&keys[m], pat) {
            return m + 1;
        }
        m += 1;
    }
    0
}

/// The index-plus-one of the condition named `c`, or 0 when it is new.
fn find_condition(conds: &Vec<String>, c: &String) -> (r: usize)
    ensures
        r == 0 ==> forall|m: int| 0 <= m < conds@.len() ==> (#[trigger] conds@[m])@ != c@,
        r != 0 ==> 1 <= r <= conds@.len() && conds@[r - 1]@ == c@,
{
    let n = conds.len();
    let mut m: usize = 0;
    while m < n
        invariant
            m <= n,
            n == conds@.len(),
            forall|m2: int| 0 <= m2 < m ==> (#[trigger] conds@[m2])@ != c@,
        decreases n - m,
    {
        if conds[m] == *c {
            return m + 1;
        }
        m += 1;
    }
    0
}

/// A compiled lexer: one minimized deterministic automaton per start
/// condition, the action table, and the condition names, entry `k` of
/// which names automaton `k`.
pub struct Lexer {
    /// One minimized automaton per start condition, in order of the
    /// condition's first appearance in the rules.
    pub auto: Vec<DFA>,
    /// The action records; action id `n` lives at entry `n - 1`.
    pub actions: Vec<Action>,
    /// The start-condition names, index-aligned with `auto`.
    pub conditions: Vec<String>,
}

impl Lexer {
    /// A sound lexer: every automaton is well formed and fires only
    /// action ids the table holds, records are well formed, and
    /// condition names are distinct.
    pub open spec fn wf(&self) -> bool {
        &&& self.auto@.len() == self.conditions@.len()
        &&& forall|k: int| 0 <= k < self.auto@.len() ==> (#[trigger] self.auto@[k]).wf()
        &&& forall|k: int|
            0 <= k < self.auto@.len() ==> (#[trigger] self.auto@[k]).actions_bounded(
                self.actions@.len() as int,
            )
        &&& atb_wf(self.actions@)
        &&& forall|k1: int, k2: int|
            0 <= k1 < k2 < self.conditions@.len() ==> (#[trigger] self.conditions@[k1])@ != (
            #[trigger] self.conditions@[k2])@
    }

    /// Compiles a rule list into a lexer.
    ///
    /// Rules are numbered from 1 in declaration order; a rule whose
    /// pattern is identical to an earlier rule's reuses the earlier
    /// action id, and its code is merged into that id's record under its
    /// own condition, the earlier declaration winning on a shared
    /// condition.  A rule without a condition belongs to the default
    /// `Initial` condition.
    #[verifier::rlimit(100)]
    #[verifier::spinoff_prover]
    pub fn new(rules: Vec<(AST, String, Option<String>)>) -> (l: Lexer)
        requires
            2 * rules_size(rules@) + 1 <= usize::MAX,
        ensures
            l.wf(),
            l.actions@.len() <= rules@.len(),
            cond_views(l.conditions@) == conds_of(rules@, rules@.len() as int),
            l.actions@.len() == n_patterns(rules@, rules@.len() as int),
            forall|m: int|
                #![trigger rule_aid(rules@, m)]
                0 <= m < rules@.len() ==> 1 <= rule_aid(rules@, m) <= l.actions@.len(),
            forall|m: int|
                0 <= m < rules@.len() ==> (#[trigger] l.actions@[rule_aid(rules@, m) - 1]).spec_has(
                    rule_cond(rules@[m]),
                ),
            forall|m: int, w: Seq<u8>|
                0 <= m < rules@.len() && #[trigger] lang(rules@[m].0, w) ==> exists|k: int|
                    0 <= k < l.auto@.len() && (#[trigger] l.auto@[k]).selected_action(w) is Some
                        && l.conditions@[k]@ == rule_cond(rules@[m]),
    {
        let ghost orig = rules@;
        let mut rem = reverse_vec(rules);
        let ghost mut key_src: Seq<int> = Seq::empty();
        let ghost mut rule_key: Seq<int> = Seq::empty();
        let ghost mut rule_cix: Seq<int> = Seq::empty();
        let ghost mut rule_pe: Seq<int> = Seq::empty();
        let mut keys: Vec<AST> = Vec::new();
        let mut acts: Vec<Action> = Vec::new();
        let mut conds: Vec<String> = Vec::new();
        let mut pats: Vec<Vec<(AST, usize)>> = Vec::new();
        while rem.len() > 0
            invariant
                rem@.len() <= orig.len(),
                forall|m: int|
                    0 <= m < rem@.len() ==> rem@[m] == orig[orig.len() - 1 - m],
                keys@.len() == acts@.len(),
                acts@.len() <= orig.len() - rem@.len(),
                keys@.len() == n_patterns(orig, orig.len() - rem@.len()),
                keys_linked(orig, orig.len() - rem@.len(), keys@, key_src),
                rules_keyed(orig, orig.len() - rem@.len(), keys@, rule_key),
                forall|m: int|
                    0 <= m < rule_key.len() ==> (#[trigger] acts@[rule_key[m]]).spec_has(
                        rule_cond(orig[m]),
                    ),
                rule_cix.len() == orig.len() - rem@.len(),
                rule_pe.len() == orig.len() - rem@.len(),
                forall|m: int|
                    0 <= m < rule_cix.len() ==> 0 <= #[trigger] rule_cix[m] && rule_cix[m]
                        < conds@.len(),
                forall|m: int|
                    0 <= m < rule_cix.len() ==> (#[trigger] conds@[rule_cix[m]])@ == rule_cond(
                        orig[m],
                    ),
                forall|m: int|
                    0 <= m < rule_pe.len() ==> 0 <= #[trigger] rule_pe[m] && rule_pe[m]
                        < pats@[rule_cix[m]]@.len(),
                forall|m: int|
                    0 <= m < rule_pe.len() ==> pats@[rule_cix[m]]@[#[trigger] rule_pe[m]].0
                        == orig[m].0,
                forall|m: int|
                    0 <= m < rule_pe.len() ==> (pats@[rule_cix[m]]@[#[trigger] rule_pe[m]].1
                        as int) == rule_aid(orig, m),
                cond_views(conds@) == conds_of(orig, orig.len() - rem@.len()),
                atb_wf(acts@),
                conds@.len() == pats@.len(),
                forall|k1: int, k2: int|
                    0 <= k1 < k2 < conds@.len() ==> (#[trigger] conds@[k1])@ != (
                    #[trigger] conds@[k2])@,
                forall|j: int, e: int|
                    #![trigger pats@[j]@[e]]
                    0 <= j < pats@.len() && 0 <= e < pats@[j]@.len() ==> 1 <= pats@[j]@[e].1
                        <= acts@.len(),
                pats_size(pats@) <= rules_size_prefix(orig, orig.len() - rem@.len()),
                2 * rules_size(orig) + 1 <= usize::MAX,
                rules_size_prefix(orig, orig.len() - rem@.len()) <= rules_size(orig),
            decreases rem@.len(),
        {
            let ghost done = orig.len() - rem@.len();
            let (ast, code, cond_opt) = rem.pop().unwrap();
            proof {
                assert((ast, code, cond_opt) == orig[done]);
            }
            let cond: String = match cond_opt {
                Some(c) => c,
                None => "Initial".to_string(),
            };
            let ghost condv = cond@;
            proof {
                assert(condv == rule_cond(orig[done]));
            }
            let ghost keys0 = keys@;
            let aid: usize;
            let found = find_pattern(&keys, &ast);
            if found == 0 {
                keys.push(ast_copy(&ast));
                let ghost acts0 = acts@;
                acts.push(Action::new(cond.clone(), code));
                aid = keys.len();
                proof {
                    assert(keys@ =~= keys0.push(orig[done].0));
                    assert(first_of_pattern(orig, done as int)) by {
                        if !first_of_pattern(orig, done as int) {
                            let m2 = choose|m2: int|
                                0 <= m2 < done && (#[trigger] orig[m2]).0.same_pattern(
                                    orig[done].0,
                                );
                            let t2 = rule_key[m2];
                            crate::regex::lemma_same_pattern_trans(
                                keys0[t2],
                                orig[m2].0,
                                orig[done].0,
                            );
                        }
                    }
                    crate::regex::lemma_same_pattern_refl(orig[done].0);
                    let ghost key_src0 = key_src;
                    let ghost rule_key0 = rule_key;
                    key_src = key_src.push(done as int);
                    rule_key = rule_key.push(keys0.len() as int);
                    assert(keys_linked(orig, done + 1, keys@, key_src)) by {
                        assert forall|t: int|
                            0 <= t < key_src.len() implies 0 <= #[trigger] key_src[t]
                            && key_src[t] < done + 1 by {
                            if t < keys0.len() {
                                assert(key_src[t] == key_src0[t]);
                            } else {
                                assert(key_src[t] == done as int);
                            }
                        }
                        assert forall|t: int|
                            0 <= t < keys@.len() implies (#[trigger] keys@[t]).same_pattern(
                            orig[key_src[t]].0,
                        ) by {
                            if t < keys0.len() {
                                assert(keys@[t] == keys0[t]);
                                assert(key_src[t] == key_src0[t]);
                            } else {
                                assert(keys@[t] == orig[done].0);
                                assert(key_src[t] == done as int);
                            }
                        }
                        assert forall|t: int|
                            0 <= t < key_src.len() implies first_of_pattern(
                            orig,
                            #[trigger] key_src[t],
                        ) by {
                            if t < keys0.len() {
                                assert(key_src[t] == key_src0[t]);
                            } else {
                                assert(key_src[t] == done as int);
                            }
                        }
                        assert forall|t: int|
                            0 <= t < key_src.len() implies n_patterns(
                            orig,
                            #[trigger] key_src[t],
                        ) == t by {
                            if t < keys0.len() {
                                assert(key_src[t] == key_src0[t]);
                            } else {
                                assert(key_src[t] == done as int);
                            }
                        }
                    }
                    assert(rules_keyed(orig, done + 1, keys@, rule_key)) by {
                        assert forall|m: int|
                            0 <= m < rule_key.len() implies 0 <= #[trigger] rule_key[m]
                            && rule_key[m] < keys@.len() by {
                            if m < done {
                                assert(rule_key[m] == rule_key0[m]);
                            } else {
                                assert(rule_key[m] == keys0.len() as int);
                            }
                        }
                        assert forall|m: int|
                            0 <= m < rule_key.len() implies keys@[#[trigger] rule_key[m]].same_pattern(
                            orig[m].0,
                        ) by {
                            if m < done {
                                assert(rule_key[m] == rule_key0[m]);
                                assert(keys@[rule_key[m]] == keys0[rule_key0[m]]);
                            } else {
                                assert(rule_key[m] == keys0.len() as int);
                                assert(keys@[rule_key[m]] == orig[done].0);
                            }
                        }
                        assert forall|m: int|
                            0 <= m < rule_key.len() implies (#[trigger] rule_key[m]) + 1
                            == rule_aid(orig, m) by {
                            if m < done {
                                assert(rule_key[m] == rule_key0[m]);
                            } else {
                                assert(rule_key[m] == keys0.len() as int);
                                lemma_first_pattern_from(orig, done as int, 0, done as int);
                            }
                        }
                    }
                    assert forall|m: int|
                        0 <= m < rule_key.len() implies (#[trigger] acts@[rule_key[m]]).spec_has(
                        rule_cond(orig[m]),
                    ) by {
                        if m < done {
                            assert(rule_key[m] == rule_key0[m]);
                            assert(acts@[rule_key[m]] == acts0[rule_key[m]]);
                        } else {
                            assert(rule_key[m] == keys0.len() as int);
                            assert(acts@[rule_key[m]].spec_has(condv));
                        }
                    }
                }
            } else {
                aid = found;
                let extra = Action::new(cond.clone(), code);
                let ghost acts0 = acts@;
                let merged = acts[aid - 1].merge(&extra);
                acts[aid - 1] = merged;
                proof {
                    let m0 = key_src[found - 1];
                    crate::regex::lemma_same_pattern_sym(keys@[found - 1], orig[m0].0);
                    crate::regex::lemma_same_pattern_trans(
                        orig[m0].0,
                        keys@[found - 1],
                        orig[done].0,
                    );
                    assert(!first_of_pattern(orig, done as int)) by {
                        assert(orig[m0].0.same_pattern(orig[done].0));
                    }
                    let ghost rule_key0 = rule_key;
                    rule_key = rule_key.push(found as int - 1);
                    assert(keys_linked(orig, done + 1, keys@, key_src)) by {
                        assert forall|t: int|
                            0 <= t < key_src.len() implies 0 <= #[trigger] key_src[t]
                            && key_src[t] < done + 1 by {}
                    }
                    assert(rules_keyed(orig, done + 1, keys@, rule_key)) by {
                        assert forall|m: int|
                            0 <= m < rule_key.len() implies 0 <= #[trigger] rule_key[m]
                            && rule_key[m] < keys@.len() by {
                            if m < done {
                                assert(rule_key[m] == rule_key0[m]);
                            } else {
                                assert(rule_key[m] == found as int - 1);
                            }
                        }
                        assert forall|m: int|
                            0 <= m < rule_key.len() implies keys@[#[trigger] rule_key[m]].same_pattern(
                            orig[m].0,
                        ) by {
                            if m < done {
                                assert(rule_key[m] == rule_key0[m]);
                            } else {
                                assert(rule_key[m] == found as int - 1);
                            }
                        }
                        assert forall|m: int|
                            0 <= m < rule_key.len() implies (#[trigger] rule_key[m]) + 1
                            == rule_aid(orig, m) by {
                            if m < done {
                                assert(rule_key[m] == rule_key0[m]);
                            } else {
                                assert(rule_key[m] == found as int - 1);
                                assert(first_of_pattern(orig, m0));
                                assert(n_patterns(orig, m0) == found - 1);
                                assert(orig[m0].0.same_pattern(orig[done].0));
                                assert forall|j2: int|
                                    0 <= j2 < m0 implies !(#[trigger] orig[j2]).0.same_pattern(
                                    orig[done].0,
                                ) by {
                                    if orig[j2].0.same_pattern(orig[done].0) {
                                        crate::regex::lemma_same_pattern_sym(
                                            orig[m0].0,
                                            orig[done].0,
                                        );
                                        crate::regex::lemma_same_pattern_trans(
                                            orig[j2].0,
                                            orig[done].0,
                                            orig[m0].0,
                                        );
                                    }
                                }
                                lemma_first_pattern_from(orig, done as int, 0, m0);
                            }
                        }
                    }
                    assert forall|m: int|
                        0 <= m < rule_key.len() implies (#[trigger] acts@[rule_key[m]]).spec_has(
                        rule_cond(orig[m]),
                    ) by {
                        if m < done {
                            assert(rule_key[m] == rule_key0[m]);
                            if rule_key[m] == aid - 1 {
                                assert(acts0[aid - 1].spec_has(rule_cond(orig[m])));
                                assert(acts@[aid - 1].spec_has(rule_cond(orig[m])));
                            } else {
                                assert(acts@[rule_key[m]] == acts0[rule_key[m]]);
                            }
                        } else {
                            assert(rule_key[m] == found as int - 1);
                            assert(extra.spec_has(condv));
                            if acts0[aid - 1].spec_has(condv) {
                                assert(acts@[aid - 1].spec_has(condv));
                            } else {
                                assert(acts@[aid - 1].spec_has(condv));
                            }
                        }
                    }
                }
            }
            proof {
                assert(aid as int == rule_aid(orig, done as int)) by {
                    assert(rule_key[done] + 1 == rule_aid(orig, done as int));
                }
            }
            let ghost conds0 = conds@;
            let ci = find_condition(&conds, &cond);
            let ghost pats0 = pats@;
            if ci == 0 {
                conds.push(cond);
                let mut v: Vec<(AST, usize)> = Vec::new();
                v.push((ast, aid));
                let ghost vv = v@;
                pats.push(v);
                proof {
                    assert(vv =~= Seq::<(AST, usize)>::empty().push(vv[0]));
                    lemma_regexs_size_push(Seq::<(AST, usize)>::empty(), vv[0]);
                    assert(vv[0].0 == orig[done].0);
                    assert(pats@.drop_last() =~= pats0);
                    assert(pats@.last()@ == vv);
                    assert(pats_size(pats@) == pats_size(pats0) + regexs_size(vv));
                    let ghost rule_cix0 = rule_cix;
                    let ghost rule_pe0 = rule_pe;
                    rule_cix = rule_cix.push(conds@.len() - 1);
                    rule_pe = rule_pe.push(0);
                    assert forall|m: int|
                        0 <= m < rule_cix.len() implies ((#[trigger] conds@[rule_cix[m]])@
                        == rule_cond(orig[m])) by {
                        if m < done {
                            assert(rule_cix[m] == rule_cix0[m]);
                            assert(conds@[rule_cix[m]] == conds0[rule_cix[m]]);
                        } else {
                            assert(rule_cix[m] == conds0.len() as int);
                            assert(conds@[rule_cix[m]]@ == condv);
                        }
                    }
                    assert forall|m: int|
                        0 <= m < rule_pe.len() implies (0 <= #[trigger] rule_pe[m] && rule_pe[m]
                        < pats@[rule_cix[m]]@.len() && pats@[rule_cix[m]]@[rule_pe[m]].0
                        == orig[m].0 && (pats@[rule_cix[m]]@[rule_pe[m]].1 as int) == rule_aid(
                        orig,
                        m,
                    )) by {
                        if m < done {
                            assert(rule_cix[m] == rule_cix0[m] && rule_pe[m] == rule_pe0[m]);
                            assert(rule_cix[m] < pats0.len());
                            assert(pats@[rule_cix[m]] == pats0[rule_cix[m]]);
                        } else {
                            assert(rule_cix[m] == pats0.len() as int && rule_pe[m] == 0);
                            assert(pats@[rule_cix[m]]@ == vv);
                            assert(vv[0] == (orig[done].0, aid));
                        }
                    }
                }
            } else {
                let mut v = take_pat_list(&mut pats, ci - 1);
                let ghost mid = pats@;
                let ghost v0 = v@;
                v.push((ast, aid));
                let ghost vv = v@;
                pats[ci - 1] = v;
                proof {
                    assert(vv == v0.push(vv[vv.len() - 1]));
                    assert(vv[vv.len() - 1].0 == orig[done].0);
                    lemma_regexs_size_push(v0, vv[vv.len() - 1]);
                    assert(pats@ =~= mid.update(ci - 1, v));
                    lemma_pats_size_update(mid, ci - 1, v);
                    assert(regexs_size(mid[ci - 1]@) == 0);
                    let ghost rule_cix0 = rule_cix;
                    let ghost rule_pe0 = rule_pe;
                    rule_cix = rule_cix.push(ci as int - 1);
                    rule_pe = rule_pe.push(v0.len() as int);
                    assert(v0 == pats0[ci - 1]@);
                    assert forall|m: int|
                        0 <= m < rule_cix.len() implies ((#[trigger] conds@[rule_cix[m]])@
                        == rule_cond(orig[m])) by {
                        if m < done {
                            assert(rule_cix[m] == rule_cix0[m]);
                        } else {
                            assert(rule_cix[m] == ci as int - 1);
                            assert(conds@[ci - 1]@ == condv);
                        }
                    }
                    assert forall|m: int|
                        0 <= m < rule_pe.len() implies (0 <= #[trigger] rule_pe[m] && rule_pe[m]
                        < pats@[rule_cix[m]]@.len() && pats@[rule_cix[m]]@[rule_pe[m]].0
                        == orig[m].0 && (pats@[rule_cix[m]]@[rule_pe[m]].1 as int) == rule_aid(
                        orig,
                        m,
                    )) by {
                        if m < done {
                            assert(rule_cix[m] == rule_cix0[m] && rule_pe[m] == rule_pe0[m]);
                            if rule_cix[m] == ci as int - 1 {
                                assert(pats@[rule_cix[m]]@ == vv);
                                assert(vv[rule_pe[m]] == v0[rule_pe[m]]);
                                assert(v0[rule_pe[m]] == pats0[rule_cix[m]]@[rule_pe[m]]);
                            } else {
                                assert(pats@[rule_cix[m]] == pats0[rule_cix[m]]);
                            }
                        } else {
                            assert(rule_cix[m] == ci as int - 1 && rule_pe[m] == v0.len() as int);
                            assert(pats@[rule_cix[m]]@ == vv);
                            assert(vv[v0.len() as int] == (orig[done].0, aid));
                        }
                    }
                }
            }
            proof {
                if ci != 0 {
                    assert(conds0[ci - 1]@ == condv);
                }
                lemma_conds_step(orig, done as int, conds0, conds@, ci == 0, condv);
                assert(rules_size_prefix(orig, done + 1) == rules_size_prefix(orig, done)
                    + orig[done].0.size());
                lemma_rules_size_mono(orig, done + 1, orig.len() as int);
            }
        }
        let mut auto: Vec<DFA> = Vec::new();
        let ghost conds_v = conds@;
        let nc = conds.len();
        proof {
            assert forall|m: int|
                0 <= m < rule_cix.len() implies ((#[trigger] conds_v[rule_cix[m]])@ == rule_cond(
                orig[m],
            )) by {
                assert(conds_v[rule_cix[m]] == conds@[rule_cix[m]]);
            }
        }
        proof {
            assert forall|j: int| 0 <= j < pats@.len() implies 2 * regexs_size(
                (#[trigger] pats@[j])@,
            ) + 1 <= usize::MAX by {
                lemma_pats_size_elem(pats@, j);
            }
        }
        let ghost pats_v = pats@;
        proof {
            assert forall|m: int|
                0 <= m < rule_pe.len() implies (0 <= #[trigger] rule_pe[m] && rule_pe[m]
                < pats_v[rule_cix[m]]@.len() && pats_v[rule_cix[m]]@[rule_pe[m]].0 == orig[m].0
                && (pats_v[rule_cix[m]]@[rule_pe[m]].1 as int) == rule_aid(orig, m)) by {
                assert(pats_v[rule_cix[m]] == pats@[rule_cix[m]]);
            }
        }
        let mut rpats = reverse_vec(pats);
        while rpats.len() > 0
            invariant
                auto@.len() + rpats@.len() == nc,
                nc == pats_v.len(),
                forall|j: int|
                    0 <= j < rpats@.len() ==> #[trigger] rpats@[j] == pats_v[pats_v.len() - 1
                        - j],
                forall|k: int, e: int, w: Seq<u8>|
                    #![trigger auto@[k], lang(pats_v[k]@[e].0, w)]
                    0 <= k < auto@.len() && 0 <= e < pats_v[k]@.len() && lang(pats_v[k]@[e].0, w)
                        ==> auto@[k].selected_action(w) is Some,
                acts@.len() <= orig.len(),
                acts@.len() == n_patterns(orig, orig.len() as int),
                keys@.len() == acts@.len(),
                rules_keyed(orig, orig.len() as int, keys@, rule_key),
                forall|m: int|
                    0 <= m < rule_key.len() ==> (#[trigger] acts@[rule_key[m]]).spec_has(
                        rule_cond(orig[m]),
                    ),
                atb_wf(acts@),
                forall|j: int, e: int|
                    #![trigger rpats@[j]@[e]]
                    0 <= j < rpats@.len() && 0 <= e < rpats@[j]@.len() ==> 1 <= rpats@[j]@[e].1
                        <= acts@.len(),
                forall|j: int|
                    0 <= j < rpats@.len() ==> 2 * regexs_size((#[trigger] rpats@[j])@) + 1
                        <= usize::MAX,
                forall|k: int| 0 <= k < auto@.len() ==> (#[trigger] auto@[k]).wf(),
                forall|k: int|
                    0 <= k < auto@.len() ==> (#[trigger] auto@[k]).actions_bounded(
                        acts@.len() as int,
                    ),
            decreases rpats@.len(),
        {
            let patlist = rpats.pop().unwrap();
            let ghost plv = patlist@;
            proof {
                assert(plv == pats_v[auto@.len() as int]@);
            }
            let nfa = NFA::build_nfa(patlist);
            let ghost acts_pre = acts@;
            proof {
                assert forall|m: int|
                    0 <= m < rule_key.len() implies (#[trigger] acts_pre[rule_key[m]]).spec_has(
                    rule_cond(orig[m]),
                ) by {
                    assert(0 <= rule_key[m] < acts@.len());
                    assert(acts_pre[rule_key[m]] == acts@[rule_key[m]]);
                }
            }
            let d0 = DFA::new_from_nfa(&nfa, &mut acts);
            proof {
                assert forall|m: int|
                    0 <= m < rule_key.len() implies (#[trigger] acts@[rule_key[m]]).spec_has(
                    rule_cond(orig[m]),
                ) by {
                    assert(0 <= rule_key[m] < acts_pre.len());
                    assert(acts_pre[rule_key[m]].spec_has(rule_cond(orig[m])));
                }
            }
            let dfa = d0.minimize();
            proof {
                assert(d0.actions_bounded(acts@.len() as int));
                assert(dfa.actions_bounded(acts@.len() as int));
                assert forall|e: int, w: Seq<u8>|
                    0 <= e < plv.len() && #[trigger] lang(plv[e].0, w) implies dfa.selected_action(
                    w,
                ) is Some by {
                    assert(crate::nfa::reaches_in(
                        nfa.states@,
                        0,
                        nfa.states@.len() - 1,
                        nfa.initial as int,
                        nfa.finals@[e] as int,
                        w,
                    ));
                    assert(crate::nfa::has_id(nfa.finals@, nfa.finals@[e] as int)) by {
                        assert(0 <= e < nfa.finals@.len());
                    }
                    assert(nfa.accepts(w));
                    crate::dfa::lemma_determinize_complete(nfa, d0, w);
                    assert(d0.selected_action(w) is Some);
                    assert(dfa.selected_action(w) == d0.selected_action(w));
                }
            }
            let ghost auto0 = auto@;
            auto.push(dfa);
            proof {
                assert forall|k: int, e: int, w: Seq<u8>|
                    #![trigger auto@[k], lang(pats_v[k]@[e].0, w)]
                    0 <= k < auto@.len() && 0 <= e < pats_v[k]@.len() && lang(pats_v[k]@[e].0, w)
                        implies auto@[k].selected_action(w) is Some by {
                    if k < auto0.len() {
                        assert(auto@[k] == auto0[k]);
                        assert(auto0[k].selected_action(w) is Some);
                    } else {
                        assert(auto@[k] == dfa);
                    }
                }
            }
        }
        let ghost auto_v = auto@;
        proof {
            assert forall|k: int, e: int, w: Seq<u8>|
                #![trigger auto_v[k], lang(pats_v[k]@[e].0, w)]
                0 <= k < auto_v.len() && 0 <= e < pats_v[k]@.len() && lang(pats_v[k]@[e].0, w)
                    implies auto_v[k].selected_action(w) is Some by {
                assert(auto_v[k] == auto@[k]);
            }
        }
        let l = Lexer { auto, actions: acts, conditions: conds };
        proof {
            assert(orig == rules@);
            assert(l.auto@ == auto_v);
            assert(l.conditions@ == conds_v);
            assert forall|m: int, w: Seq<u8>|
                0 <= m < rules@.len() && #[trigger] lang(rules@[m].0, w) implies exists|k: int|
                0 <= k < l.auto@.len() && (#[trigger] l.auto@[k]).selected_action(w) is Some
                    && l.conditions@[k]@ == rule_cond(rules@[m]) by {
                let k = rule_cix[m];
                let e = rule_pe[m];
                assert(0 <= k < nc);
                assert(auto_v.len() == nc);
                assert(pats_v[k]@[e].0 == orig[m].0);
                assert(lang(pats_v[k]@[e].0, w));
                assert(auto_v[k].selected_action(w) is Some);
                assert(l.auto@[k] == auto_v[k]);
                assert(l.conditions@[k] == conds_v[k]);
                assert(conds_v[k]@ == rule_cond(orig[m]));
                assert(0 <= k < l.auto@.len() && l.auto@[k].selected_action(w) is Some
                    && l.conditions@[k]@ == rule_cond(rules@[m]));
            }
            assert forall|m: int| #![trigger rule_aid(rules@, m)]
                0 <= m < rules@.len() implies 1 <= rule_aid(rules@, m) <= l.actions@.len() by {
                assert(0 <= rule_key[m] < l.actions@.len());
                assert(rule_key[m] + 1 == rule_aid(orig, m));
                assert(rule_aid(rules@, m) == rule_aid(orig, m));
            }
            assert forall|m: int|
                0 <= m < rules@.len() implies (#[trigger] l.actions@[rule_aid(rules@, m)
                - 1]).spec_has(rule_cond(rules@[m])) by {
                assert(0 <= rule_key[m] < l.actions@.len());
                assert(rule_key[m] + 1 == rule_aid(orig, m));
                assert(rule_aid(rules@, m) == rule_aid(orig, m));
                assert(l.actions@[rule_key[m]].spec_has(rule_cond(orig[m])));
            }
        }
        l
    }
}

} // verus!
