//! Action records.
//!
//! An action id names one user-supplied action.  Its record maps each start
//! condition that declares a pattern with this id to the code text to run
//! when that pattern matches.  One id can carry different code per
//! condition: identical patterns declared in several conditions share one
//! id, and overlapping patterns inside one condition have their records
//! merged with the earlier-declared pattern winning per condition.

use vstd::prelude::*;

verus! {

/// True when the condition keys of `s` are pairwise distinct.
pub open spec fn codes_wf(s: Seq<(String, String)>) -> bool {
    forall|i: int, j: int| 0 <= i < j < s.len() ==> (#[trigger] s[i]).0@ != (#[trigger] s[j]).0@
}

/// True when some entry of `s` has condition key `k`.
pub open spec fn codes_has(s: Seq<(String, String)>, k: Seq<char>) -> bool {
    exists|i: int| 0 <= i < s.len() && (#[trigger] s[i]).0@ == k
}

/// The code text stored under condition key `k`; meaningful when the keys
/// are distinct and `k` is present.
pub open spec fn codes_at(s: Seq<(String, String)>, k: Seq<char>) -> Seq<char> {
    s[choose|i: int| 0 <= i < s.len() && (#[trigger] s[i]).0@ == k].1@
}

/// With distinct keys, any entry holding key `k` holds the stored code.
pub proof fn lemma_codes_at(s: Seq<(String, String)>, k: Seq<char>, i: int)
    requires
        codes_wf(s),
        0 <= i < s.len(),
        s[i].0@ == k,
    ensures
        codes_has(s, k),
        codes_at(s, k) == s[i].1@,
{
    assert(codes_has(s, k));
    let j = choose|j: int| 0 <= j < s.len() && (#[trigger] s[j]).0@ == k;
    if i < j {
        assert(s[i].0@ != s[j].0@);
    } else if j < i {
        assert(s[j].0@ != s[i].0@);
    }
}

/// The code attached to one action id, keyed by start-condition name.
pub struct Action {
    /// Pairs of condition name and code text; condition names are distinct.
    pub codes: Vec<(String, String)>,
}

impl Action {
    /// The condition keys of the record are pairwise distinct.
    pub open spec fn wf(&self) -> bool {
        codes_wf(self.codes@)
    }

    /// The record has code for condition `k`.
    pub open spec fn spec_has(&self, k: Seq<char>) -> bool {
        codes_has(self.codes@, k)
    }

    /// The code the record stores for condition `k`.
    pub open spec fn spec_code(&self, k: Seq<char>) -> Seq<char> {
        codes_at(self.codes@, k)
    }

    /// A record carrying one condition's code.
    pub fn new(cond: String, code: String) -> (r: Action)
        ensures
            r.wf(),
            r.spec_has(cond@),
            r.spec_code(cond@) == code@,
            forall|k: Seq<char>| r.spec_has(k) ==> k == cond@,
    {
        let ghost cv = cond@;
        let ghost ov = code@;
        let mut codes: Vec<(String, String)> = Vec::new();
        codes.push((cond, code));
        let r = Action { codes };
        proof {
            assert(r.codes@[0].0@ == cv);
            lemma_codes_at(r.codes@, cv, 0);
        }
        r
    }

    /// The code stored for condition `cond`, if the record has any.
    pub fn get_code(&self, cond: &String) -> (r: Option<&String>)
        requires
            self.wf(),
        ensures
            match r {
                Some(s) => self.spec_has(cond@) && s@ == self.spec_code(cond@),
                None => !self.spec_has(cond@),
            },
    {
        let n = self.codes.len();
        let mut i: usize = 0;
        while i < n
            invariant
                n == self.codes@.len(),
                i <= n,
                self.wf(),
                forall|m: int| 0 <= m < i ==> (#[trigger] self.codes@[m]).0@ != cond@,
            decreases n - i,
        {
            if self.codes[i].0 == *cond {
                proof {
                    lemma_codes_at(self.codes@, cond@, i as int);
                }
                return Some(&self.codes[i].1);
            }
            i += 1;
        }
        None
    }

    /// The union of two records: every condition of `self` keeps its code,
    /// and conditions only `other` has are added with `other`'s code.  The
    /// caller lists the record of the earlier-declared pattern first, so
    /// that on a shared condition the earlier declaration wins.
    pub fn merge(&self, other: &Action) -> (r: Action)
        requires
            self.wf(),
            other.wf(),
        ensures
            r.wf(),
            forall|k: Seq<char>|
                #[trigger] self.spec_has(k) ==> r.spec_has(k) && r.spec_code(k) == self.spec_code(k),
            forall|k: Seq<char>|
                !self.spec_has(k) && #[trigger] other.spec_has(k) ==> r.spec_has(k) && r.spec_code(
                    k,
                ) == other.spec_code(k),
            forall|k: Seq<char>| #[trigger] r.spec_has(k) ==> self.spec_has(k) || other.spec_has(k),
    {
        let sn = self.codes.len();
        let mut out: Vec<(String, String)> = Vec::new();
        let mut i: usize = 0;
        while i < sn
            invariant
                sn == self.codes@.len(),
                i <= sn,
                out@.len() == i,
                forall|m: int| 0 <= m < i ==> out@[m] == self.codes@[m],
            decreases sn - i,
        {
            let c = self.codes[i].0.clone();
            let s = self.codes[i].1.clone();
            out.push((c, s));
            i += 1;
        }
        proof {
            assert(out@ =~= self.codes@);
        }
        let on = other.codes.len();
        let mut j: usize = 0;
        while j < on
            invariant
                on == other.codes@.len(),
                self.wf(),
                other.wf(),
                j <= on,
                codes_wf(out@),
                out@.len() >= sn,
                sn == self.codes@.len(),
                out@.subrange(0, sn as int) == self.codes@,
                forall|m: int|
                    sn <= m < out@.len() ==> !codes_has(self.codes@, (#[trigger] out@[m]).0@),
                forall|m: int| #![trigger out@[m]]
                    sn <= m < out@.len() ==> exists|p: int|
                        0 <= p < j && #[trigger] other.codes@[p] == out@[m],
                forall|p: int|
                    0 <= p < j && !codes_has(self.codes@, (#[trigger] other.codes@[p]).0@)
                        ==> exists|m: int| 0 <= m < out@.len() && #[trigger] out@[m]
                        == other.codes@[p],
            decreases on - j,
        {
            let key_there = has_cond(&self.codes, &other.codes[j].0);
            if !key_there {
                let c = other.codes[j].0.clone();
                let s = other.codes[j].1.clone();
                proof {
                    // the pushed key is new: it is absent from `self`, and
                    // every later entry of `out` came from an earlier,
                    // hence different, key of `other`
                    assert forall|m: int| 0 <= m < out@.len() implies out@[m].0@ != c@ by {
                        if m < sn {
                            assert(out@[m] == self.codes@[m]);
                            assert(codes_has(self.codes@, self.codes@[m].0@));
                        } else {
                            let p = choose|p: int|
                                0 <= p < j && #[trigger] other.codes@[p] == out@[m];
                            assert(other.codes@[p].0@ != other.codes@[j as int].0@);
                        }
                    }
                }
                let ghost out0 = out@;
                out.push((c, s));
                proof {
                    let m1 = out@.len() - 1;
                    assert(out@[m1] == other.codes@[j as int]);
                    assert forall|p: int|
                        0 <= p < j + 1 && !codes_has(self.codes@, (other.codes@[p]).0@)
                            implies exists|m: int| 0 <= m < out@.len() && #[trigger] out@[m]
                            == other.codes@[p] by {
                        if p == j as int {
                            assert(0 <= m1 < out@.len() && out@[m1] == other.codes@[p]);
                        } else {
                            let m0 = choose|m: int|
                                0 <= m < out0.len() && #[trigger] out0[m] == other.codes@[p];
                            assert(0 <= m0 < out@.len() && out@[m0] == other.codes@[p]);
                        }
                    }
                }
            } else {
                proof {
                    assert forall|p: int|
                        0 <= p < j + 1 && !codes_has(self.codes@, (other.codes@[p]).0@)
                            implies exists|m: int| 0 <= m < out@.len() && #[trigger] out@[m]
                            == other.codes@[p] by {
                        assert(p < j);
                    }
                }
            }
            j += 1;
        }
        let r = Action { codes: out };
        proof {
            assert forall|k: Seq<char>| #[trigger] self.spec_has(k) implies r.spec_has(k)
                && r.spec_code(k) == self.spec_code(k) by {
                let i0 = choose|i0: int|
                    0 <= i0 < self.codes@.len() && (#[trigger] self.codes@[i0]).0@ == k;
                assert(r.codes@[i0] == self.codes@[i0]);
                lemma_codes_at(r.codes@, k, i0);
                lemma_codes_at(self.codes@, k, i0);
            }
            assert forall|k: Seq<char>|
                !self.spec_has(k) && #[trigger] other.spec_has(k) implies r.spec_has(k)
                && r.spec_code(k) == other.spec_code(k) by {
                let p0 = choose|p0: int|
                    0 <= p0 < other.codes@.len() && (#[trigger] other.codes@[p0]).0@ == k;
                lemma_codes_at(other.codes@, k, p0);
                let m0 = choose|m0: int|
                    0 <= m0 < r.codes@.len() && #[trigger] r.codes@[m0] == other.codes@[p0];
                lemma_codes_at(r.codes@, k, m0);
            }
            assert forall|k: Seq<char>| #[trigger] r.spec_has(k) implies self.spec_has(k)
                || other.spec_has(k) by {
                let m0 = choose|m0: int|
                    0 <= m0 < r.codes@.len() && (#[trigger] r.codes@[m0]).0@ == k;
                if m0 < sn {
                    assert(r.codes@[m0] == self.codes@[m0]);
                    assert(codes_has(self.codes@, k));
                } else {
                    let p0 = choose|p0: int|
                        0 <= p0 < other.codes@.len() && #[trigger] other.codes@[p0] == r.codes@[m0];
                    assert(codes_has(other.codes@, k));
                }
            }
        }
        r
    }
}

/// True when some entry of `codes` has condition key `cond`.
pub fn has_cond(codes: &Vec<(String, String)>, cond: &String) -> (b: bool)
    ensures
        b == codes_has(codes@, cond@),
{
    let n = codes.len();
    let mut i: usize = 0;
    while i < n
        invariant
            n == codes@.len(),
            i <= n,
            forall|m: int| 0 <= m < i ==> (#[trigger] codes@[m]).0@ != cond@,
        decreases n - i,
    {
        if codes[i].0 == *cond {
            return true;
        }
        i += 1;
    }
    false
}

} // verus!
