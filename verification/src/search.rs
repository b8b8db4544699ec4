//! Wildcard code searches: scanning the table for entries whose active
//! code matches a pattern, ordered ascending by the display-order key.

use vstd::prelude::*;

use crate::db::CongkitDB;
use crate::db::PatternError;
use crate::db::lemma_last_entryv_unique;
use crate::pattern::pattern_matches;
use crate::pattern::spec_pattern_matches;
use crate::strutil::str_to_chars;

verus! {

broadcast use vstd::seq_lib::group_to_multiset_ensures;

/// What a search returns for a pattern: every matching entry's traditional
/// glyph exactly once, in an order non-decreasing in the entries' order
/// keys; ties in the order key are left unspecified.
pub open spec fn search_post(db: CongkitDB, pat: Seq<char>, out: Seq<char>) -> bool {
    let dv = db.entries.deep_view();
    &&& forall|i: int|
        0 <= i < dv.len() && spec_pattern_matches(pat, (#[trigger] dv[i]).code) ==> out.contains(
            dv[i].traditional,
        )
    &&& forall|j: int|
        0 <= j < out.len() ==> db.spec_has_char(#[trigger] out[j]) && spec_pattern_matches(
            pat,
            db.spec_entry(out[j]).code,
        )
    &&& forall|j: int, k: int| 0 <= j < k < out.len() ==> out[j] != out[k]
    &&& forall|j: int, k: int|
        0 <= j < k < out.len() ==> db.spec_entry(#[trigger] out[j]).order <= db.spec_entry(
            #[trigger] out[k],
        ).order
}

/// Sorts glyph/order pairs ascending by the order key, keeping exactly the
/// same pairs.
#[verifier::loop_isolation(false)]
fn sort_pairs(input: Vec<(char, i32)>) -> (r: Vec<(char, i32)>)
    ensures
        r@.to_multiset() == input@.to_multiset(),
        r@.len() == input@.len(),
        forall|j: int, k: int| 0 <= j < k < r@.len() ==> r@[j].1 <= r@[k].1,
{
    let mut v = input;
    let mut out: Vec<(char, i32)> = Vec::new();
    proof {
        assert(out@.to_multiset().add(v@.to_multiset()) =~= input@.to_multiset());
    }
    while v.len() > 0
        invariant
            out@.to_multiset().add(v@.to_multiset()) == input@.to_multiset(),
            out@.len() + v@.len() == input@.len(),
            forall|j: int, k: int| 0 <= j < k < out@.len() ==> out@[j].1 <= out@[k].1,
            forall|j: int, k: int|
                0 <= j < out@.len() && 0 <= k < v@.len() ==> out@[j].1 <= v@[k].1,
        decreases v@.len(),
    {
        let mut mi: usize = 0;
        let mut i: usize = 1;
        while i < v.len()
            invariant
                mi < i <= v@.len(),
                forall|j: int| 0 <= j < i ==> v@[mi as int].1 <= v@[j].1,
            decreases v@.len() - i,
        {
            if v[i].1 < v[mi].1 {
                mi = i;
            }
            i = i + 1;
        }
        let ghost old_v = v@;
        let ghost old_out = out@;
        let x = v.remove(mi);
        out.push(x);
        proof {
            assert(v@.to_multiset() =~= old_v.to_multiset().remove(x));
            assert(out@.to_multiset() =~= old_out.to_multiset().insert(x));
            assert(old_v.to_multiset().count(x) > 0) by {
                assert(old_v.contains(x)) by {
                    assert(old_v[mi as int] == x);
                }
            }
            assert(out@.to_multiset().add(v@.to_multiset()) =~= old_out.to_multiset().add(
                old_v.to_multiset(),
            ));
            assert forall|j: int, k: int|
                0 <= j < out@.len() && 0 <= k < v@.len() implies out@[j].1 <= v@[k].1 by {
                assert(v@[k] == if k < mi {
                    old_v[k]
                } else {
                    old_v[k + 1]
                });
                if j < out@.len() - 1 {
                    assert(out@[j] == old_out[j]);
                } else {
                    assert(out@[j] == x);
                }
            }
            assert forall|j: int, k: int| 0 <= j < k < out@.len() implies out@[j].1
                <= out@[k].1 by {
                if k == out@.len() - 1 {
                    assert(out@[j] == old_out[j]);
                    assert(old_out.len() == 0 || out@[j].1 <= old_v[mi as int].1);
                }
            }
        }
    }
    out
}

impl CongkitDB {
    /// The traditional glyphs of every entry whose active code matches the
    /// wildcard pattern, sorted ascending by the order key. The library's
    /// pattern compiler accepts every pattern, so the result is always
    /// `Ok`.
    #[verifier::loop_isolation(false)]
    pub fn get_characters(&self, code: &str) -> (r: Result<Vec<char>, PatternError>)
        requires
            self.wf(),
        ensures
            r is Ok,
            search_post(*self, code@, r->Ok_0@),
    {
        let pat = str_to_chars(code);
        let ghost dv = self.entries.deep_view();
        proof {
            assert forall|j: int, k: int| 0 <= j < k < dv.len() implies (
            #[trigger] dv[j]).traditional != (#[trigger] dv[k]).traditional by {
                assert(dv[j] == self.entries@[j]@);
                assert(dv[k] == self.entries@[k]@);
            }
        }
        let mut pairs: Vec<(char, i32)> = Vec::new();
        let mut i: usize = 0;
        while i < self.entries.len()
            invariant
                i <= dv.len(),
                forall|k: int|
                    0 <= k < pairs@.len() ==> {
                        &&& self.spec_has_char((#[trigger] pairs@[k]).0)
                        &&& spec_pattern_matches(pat@, self.spec_entry(pairs@[k].0).code)
                        &&& self.spec_entry(pairs@[k].0).order == pairs@[k].1
                        &&& exists|idx: int|
                            0 <= idx < i && (#[trigger] dv[idx]).traditional == pairs@[k].0
                    },
                forall|k1: int, k2: int|
                    0 <= k1 < k2 < pairs@.len() ==> (#[trigger] pairs@[k1]).0 != (
                    #[trigger] pairs@[k2]).0,
                forall|idx: int|
                    0 <= idx < i && spec_pattern_matches(pat@, (#[trigger] dv[idx]).code)
                        ==> exists|k: int|
                        0 <= k < pairs@.len() && (#[trigger] pairs@[k]).0 == dv[idx].traditional,
            decreases dv.len() - i,
        {
            let ghost old_pairs = pairs@;
            let text = str_to_chars(self.entries[i].code.as_str());
            let matched = pattern_matches(&pat, &text);
            proof {
                assert(dv[i as int] == self.entries@[i as int]@);
                assert(text@ == dv[i as int].code);
            }
            if matched {
                let trad = self.entries[i].traditional;
                let order = self.entries[i].order;
                proof {
                    lemma_last_entryv_unique(dv, trad, i as int);
                    assert(self.spec_has_char(trad)) by {
                        assert(dv[i as int].traditional == trad);
                    }
                }
                pairs.push((trad, order));
            }
            i = i + 1;
            proof {
                assert forall|idx: int|
                    0 <= idx < i && spec_pattern_matches(
                        pat@,
                        (#[trigger] dv[idx]).code,
                    ) implies exists|k: int|
                    0 <= k < pairs@.len() && (#[trigger] pairs@[k]).0 == dv[idx].traditional by {
                    if idx == i - 1 {
                        assert(matched);
                        assert(pairs@[pairs@.len() - 1].0 == dv[idx].traditional);
                    } else {
                        let k = choose|k: int|
                            0 <= k < old_pairs.len() && (#[trigger] old_pairs[k]).0
                                == dv[idx].traditional;
                        assert(pairs@[k].0 == dv[idx].traditional);
                    }
                }
            }
        }
        let sorted = sort_pairs(pairs);
        proof {
            assert forall|k: int| 0 <= k < sorted@.len() implies pairs@.contains(
                #[trigger] sorted@[k],
            ) by {
                assert(sorted@.to_multiset().count(sorted@[k]) > 0);
            }
        }
        let mut out: Vec<char> = Vec::new();
        let mut j: usize = 0;
        while j < sorted.len()
            invariant
                j <= sorted@.len(),
                out@.len() == j,
                forall|k: int| 0 <= k < j ==> out@[k] == (#[trigger] sorted@[k]).0,
            decreases sorted@.len() - j,
        {
            out.push(sorted[j].0);
            j = j + 1;
        }
        proof {
            assert forall|k: int| 0 <= k < out@.len() implies self.spec_has_char(#[trigger] out@[k])
                && spec_pattern_matches(pat@, self.spec_entry(out@[k]).code) by {
                assert(pairs@.contains(sorted@[k]));
                let k0 = choose|k0: int| 0 <= k0 < pairs@.len() && pairs@[k0] == sorted@[k];
                assert(self.spec_has_char(pairs@[k0].0));
            }
            assert forall|idx: int|
                0 <= idx < dv.len() && spec_pattern_matches(
                    pat@,
                    (#[trigger] dv[idx]).code,
                ) implies out@.contains(dv[idx].traditional) by {
                let k = choose|k: int|
                    0 <= k < pairs@.len() && (#[trigger] pairs@[k]).0 == dv[idx].traditional;
                assert(pairs@.to_multiset().count(pairs@[k]) > 0);
                assert(sorted@.contains(pairs@[k]));
                let k2 = choose|k2: int| 0 <= k2 < sorted@.len() && sorted@[k2] == pairs@[k];
                assert(out@[k2] == dv[idx].traditional);
            }
            assert forall|j1: int, j2: int| 0 <= j1 < j2 < out@.len() implies out@[j1]
                != out@[j2] by {
                assert(pairs@.contains(sorted@[j1]));
                assert(pairs@.contains(sorted@[j2]));
                let k1 = choose|k1: int| 0 <= k1 < pairs@.len() && pairs@[k1] == sorted@[j1];
                let k2 = choose|k2: int| 0 <= k2 < pairs@.len() && pairs@[k2] == sorted@[j2];
                if out@[j1] == out@[j2] {
                    assert(pairs@[k1].0 == pairs@[k2].0);
                    assert(k1 == k2);
                    assert(sorted@[j1] == sorted@[j2]);
                    lemma_multiset_dup(pairs@, sorted@, j1, j2);
                    let (d1, d2) = choose|d1: int, d2: int|
                        0 <= d1 < d2 < pairs@.len() && pairs@[d1] == pairs@[d2];
                    assert(pairs@[d1].0 == pairs@[d2].0);
                }
            }
            assert forall|j1: int, j2: int| 0 <= j1 < j2 < out@.len() implies self.spec_entry(
                #[trigger] out@[j1],
            ).order <= self.spec_entry(#[trigger] out@[j2]).order by {
                assert(pairs@.contains(sorted@[j1]));
                assert(pairs@.contains(sorted@[j2]));
                let k1 = choose|k1: int| 0 <= k1 < pairs@.len() && pairs@[k1] == sorted@[j1];
                let k2 = choose|k2: int| 0 <= k2 < pairs@.len() && pairs@[k2] == sorted@[j2];
                assert(self.spec_entry(out@[j1]).order == sorted@[j1].1);
                assert(self.spec_entry(out@[j2]).order == sorted@[j2].1);
            }
        }
        Ok(out)
    }

    /// Searches one batch of patterns: one result slot per pattern, in
    /// input order, each slot exactly what [`Self::get_characters`] returns
    /// for its pattern. Every pattern compiles, so the result is always
    /// `Ok`.
    #[verifier::loop_isolation(false)]
    pub fn get_chars_mult(&self, codes: Vec<String>) -> (r: Result<
        Vec<(String, Vec<char>)>,
        PatternError,
    >)
        requires
            self.wf(),
        ensures
            r is Ok,
            r->Ok_0@.len() == codes@.len(),
            forall|i: int|
                0 <= i < codes@.len() ==> (#[trigger] r->Ok_0@[i]).0@ == codes@[i]@ && search_post(
                    *self,
                    codes@[i]@,
                    r->Ok_0@[i].1@,
                ),
    {
        let mut out: Vec<(String, Vec<char>)> = Vec::new();
        let mut i: usize = 0;
        while i < codes.len()
            invariant
                i <= codes@.len(),
                out@.len() == i,
                forall|j: int|
                    0 <= j < i ==> (#[trigger] out@[j]).0@ == codes@[j]@ && search_post(
                        *self,
                        codes@[j]@,
                        out@[j].1@,
                    ),
            decreases codes@.len() - i,
        {
            let chars = match self.get_characters(codes[i].as_str()) {
                Ok(chars) => chars,
                Err(_) => {
                    proof {
                        assert(false);
                    }
                    return Err(PatternError);
                },
            };
            out.push((codes[i].clone(), chars));
            i = i + 1;
        }
        Ok(out)
    }
}

/// A value held at two positions of one sequence is also held at two
/// positions of any sequence with the same multiset.
proof fn lemma_multiset_dup(pairs: Seq<(char, i32)>, sorted: Seq<(char, i32)>, j1: int, j2: int)
    requires
        pairs.to_multiset() == sorted.to_multiset(),
        0 <= j1 < j2 < sorted.len(),
        sorted[j1] == sorted[j2],
    ensures
        exists|k1: int, k2: int| 0 <= k1 < k2 < pairs.len() && pairs[k1] == pairs[k2],
{
    let x = sorted[j1];
    let removed = sorted.remove(j2);
    assert(removed.to_multiset() =~= sorted.to_multiset().remove(x));
    assert(removed[j1] == x);
    assert(removed.contains(x));
    assert(removed.to_multiset().count(x) > 0);
    assert(sorted.to_multiset().count(x) >= 2);
    assert(pairs.to_multiset().count(x) >= 2);
    assert(pairs.contains(x));
    let k = choose|k: int| 0 <= k < pairs.len() && pairs[k] == x;
    let premoved = pairs.remove(k);
    assert(premoved.to_multiset() =~= pairs.to_multiset().remove(x));
    assert(premoved.to_multiset().count(x) >= 1);
    assert(premoved.contains(x));
    let i = choose|i: int| 0 <= i < premoved.len() && premoved[i] == x;
    if i < k {
        assert(pairs[i] == x);
        assert(0 <= i < k < pairs.len() && pairs[i] == pairs[k]);
    } else {
        assert(pairs[i + 1] == x);
        assert(0 <= k < i + 1 < pairs.len() && pairs[k] == pairs[i + 1]);
    }
}

} // verus!
