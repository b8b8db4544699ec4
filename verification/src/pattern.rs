//! The wildcard pattern language of code searches: every literal character
//! of a pattern must match exactly, and `*` stands for one or more
//! arbitrary characters, anchored at both ends.

use vstd::prelude::*;

verus! {

/// Whether a pattern matches a text in full: an empty pattern matches only
/// the empty text, a literal head must equal the text's head, and a `*`
/// head consumes at least one text character.
pub open spec fn spec_pattern_matches(p: Seq<char>, t: Seq<char>) -> bool
    decreases p.len(),
{
    if p.len() == 0 {
        t.len() == 0
    } else if p[0] == '*' {
        exists|k: int| 1 <= k <= t.len() && spec_pattern_matches(p.skip(1), t.skip(k))
    } else {
        t.len() > 0 && t[0] == p[0] && spec_pattern_matches(p.skip(1), t.skip(1))
    }
}

/// Whether the suffixes of `p` from `pi` and of `t` from `ti` match.
#[verifier::loop_isolation(false)]
fn matches_from(p: &Vec<char>, pi: usize, t: &Vec<char>, ti: usize) -> (r: bool)
    requires
        pi <= p@.len(),
        ti <= t@.len(),
    ensures
        r == spec_pattern_matches(p@.skip(pi as int), t@.skip(ti as int)),
    decreases p@.len() - pi,
{
    let ghost ps = p@.skip(pi as int);
    let ghost ts = t@.skip(ti as int);
    if pi == p.len() {
        proof {
            assert(ps.len() == 0);
        }
        ti == t.len()
    } else {
        proof {
            assert(ps[0] == p@[pi as int]);
            assert(ps.skip(1) =~= p@.skip(pi as int + 1));
        }
        let c = p[pi];
        if c == '*' {
            let mut k: usize = ti;
            while k < t.len()
                invariant
                    ti <= k <= t@.len(),
                    ti <= t@.len(),
                    pi < p@.len(),
                    p@[pi as int] == '*',
                    forall|j: int|
                        1 <= j <= k - ti ==> !spec_pattern_matches(
                            p@.skip(pi as int + 1),
                            #[trigger] t@.skip(ti + j),
                        ),
                decreases t@.len() - k,
            {
                if matches_from(p, pi + 1, t, k + 1) {
                    proof {
                        assert(ts.skip(k + 1 - ti) =~= t@.skip(k as int + 1));
                        assert(spec_pattern_matches(ps.skip(1), ts.skip(k + 1 - ti)));
                        assert(1 <= k + 1 - ti <= ts.len());
                    }
                    return true;
                }
                k = k + 1;
            }
            proof {
                assert forall|j: int| 1 <= j <= ts.len() implies !spec_pattern_matches(
                    ps.skip(1),
                    ts.skip(j),
                ) by {
                    assert(ts.skip(j) =~= t@.skip(ti + j));
                }
            }
            false
        } else {
            if ti == t.len() {
                return false;
            }
            if t[ti] != c {
                proof {
                    assert(ts[0] == t@[ti as int]);
                }
                return false;
            }
            let r = matches_from(p, pi + 1, t, ti + 1);
            proof {
                assert(ts[0] == t@[ti as int]);
                assert(ts.skip(1) =~= t@.skip(ti as int + 1));
            }
            r
        }
    }
}

/// Whether the pattern matches the text in full.
pub fn pattern_matches(p: &Vec<char>, t: &Vec<char>) -> (r: bool)
    ensures
        r == spec_pattern_matches(p@, t@),
{
    let r = matches_from(p, 0, t, 0);
    proof {
        assert(p@.skip(0) =~= p@);
        assert(t@.skip(0) =~= t@);
    }
    r
}

/// The bare `*` pattern matches exactly the non-empty texts.
pub proof fn lemma_star_matches_nonempty(t: Seq<char>)
    ensures
        spec_pattern_matches(seq!['*'], t) <==> t.len() >= 1,
{
    let p = seq!['*'];
    if t.len() >= 1 {
        assert(p.skip(1) =~= Seq::<char>::empty());
        assert(t.skip(t.len() as int) =~= Seq::<char>::empty());
        assert(spec_pattern_matches(p.skip(1), t.skip(t.len() as int)));
    }
}

/// A pattern of literals followed by one `*` matches exactly the texts
/// that begin with those literals and continue with at least one more
/// character, anchored at both ends.
pub proof fn lemma_prefix_star_matches(lit: Seq<char>, t: Seq<char>)
    requires
        forall|i: int| 0 <= i < lit.len() ==> lit[i] != '*',
    ensures
        spec_pattern_matches(lit + seq!['*'], t) <==> (t.len() > lit.len() && t.subrange(
            0,
            lit.len() as int,
        ) == lit),
    decreases lit.len(),
{
    let p = lit + seq!['*'];
    if lit.len() == 0 {
        assert(p =~= seq!['*']);
        lemma_star_matches_nonempty(t);
        assert(t.subrange(0, 0) =~= lit);
    } else {
        assert(p[0] == lit[0]);
        assert(p.skip(1) =~= lit.skip(1) + seq!['*']);
        if t.len() > 0 && t[0] == lit[0] {
            lemma_prefix_star_matches(lit.skip(1), t.skip(1));
            assert(spec_pattern_matches(p, t) == spec_pattern_matches(p.skip(1), t.skip(1)));
            if t.len() > lit.len() && t.skip(1).subrange(0, lit.len() - 1) == lit.skip(1) {
                assert(t.subrange(0, lit.len() as int) =~= seq![t[0]] + t.skip(1).subrange(
                    0,
                    lit.len() - 1,
                ));
                assert(lit =~= seq![lit[0]] + lit.skip(1));
            }
            if t.len() > lit.len() && t.subrange(0, lit.len() as int) == lit {
                assert(t.skip(1).subrange(0, lit.len() - 1) =~= t.subrange(
                    0,
                    lit.len() as int,
                ).skip(1));
                assert(t.subrange(0, lit.len() as int).skip(1) =~= lit.skip(1));
            }
        } else {
            if t.len() > lit.len() && t.subrange(0, lit.len() as int) == lit {
                assert(t[0] == t.subrange(0, lit.len() as int)[0]);
            }
        }
    }
}

} // verus!
