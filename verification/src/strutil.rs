//! Character-sequence utilities: string/char-vector conversion, separator
//! splitting, and decimal integer parsing, each pinned to a spec-level
//! counterpart.

use vstd::prelude::*;

verus! {

/// Relies on std's String::push: appends the given character to the end of
/// the string.
#[verifier::external_body]
fn push_char(s: &mut String, c: char)
    ensures
        final(s)@ == old(s)@.push(c),
{
    s.push(c)
}

/// Builds the string whose characters are exactly the given vector.
pub fn chars_to_string(v: &Vec<char>) -> (r: String)
    ensures
        r@ == v@,
{
    let mut r = String::new();
    let mut i: usize = 0;
    while i < v.len()
        invariant
            i <= v.len(),
            r@ == v@.subrange(0, i as int),
        decreases v.len() - i,
    {
        push_char(&mut r, v[i]);
        i = i + 1;
        proof {
            assert(r@ =~= v@.subrange(0, i as int));
        }
    }
    proof {
        assert(v@.subrange(0, v@.len() as int) =~= v@);
    }
    r
}

/// Collects the characters of a string slice into a vector.
pub fn str_to_chars(s: &str) -> (r: Vec<char>)
    ensures
        r@ == s@,
{
    let n = s.unicode_len();
    let mut r: Vec<char> = Vec::new();
    let mut i: usize = 0;
    while i < n
        invariant
            i <= n,
            n == s@.len(),
            r@ == s@.subrange(0, i as int),
        decreases n - i,
    {
        r.push(s.get_char(i));
        i = i + 1;
        proof {
            assert(r@ =~= s@.subrange(0, i as int));
        }
    }
    proof {
        assert(s@.subrange(0, s@.len() as int) =~= s@);
    }
    r
}

/// Splitting a character sequence at every occurrence of a separator:
/// always one more piece than there are separators, pieces in order,
/// separators dropped. An empty input is a single empty piece.
pub open spec fn spec_split(s: Seq<char>, sep: char) -> Seq<Seq<char>>
    decreases s.len(),
{
    if s.len() == 0 {
        seq![Seq::<char>::empty()]
    } else if s[0] == sep {
        seq![Seq::<char>::empty()] + spec_split(s.skip(1), sep)
    } else {
        let rest = spec_split(s.skip(1), sep);
        seq![seq![s[0]] + rest[0]] + rest.skip(1)
    }
}

/// A split result is never empty.
pub proof fn lemma_split_len(s: Seq<char>, sep: char)
    ensures
        spec_split(s, sep).len() >= 1,
    decreases s.len(),
{
    if s.len() != 0 {
        lemma_split_len(s.skip(1), sep);
    }
}

/// Attaching a prefix to the first piece of a split.
spec fn glue(cur: Seq<char>, parts: Seq<Seq<char>>) -> Seq<Seq<char>> {
    seq![cur + parts[0]] + parts.skip(1)
}

/// Splits a character vector at every occurrence of `sep`.
pub fn split_chars(s: &Vec<char>, sep: char) -> (r: Vec<Vec<char>>)
    ensures
        r.deep_view() == spec_split(s@, sep),
{
    let mut done: Vec<Vec<char>> = Vec::new();
    let mut cur: Vec<char> = Vec::new();
    let mut i: usize = 0;
    proof {
        lemma_split_len(s@, sep);
        assert(s@.skip(0) =~= s@);
        let parts = spec_split(s@, sep);
        assert(Seq::<char>::empty() + parts[0] =~= parts[0]);
        assert(done.deep_view() + glue(Seq::<char>::empty(), parts) =~~= parts);
    }
    while i < s.len()
        invariant
            i <= s.len(),
            spec_split(s@, sep) == done.deep_view() + glue(cur@, spec_split(s@.skip(i as int), sep)),
        decreases s.len() - i,
    {
        proof {
            lemma_split_len(s@.skip(i as int + 1), sep);
            assert(s@.skip(i as int).skip(1) =~= s@.skip(i as int + 1));
            assert(s@.skip(i as int)[0] == s@[i as int]);
        }
        if s[i] == sep {
            let ghost prev_done = done.deep_view();
            let ghost prev_cur = cur@;
            done.push(cur);
            cur = Vec::new();
            i = i + 1;
            proof {
                let rest = spec_split(s@.skip(i as int), sep);
                assert(done.deep_view() =~~= prev_done.push(prev_cur));
                assert(glue(prev_cur, seq![Seq::<char>::empty()] + rest)
                    =~~= seq![prev_cur] + rest);
                assert(cur@ + rest[0] =~= rest[0]);
                assert(glue(cur@, rest) =~~= rest);
                assert(prev_done + (seq![prev_cur] + rest) =~~= done.deep_view() + rest);
            }
        } else {
            let c = s[i];
            let ghost prev_cur = cur@;
            cur.push(c);
            i = i + 1;
            proof {
                let rest = spec_split(s@.skip(i as int), sep);
                assert(prev_cur + (seq![c] + rest[0]) =~= prev_cur.push(c) + rest[0]);
                assert((seq![seq![c] + rest[0]] + rest.skip(1)).skip(1) =~= rest.skip(1));
                assert(glue(prev_cur, seq![seq![c] + rest[0]] + rest.skip(1))
                    =~~= glue(prev_cur.push(c), rest));
            }
        }
    }
    proof {
        assert(s@.skip(s@.len() as int) =~= Seq::<char>::empty());
        let rest = spec_split(s@.skip(s@.len() as int), sep);
        assert(cur@ + Seq::<char>::empty() =~= cur@);
        assert(rest.skip(1) =~= Seq::<Seq<char>>::empty());
        assert(glue(cur@, rest) =~~= seq![cur@]);
    }
    let ghost prev_done = done.deep_view();
    let ghost prev_cur = cur@;
    done.push(cur);
    proof {
        assert(done.deep_view() =~~= prev_done.push(prev_cur));
        assert(prev_done + seq![prev_cur] =~~= prev_done.push(prev_cur));
    }
    done
}

/// Whether a character is a decimal digit.
pub open spec fn spec_is_digit(c: char) -> bool {
    48 <= c as u32 <= 57
}

/// Every character of the sequence is a decimal digit.
pub open spec fn all_digits(s: Seq<char>) -> bool {
    forall|i: int| 0 <= i < s.len() ==> spec_is_digit(s[i])
}

/// The value of a digit sequence read as a decimal numeral.
pub open spec fn digits_val(s: Seq<char>) -> int
    decreases s.len(),
{
    if s.len() == 0 {
        0
    } else {
        digits_val(s.drop_last()) * 10 + (s.last() as u32 - 48)
    }
}

/// A digit numeral's value is non-negative.
pub proof fn lemma_digits_val_nonneg(s: Seq<char>)
    requires
        all_digits(s),
    ensures
        digits_val(s) >= 0,
    decreases s.len(),
{
    if s.len() > 0 {
        assert(all_digits(s.drop_last()));
        lemma_digits_val_nonneg(s.drop_last());
    }
}

/// A numeral is worth at least any of its prefixes.
pub proof fn lemma_digits_val_prefix(s: Seq<char>, i: int)
    requires
        all_digits(s),
        0 <= i <= s.len(),
    ensures
        digits_val(s) >= digits_val(s.subrange(0, i)),
    decreases s.len() - i,
{
    if i < s.len() {
        let t = s.subrange(0, i + 1);
        assert(t.drop_last() =~= s.subrange(0, i));
        assert(all_digits(s.subrange(0, i)));
        lemma_digits_val_nonneg(s.subrange(0, i));
        assert(digits_val(t) == digits_val(s.subrange(0, i)) * 10 + (t.last() as u32 - 48));
        assert(digits_val(t) >= digits_val(s.subrange(0, i)));
        lemma_digits_val_prefix(s, i + 1);
        assert(s.subrange(0, s.len() as int) =~= s);
    } else {
        assert(s.subrange(0, s.len() as int) =~= s);
    }
}

/// What parsing a signed decimal numeral yields: an optional sign, then at
/// least one digit, and a value within the signed 32-bit range; anything
/// else is rejected.
pub open spec fn spec_parse_i32(s: Seq<char>) -> Option<int> {
    let negative = s.len() > 0 && s[0] == '-';
    let signed = s.len() > 0 && (s[0] == '-' || s[0] == '+');
    let body = if signed {
        s.skip(1)
    } else {
        s
    };
    if body.len() >= 1 && all_digits(body) {
        let v = if negative {
            -digits_val(body)
        } else {
            digits_val(body)
        };
        if -0x8000_0000 <= v <= 0x7fff_ffff {
            Some(v)
        } else {
            None
        }
    } else {
        None
    }
}

/// Parses a signed decimal numeral, exactly as [`spec_parse_i32`] reads it.
pub fn parse_i32(s: &Vec<char>) -> (r: Option<i32>)
    ensures
        match r {
            Some(v) => spec_parse_i32(s@) == Some(v as int),
            None => spec_parse_i32(s@) is None,
        },
{
    let n = s.len();
    let mut i: usize = 0;
    let mut negative = false;
    if n > 0 && (s[0] == '-' || s[0] == '+') {
        negative = s[0] == '-';
        i = 1;
    }
    let start = i;
    let ghost body = s@.skip(start as int);
    proof {
        if start == 0 {
            assert(body =~= s@);
        }
    }
    if i >= n {
        // an empty numeral, or a bare sign
        return None;
    }
    let mut acc: u64 = 0;
    while i < n
        invariant
            start <= i <= n,
            start < n,
            n == s@.len(),
            start == if s@.len() > 0 && (s@[0] == '-' || s@[0] == '+') {
                1int
            } else {
                0int
            },
            negative == (s@.len() > 0 && s@[0] == '-'),
            body == s@.skip(start as int),
            all_digits(body.subrange(0, i - start)),
            acc == digits_val(body.subrange(0, i - start)),
            acc <= 0x8000_0000,
        decreases n - i,
    {
        let c = s[i];
        let cu = c as u32;
        if cu < 48 || cu > 57 {
            proof {
                assert(body[i - start] == s@[i as int]);
                assert(!spec_is_digit(body[i - start]));
            }
            return None;
        }
        let d = cu - 48;
        acc = acc * 10 + (d as u64);
        i = i + 1;
        proof {
            let p = body.subrange(0, i - start);
            assert(p.drop_last() =~= body.subrange(0, i - start - 1));
            assert(p.last() == body[i - start - 1]);
            assert(body[i - start - 1] == s@[i - 1]);
            assert(spec_is_digit(p.last()));
            assert(all_digits(p));
            assert(digits_val(p) == acc);
        }
        if acc > 0x8000_0000 {
            proof {
                let spbody = if s@.len() > 0 && (s@[0] == '-' || s@[0] == '+') {
                    s@.skip(1)
                } else {
                    s@
                };
                assert(spbody == body);
                if all_digits(body) {
                    lemma_digits_val_prefix(body, i - start);
                    assert(digits_val(body) >= digits_val(body.subrange(0, i - start)));
                    assert(digits_val(body) > 0x7fff_ffff);
                    assert(-digits_val(body) < -0x8000_0000);
                }
                assert(spec_parse_i32(s@) is None);
            }
            return None;
        }
    }
    proof {
        assert(body.subrange(0, body.len() as int) =~= body);
    }
    if negative {
        Some((-(acc as i64)) as i32)
    } else {
        if acc > 0x7fff_ffff {
            return None;
        }
        Some(acc as i32)
    }
}

} // verus!
