//! The textual table grammar: newline-delimited records, comment and blank
//! lines skipped, each record space-delimited into exactly fifteen
//! positional fields.

use vstd::prelude::*;

use crate::entry::Entry;
use crate::entry::EntryView;
use crate::strutil::chars_to_string;
use crate::strutil::parse_i32;
use crate::strutil::spec_parse_i32;
use crate::strutil::spec_split;
use crate::strutil::split_chars;

verus! {

/// A malformed table line: wrong field count, an empty character field, or
/// an unparsable order integer.
#[derive(Debug, Clone, Copy, PartialEq, Eq, Structural)]
pub struct ParseError;

/// A line the table reader ignores: empty, or opening with a `# ` comment
/// marker.
pub open spec fn line_skipped(line: Seq<char>) -> bool {
    line.len() == 0 || (line.len() >= 2 && line[0] == '#' && line[1] == ' ')
}

/// What one table line yields: the two glyphs, nine flags, the two code
/// variants, the shortcut and the order key, with the active code left
/// empty; or nothing, if the line is malformed.
pub open spec fn spec_parse_line(line: Seq<char>) -> Option<EntryView> {
    let fields = spec_split(line, ' ');
    if fields.len() == 15 && fields[0].len() >= 1 && fields[1].len() >= 1 && spec_parse_i32(
        fields[14],
    ) is Some {
        Some(
            EntryView {
                traditional: fields[0][0],
                simplified: fields[1][0],
                chinese: fields[2] == seq!['1'],
                big5: fields[3] == seq!['1'],
                hkscs: fields[4] == seq!['1'],
                taiwanese: fields[5] == seq!['1'],
                kanji: fields[6] == seq!['1'],
                hiragana: fields[7] == seq!['1'],
                katakana: fields[8] == seq!['1'],
                punctuation: fields[9] == seq!['1'],
                misc: fields[10] == seq!['1'],
                v3: fields[11],
                v5: fields[12],
                code: Seq::empty(),
                shortcut: fields[13],
                order: spec_parse_i32(fields[14]).unwrap(),
            },
        )
    } else {
        None
    }
}

/// What a sequence of lines yields: the entries of the unskipped lines in
/// order, or nothing if any unskipped line is malformed.
pub open spec fn spec_parse_table(lines: Seq<Seq<char>>) -> Option<Seq<EntryView>>
    decreases lines.len(),
{
    if lines.len() == 0 {
        Some(Seq::empty())
    } else {
        let rest = spec_parse_table(lines.drop_last());
        if line_skipped(lines.last()) {
            rest
        } else {
            match spec_parse_line(lines.last()) {
                Option::None => None,
                Option::Some(e) => match rest {
                    Option::None => None,
                    Option::Some(t) => Some(t.push(e)),
                },
            }
        }
    }
}

/// What a whole table text yields under a filter: every well-formed line's
/// entry that passes the filter, in line order; or nothing on the first
/// malformed line, whether or not the filter would have kept it.
pub open spec fn spec_to_entries(txt: Seq<char>, f: crate::filter::CongkitFilter) -> Option<
    Seq<EntryView>,
> {
    match spec_parse_table(spec_split(txt, '\n')) {
        Option::None => None,
        Option::Some(es) => Some(crate::entry::filter_passes(es, f)),
    }
}

/// One unskipped, malformed line spoils the whole table.
proof fn lemma_parse_table_fails(lines: Seq<Seq<char>>, i: int)
    requires
        0 <= i < lines.len(),
        !line_skipped(lines[i]),
        spec_parse_line(lines[i]) is None,
    ensures
        spec_parse_table(lines) is None,
    decreases lines.len(),
{
    if i == lines.len() - 1 {
    } else {
        assert(lines.drop_last()[i] == lines[i]);
        lemma_parse_table_fails(lines.drop_last(), i);
    }
}

/// Whether a field is the single character `1`, the true mark of a flag.
fn field_is_one(f: &Vec<char>) -> (r: bool)
    ensures
        r == (f@ == seq!['1']),
{
    let r = f.len() == 1 && f[0] == '1';
    proof {
        if r {
            assert(f@ =~= seq!['1']);
        }
    }
    r
}

/// Parses one table line, exactly as [`spec_parse_line`] reads it.
fn parse_line(line: &Vec<char>) -> (r: Option<Entry>)
    ensures
        match r {
            Some(e) => spec_parse_line(line@) == Some(e@),
            None => spec_parse_line(line@) is None,
        },
{
    let fields = split_chars(line, ' ');
    let ghost fv = spec_split(line@, ' ');
    proof {
        assert(fields.deep_view() == fv);
        assert(fields@.len() == fv.len());
        assert(forall|k: int| 0 <= k < fields@.len() ==> #[trigger] fields@[k]@ == fv[k]);
    }
    if fields.len() != 15 {
        return None;
    }
    if fields[0].len() == 0 || fields[1].len() == 0 {
        return None;
    }
    let order = match parse_i32(&fields[14]) {
        Some(v) => v,
        None => {
            return None;
        },
    };
    let e = Entry {
        traditional: fields[0][0],
        simplified: fields[1][0],
        chinese: field_is_one(&fields[2]),
        big5: field_is_one(&fields[3]),
        hkscs: field_is_one(&fields[4]),
        taiwanese: field_is_one(&fields[5]),
        kanji: field_is_one(&fields[6]),
        hiragana: field_is_one(&fields[7]),
        katakana: field_is_one(&fields[8]),
        punctuation: field_is_one(&fields[9]),
        misc: field_is_one(&fields[10]),
        v3: chars_to_string(&fields[11]),
        v5: chars_to_string(&fields[12]),
        code: String::new(),
        shortcut: chars_to_string(&fields[13]),
        order,
    };
    proof {
        assert(e@.code =~= Seq::<char>::empty());
    }
    Some(e)
}

/// Whether the line is one the table reader skips.
fn line_is_skipped(line: &Vec<char>) -> (r: bool)
    ensures
        r == line_skipped(line@),
{
    line.len() == 0 || (line.len() >= 2 && line[0] == '#' && line[1] == ' ')
}

/// Parses a whole table text and keeps the entries passing the filter,
/// exactly as [`spec_to_entries`] reads it; the first malformed line is a
/// [`ParseError`].
#[verifier::loop_isolation(false)]
pub(crate) fn parse_table_text(txt: &str, filter: &crate::filter::CongkitFilter) -> (r: Result<
    Vec<Entry>,
    ParseError,
>)
    ensures
        match r {
            Ok(v) => spec_to_entries(txt@, *filter) == Some(v.deep_view()),
            Err(_) => spec_to_entries(txt@, *filter) is None,
        },
{
    let chars = crate::strutil::str_to_chars(txt);
    let lines = split_chars(&chars, '\n');
    let ghost lv = spec_split(txt@, '\n');
    proof {
        assert(lines.deep_view() == lv);
        assert(forall|k: int| 0 <= k < lines@.len() ==> #[trigger] lines@[k]@ == lv[k]);
        assert(lv.subrange(0, 0) =~= Seq::<Seq<char>>::empty());
    }
    let mut out: Vec<Entry> = Vec::new();
    let mut i: usize = 0;
    while i < lines.len()
        invariant
            i <= lines@.len(),
            spec_parse_table(lv.subrange(0, i as int)) is Some,
            out.deep_view() == crate::entry::filter_passes(
                spec_parse_table(lv.subrange(0, i as int)).unwrap(),
                *filter,
            ),
        decreases lines@.len() - i,
    {
        let ghost pref = lv.subrange(0, i as int);
        let ghost prefx = lv.subrange(0, i as int + 1);
        proof {
            assert(prefx.drop_last() =~= pref);
            assert(prefx.last() == lv[i as int]);
        }
        let line = &lines[i];
        if line_is_skipped(line) {
            i = i + 1;
        } else {
            match parse_line(line) {
                None => {
                    proof {
                        lemma_parse_table_fails(lv, i as int);
                    }
                    return Err(ParseError);
                },
                Some(e) => {
                    let ghost t = spec_parse_table(pref).unwrap();
                    let ghost ev = e@;
                    proof {
                        assert(spec_parse_table(prefx) == Some(t.push(ev)));
                        assert((t.push(ev)).drop_last() =~= t);
                        assert((t.push(ev)).last() == ev);
                    }
                    if e.passes(filter) {
                        out.push(e);
                    }
                    i = i + 1;
                    proof {
                        assert(crate::entry::filter_passes(t.push(ev), *filter) == if crate::entry::spec_passes(ev, *filter) {
                            crate::entry::filter_passes(t, *filter).push(ev)
                        } else {
                            crate::entry::filter_passes(t, *filter)
                        });
                        if crate::entry::spec_passes(ev, *filter) {
                            assert(out.deep_view() =~= crate::entry::filter_passes(t, *filter).push(ev));
                        }
                    }
                },
            }
        }
    }
    proof {
        assert(lv.subrange(0, lv.len() as int) =~= lv);
    }
    Ok(out)
}

} // verus!
