//! The canonical record for one character, and the admission rule that
//! decides which records a filter retains.

use vstd::prelude::*;

use crate::filter::CongkitFilter;
use crate::filter::CongkitVersion;

verus! {

/// One character's full record: the glyph pair, the nine category flags,
/// the two code-scheme variants, the active code bound at build time, the
/// shortcut code and the display-order key.
#[derive(Debug, Clone, PartialEq)]
pub struct Entry {
    pub traditional: char,
    pub simplified: char,
    pub chinese: bool,
    pub big5: bool,
    pub hkscs: bool,
    pub taiwanese: bool,
    pub kanji: bool,
    pub hiragana: bool,
    pub katakana: bool,
    pub punctuation: bool,
    pub misc: bool,
    pub v3: String,
    pub v5: String,
    pub code: String,
    pub shortcut: String,
    pub order: i32,
}

/// The mathematical image of an [`Entry`]: strings as character sequences,
/// the order key as an unbounded integer.
pub struct EntryView {
    pub traditional: char,
    pub simplified: char,
    pub chinese: bool,
    pub big5: bool,
    pub hkscs: bool,
    pub taiwanese: bool,
    pub kanji: bool,
    pub hiragana: bool,
    pub katakana: bool,
    pub punctuation: bool,
    pub misc: bool,
    pub v3: Seq<char>,
    pub v5: Seq<char>,
    pub code: Seq<char>,
    pub shortcut: Seq<char>,
    pub order: int,
}

impl View for Entry {
    type V = EntryView;

    open spec fn view(&self) -> EntryView {
        EntryView {
            traditional: self.traditional,
            simplified: self.simplified,
            chinese: self.chinese,
            big5: self.big5,
            hkscs: self.hkscs,
            taiwanese: self.taiwanese,
            kanji: self.kanji,
            hiragana: self.hiragana,
            katakana: self.katakana,
            punctuation: self.punctuation,
            misc: self.misc,
            v3: self.v3@,
            v5: self.v5@,
            code: self.code@,
            shortcut: self.shortcut@,
            order: self.order as int,
        }
    }
}

impl DeepView for Entry {
    type V = EntryView;

    open spec fn deep_view(&self) -> EntryView {
        self.view()
    }
}

/// The admission rule: an entry passes a filter iff at least one of the
/// nine (flag, filter bit) pairs is jointly true.
pub open spec fn spec_passes(e: EntryView, f: CongkitFilter) -> bool {
    ||| (e.chinese && f.chinese)
    ||| (e.big5 && f.big5)
    ||| (e.hkscs && f.hkscs)
    ||| (e.taiwanese && f.taiwanese)
    ||| (e.kanji && f.kanji)
    ||| (e.hiragana && f.hiragana)
    ||| (e.katakana && f.katakana)
    ||| (e.punctuation && f.punctuation)
    ||| (e.misc && f.misc)
}

/// The code variant that a scheme version selects from an entry.
pub open spec fn spec_active_code(e: EntryView, v: CongkitVersion) -> Seq<char> {
    match v {
        CongkitVersion::V3 => e.v3,
        CongkitVersion::V5 => e.v5,
    }
}

impl Entry {
    /// Whether this entry passes the given filter.
    pub fn passes(&self, filter: &CongkitFilter) -> (r: bool)
        ensures
            r == spec_passes(self@, *filter),
    {
        (self.chinese && filter.chinese) || (self.big5 && filter.big5) || (self.hkscs
            && filter.hkscs) || (self.taiwanese && filter.taiwanese) || (self.kanji
            && filter.kanji) || (self.hiragana && filter.hiragana) || (self.katakana
            && filter.katakana) || (self.punctuation && filter.punctuation) || (self.misc
            && filter.misc)
    }
}

/// A filter that covers another admits every entry the narrower one admits;
/// in particular the all-true filter admits every entry any filter admits.
pub proof fn lemma_passes_monotone(e: EntryView, f: CongkitFilter, g: CongkitFilter)
    requires
        g.covers(f),
        spec_passes(e, f),
    ensures
        spec_passes(e, g),
{
}

/// The subsequence of entries that pass the filter, in order.
pub open spec fn filter_passes(es: Seq<EntryView>, f: CongkitFilter) -> Seq<EntryView>
    decreases es.len(),
{
    if es.len() == 0 {
        Seq::empty()
    } else {
        let rest = filter_passes(es.drop_last(), f);
        if spec_passes(es.last(), f) {
            rest.push(es.last())
        } else {
            rest
        }
    }
}

/// Filter monotonicity: a glyph kept by a filter is kept by every filter
/// that covers it; in particular the all-true filter's entry set is a
/// superset of any filter's.
pub proof fn lemma_filter_passes_monotone(
    es: Seq<EntryView>,
    f: CongkitFilter,
    g: CongkitFilter,
    c: char,
)
    requires
        g.covers(f),
        exists|i: int|
            0 <= i < filter_passes(es, f).len() && (#[trigger] filter_passes(es, f)[i]).traditional
                == c,
    ensures
        exists|i: int|
            0 <= i < filter_passes(es, g).len() && (#[trigger] filter_passes(es, g)[i]).traditional
                == c,
    decreases es.len(),
{
    let ff = filter_passes(es, f);
    let fg = filter_passes(es, g);
    if es.len() > 0 {
        let i = choose|i: int| 0 <= i < ff.len() && ff[i].traditional == c;
        if spec_passes(es.last(), f) && i == ff.len() - 1 {
            lemma_passes_monotone(es.last(), f, g);
            assert(fg[fg.len() - 1].traditional == c);
        } else {
            assert(filter_passes(es.drop_last(), f)[i].traditional == c);
            lemma_filter_passes_monotone(es.drop_last(), f, g, c);
            let j = choose|j: int|
                0 <= j < filter_passes(es.drop_last(), g).len() && (#[trigger] filter_passes(
                    es.drop_last(),
                    g,
                )[j]).traditional == c;
            assert(fg[j].traditional == c);
        }
    }
}

impl Entry {
    /// An exact copy, field for field.
    pub fn duplicate(&self) -> (r: Entry)
        ensures
            r == *self,
    {
        Entry {
            traditional: self.traditional,
            simplified: self.simplified,
            chinese: self.chinese,
            big5: self.big5,
            hkscs: self.hkscs,
            taiwanese: self.taiwanese,
            kanji: self.kanji,
            hiragana: self.hiragana,
            katakana: self.katakana,
            punctuation: self.punctuation,
            misc: self.misc,
            v3: self.v3.clone(),
            v5: self.v5.clone(),
            code: self.code.clone(),
            shortcut: self.shortcut.clone(),
            order: self.order,
        }
    }
}

} // verus!
