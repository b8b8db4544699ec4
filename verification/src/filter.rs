//! The code-scheme version selector and the category filter.

use vstd::prelude::*;

verus! {

/// Which of the two code schemes is bound as the active code when a table
/// is built. Immutable for the lifetime of a built table.
#[derive(Debug, Copy, Clone, PartialEq, Eq, Structural)]
pub enum CongkitVersion {
    V3,
    V5,
}

/// A declarative predicate over the nine category flags of an entry: an
/// entry passes if any of its true flags has a correspondingly true filter
/// bit (a logical OR across the nine flag/filter pairs).
#[derive(Debug, Copy, Clone, PartialEq, Eq, Structural)]
pub struct CongkitFilter {
    pub chinese: bool,
    pub big5: bool,
    pub hkscs: bool,
    pub taiwanese: bool,
    pub kanji: bool,
    pub hiragana: bool,
    pub katakana: bool,
    pub punctuation: bool,
    pub misc: bool,
}

impl CongkitFilter {
    /// Every filter bit of `self` is set wherever the same bit of `other` is.
    pub open spec fn covers(self, other: CongkitFilter) -> bool {
        &&& other.chinese ==> self.chinese
        &&& other.big5 ==> self.big5
        &&& other.hkscs ==> self.hkscs
        &&& other.taiwanese ==> self.taiwanese
        &&& other.kanji ==> self.kanji
        &&& other.hiragana ==> self.hiragana
        &&& other.katakana ==> self.katakana
        &&& other.punctuation ==> self.punctuation
        &&& other.misc ==> self.misc
    }

    /// The filter that admits every category.
    pub fn all() -> (r: Self)
        ensures
            r == (CongkitFilter {
                chinese: true,
                big5: true,
                hkscs: true,
                taiwanese: true,
                kanji: true,
                hiragana: true,
                katakana: true,
                punctuation: true,
                misc: true,
            }),
            forall|f: CongkitFilter| r.covers(f),
    {
        CongkitFilter {
            chinese: true,
            big5: true,
            hkscs: true,
            taiwanese: true,
            kanji: true,
            hiragana: true,
            katakana: true,
            punctuation: true,
            misc: true,
        }
    }

    /// The Chinese preset: the four Chinese-script categories, nothing else.
    pub fn chinese() -> (r: Self)
        ensures
            r == (CongkitFilter {
                chinese: true,
                big5: true,
                hkscs: true,
                taiwanese: true,
                kanji: false,
                hiragana: false,
                katakana: false,
                punctuation: false,
                misc: false,
            }),
    {
        CongkitFilter {
            chinese: true,
            big5: true,
            hkscs: true,
            taiwanese: true,
            kanji: false,
            hiragana: false,
            katakana: false,
            punctuation: false,
            misc: false,
        }
    }

    /// The Japanese preset: the three Japanese-script categories, nothing else.
    pub fn japanese() -> (r: Self)
        ensures
            r == (CongkitFilter {
                chinese: false,
                big5: false,
                hkscs: false,
                taiwanese: false,
                kanji: true,
                hiragana: true,
                katakana: true,
                punctuation: false,
                misc: false,
            }),
    {
        CongkitFilter {
            chinese: false,
            big5: false,
            hkscs: false,
            taiwanese: false,
            kanji: true,
            hiragana: true,
            katakana: true,
            punctuation: false,
            misc: false,
        }
    }
}

impl Default for CongkitFilter {
    /// The default filter is the Chinese preset.
    fn default() -> (r: Self)
        ensures
            r == (CongkitFilter {
                chinese: true,
                big5: true,
                hkscs: true,
                taiwanese: true,
                kanji: false,
                hiragana: false,
                katakana: false,
                punctuation: false,
                misc: false,
            }),
    {
        Self::chinese()
    }
}

} // verus!
