//! The queryable table: a filtered, uniquely-keyed collection of entries
//! with the active code bound to the chosen scheme version, plus the fixed
//! radical bimap.

use vstd::prelude::*;

use crate::codec::DecodeError;
use crate::codec::spec_decode_entries;
use crate::entry::Entry;
use crate::entry::EntryView;
use crate::entry::filter_passes;
use crate::entry::spec_active_code;
use crate::filter::CongkitFilter;
use crate::filter::CongkitVersion;
use crate::radicals::bimap_fwd;
use crate::radicals::bimap_get_by_left;
use crate::radicals::bimap_get_by_right;
use crate::radicals::bimap_rev;
use crate::radicals::build_radicals;
use crate::radicals::key_to_radical;
use crate::radicals::radical_to_key;
use crate::strutil::chars_to_string;
use crate::strutil::str_to_chars;
use crate::table::ParseError;
use crate::table::spec_to_entries;

verus! {

/// Whether some entry of the sequence has the given traditional glyph.
pub open spec fn seq_has_charv(es: Seq<EntryView>, c: char) -> bool {
    exists|i: int| 0 <= i < es.len() && es[i].traditional == c
}

/// The last entry of the sequence keyed by the given glyph: the one that
/// wins when a table is indexed, later occurrences overwriting earlier.
pub open spec fn last_entryv(es: Seq<EntryView>, c: char) -> EntryView
    decreases es.len(),
{
    if es.len() == 0 {
        arbitrary()
    } else if es.last().traditional == c {
        es.last()
    } else {
        last_entryv(es.drop_last(), c)
    }
}

/// The entry with its active code bound from the chosen scheme version.
pub open spec fn bind_code(e: EntryView, v: CongkitVersion) -> EntryView {
    EntryView { code: spec_active_code(e, v), ..e }
}

/// How prepending one entry changes key membership and the winning entry:
/// a later entry for the same key always wins over the prepended one.
pub proof fn lemma_last_entryv_prepend(e: EntryView, suf: Seq<EntryView>, c: char)
    ensures
        seq_has_charv(seq![e] + suf, c) <==> (e.traditional == c || seq_has_charv(suf, c)),
        seq_has_charv(suf, c) ==> last_entryv(seq![e] + suf, c) == last_entryv(suf, c),
        (!seq_has_charv(suf, c) && e.traditional == c) ==> last_entryv(seq![e] + suf, c) == e,
    decreases suf.len(),
{
    let cons = seq![e] + suf;
    if suf.len() == 0 {
        assert(cons.len() == 1);
        assert(cons.last() == e);
        assert(seq_has_charv(cons, c) <==> e.traditional == c) by {
            if seq_has_charv(cons, c) {
                let i = choose|i: int| 0 <= i < cons.len() && cons[i].traditional == c;
                assert(cons[i] == e);
            }
            if e.traditional == c {
                assert(cons[0].traditional == c);
            }
        }
    } else {
        assert(cons.last() == suf.last());
        assert(cons.drop_last() =~= seq![e] + suf.drop_last());
        lemma_last_entryv_prepend(e, suf.drop_last(), c);
        assert(seq_has_charv(cons, c) <==> (e.traditional == c || seq_has_charv(suf, c))) by {
            if seq_has_charv(cons, c) {
                let i = choose|i: int| 0 <= i < cons.len() && cons[i].traditional == c;
                if i == 0 {
                    assert(e.traditional == c);
                } else {
                    assert(suf[i - 1].traditional == c);
                }
            }
            if e.traditional == c {
                assert(cons[0].traditional == c);
            }
            if seq_has_charv(suf, c) {
                let i = choose|i: int| 0 <= i < suf.len() && suf[i].traditional == c;
                assert(cons[i + 1].traditional == c);
            }
        }
        if suf.last().traditional == c {
            assert(seq_has_charv(suf, c)) by {
                assert(suf[suf.len() - 1].traditional == c);
            }
        } else {
            assert(seq_has_charv(suf, c) <==> seq_has_charv(suf.drop_last(), c)) by {
                if seq_has_charv(suf, c) {
                    let i = choose|i: int| 0 <= i < suf.len() && suf[i].traditional == c;
                    assert(suf.drop_last()[i].traditional == c);
                }
                if seq_has_charv(suf.drop_last(), c) {
                    let i = choose|i: int|
                        0 <= i < suf.drop_last().len() && suf.drop_last()[i].traditional == c;
                    assert(suf[i].traditional == c);
                }
            }
        }
    }
}

/// When keys are unique, any entry found at an index is the winning entry
/// for its glyph.
pub proof fn lemma_last_entryv_unique(es: Seq<EntryView>, c: char, i: int)
    requires
        forall|j: int, k: int|
            0 <= j < k < es.len() ==> (#[trigger] es[j]).traditional != (
            #[trigger] es[k]).traditional,
        0 <= i < es.len(),
        es[i].traditional == c,
    ensures
        last_entryv(es, c) == es[i],
    decreases es.len(),
{
    if es.last().traditional == c {
        assert(i == es.len() - 1);
    } else {
        assert(i < es.len() - 1);
        assert(es.drop_last()[i] == es[i]);
        lemma_last_entryv_unique(es.drop_last(), c, i);
    }
}

/// An invalid wildcard pattern passed to a search. The library's own
/// pattern compiler accepts every pattern, so this error is never produced;
/// it remains so that callers can treat searches uniformly.
#[derive(Debug, Clone, Copy, PartialEq, Eq, Structural)]
pub struct PatternError;

/// The queryable code table.
pub struct CongkitDB {
    pub entries: Vec<Entry>,
    pub version: CongkitVersion,
    pub radicals: bimap::BiMap<char, char>,
}

impl CongkitDB {
    /// Well-formedness: unique traditional keys, every active code bound
    /// from the version, and the radical bimap holding the fixed 25 pairs.
    pub open spec fn wf(self) -> bool {
        &&& forall|j: int, k: int|
            0 <= j < k < self.entries@.len() ==> (#[trigger] self.entries@[j]).traditional != (
            #[trigger] self.entries@[k]).traditional
        &&& forall|j: int|
            0 <= j < self.entries@.len() ==> (#[trigger] self.entries@[j])@.code
                == spec_active_code(self.entries@[j]@, self.version)
        &&& bimap_fwd(self.radicals) == radical_to_key()
        &&& bimap_rev(self.radicals) == key_to_radical()
    }

    /// Whether the table holds an entry for the glyph.
    pub open spec fn spec_has_char(self, c: char) -> bool {
        seq_has_charv(self.entries.deep_view(), c)
    }

    /// The table's entry for the glyph.
    pub open spec fn spec_entry(self, c: char) -> EntryView {
        last_entryv(self.entries.deep_view(), c)
    }
}

impl Default for CongkitDB {
    /// An empty table under the default scheme version.
    fn default() -> (r: Self)
        ensures
            r.wf(),
            r.entries@.len() == 0,
            r.version == CongkitVersion::V3,
    {
        CongkitDB { entries: Vec::new(), version: CongkitVersion::V3, radicals: build_radicals() }
    }
}

/// Keeps exactly the entries that pass the filter, in order.
#[verifier::loop_isolation(false)]
fn filter_entries(v: &Vec<Entry>, filter: &CongkitFilter) -> (r: Vec<Entry>)
    ensures
        r.deep_view() == filter_passes(v.deep_view(), *filter),
{
    let ghost dv = v.deep_view();
    let mut out: Vec<Entry> = Vec::new();
    let mut i: usize = 0;
    proof {
        assert(dv.subrange(0, 0) =~= Seq::<EntryView>::empty());
        assert(out.deep_view() =~= filter_passes(dv.subrange(0, 0), *filter));
    }
    while i < v.len()
        invariant
            i <= dv.len(),
            out.deep_view() == filter_passes(dv.subrange(0, i as int), *filter),
        decreases dv.len() - i,
    {
        let e = v[i].duplicate();
        let ghost old_out = out.deep_view();
        let passed = e.passes(filter);
        if passed {
            out.push(e);
        }
        i = i + 1;
        proof {
            assert(dv[i - 1] == v@[i - 1]@);
            assert(e@ == dv[i - 1]);
            let prefx = dv.subrange(0, i as int);
            assert(prefx.drop_last() =~= dv.subrange(0, i - 1));
            assert(prefx.last() == dv[i - 1]);
            if passed {
                assert(out.deep_view() =~= old_out.push(e@));
            }
        }
    }
    proof {
        assert(dv.subrange(0, dv.len() as int) =~= dv);
    }
    out
}

/// Version binding: for one entry list, the entry a glyph reaches in a
/// table built from it carries the list's `v3` code as its active code
/// when built with the first scheme version, and the `v5` code when built
/// with the second; the other fields are untouched.
pub proof fn lemma_version_binding(es: Seq<EntryView>, c: char)
    requires
        seq_has_charv(es, c),
    ensures
        bind_code(last_entryv(es, c), CongkitVersion::V3).code == last_entryv(es, c).v3,
        bind_code(last_entryv(es, c), CongkitVersion::V5).code == last_entryv(es, c).v5,
        bind_code(last_entryv(es, c), CongkitVersion::V3).v3 == last_entryv(es, c).v3,
        bind_code(last_entryv(es, c), CongkitVersion::V5).v5 == last_entryv(es, c).v5,
{
}

/// Filter monotonicity over a built table's source: a glyph that survives
/// a filter survives every filter that covers it, for the same text; in
/// particular building with the all-true filter yields a superset of any
/// build's entry set.
pub proof fn lemma_build_filter_monotone(
    txt: Seq<char>,
    f: CongkitFilter,
    g: CongkitFilter,
    c: char,
)
    requires
        g.covers(f),
        spec_to_entries(txt, f) is Some,
        seq_has_charv(spec_to_entries(txt, f).unwrap(), c),
    ensures
        spec_to_entries(txt, g) is Some,
        seq_has_charv(spec_to_entries(txt, g).unwrap(), c),
{
    let es = crate::table::spec_parse_table(crate::strutil::spec_split(txt, '\n')).unwrap();
    crate::entry::lemma_filter_passes_monotone(es, f, g, c);
}

/// Whether the vector holds an entry with the given traditional glyph.
fn vec_has_key(v: &Vec<Entry>, c: char) -> (r: bool)
    ensures
        r == seq_has_charv(v.deep_view(), c),
{
    let mut i: usize = 0;
    while i < v.len()
        invariant
            i <= v@.len(),
            forall|j: int| 0 <= j < i ==> (#[trigger] v@[j]).traditional != c,
        decreases v@.len() - i,
    {
        if v[i].traditional == c {
            proof {
                assert(v.deep_view()[i as int].traditional == c);
            }
            return true;
        }
        i = i + 1;
    }
    proof {
        assert forall|j: int| 0 <= j < v.deep_view().len() implies (
        #[trigger] v.deep_view()[j]).traditional != c by {
            assert(v.deep_view()[j] == v@[j]@);
        }
    }
    false
}

impl CongkitDB {
    /// Indexes a list of entries by traditional glyph, later entries
    /// overwriting earlier ones, binding each retained entry's active code
    /// from the chosen version.
    #[verifier::loop_isolation(false)]
    pub(crate) fn from_entry_vec(entry_vec: Vec<Entry>, version: CongkitVersion) -> (db: CongkitDB)
        ensures
            db.wf(),
            db.version == version,
            forall|c: char|
                #[trigger] db.spec_has_char(c) <==> seq_has_charv(entry_vec.deep_view(), c),
            forall|c: char|
                #[trigger] db.spec_has_char(c) ==> db.spec_entry(c) == bind_code(
                    last_entryv(entry_vec.deep_view(), c),
                    version,
                ),
    {
        let ghost orig = entry_vec.deep_view();
        let mut v = entry_vec;
        let mut out: Vec<Entry> = Vec::new();
        proof {
            assert(v.deep_view() =~= orig.take(v@.len() as int));
            assert(orig.skip(v@.len() as int) =~= Seq::<EntryView>::empty());
        }
        while v.len() > 0
            invariant
                v@.len() <= orig.len(),
                v.deep_view() == orig.take(v@.len() as int),
                forall|j: int, k: int|
                    0 <= j < k < out@.len() ==> (#[trigger] out@[j]).traditional != (
                    #[trigger] out@[k]).traditional,
                forall|j: int|
                    0 <= j < out@.len() ==> (#[trigger] out@[j])@.code == spec_active_code(
                        out@[j]@,
                        version,
                    ),
                forall|c: char|
                    #[trigger] seq_has_charv(out.deep_view(), c) <==> seq_has_charv(
                        orig.skip(v@.len() as int),
                        c,
                    ),
                forall|c: char|
                    #[trigger] seq_has_charv(out.deep_view(), c) ==> last_entryv(
                        out.deep_view(),
                        c,
                    ) == bind_code(last_entryv(orig.skip(v@.len() as int), c), version),
            decreases v@.len(),
        {
            let ghost m = v@.len() - 1;
            let ghost old_suf = orig.skip(m + 1);
            let ghost outdv = out.deep_view();
            let e = match v.pop() {
                Some(e) => e,
                None => {
                    proof {
                        assert(false);
                    }
                    return Self::default();
                },
            };
            proof {
                assert(e@ == orig.take(m + 1).last());
                assert(orig.take(m + 1).last() == orig[m]);
                assert(v.deep_view() =~= orig.take(m));
                assert(orig.skip(m) =~= seq![orig[m]] + old_suf);
            }
            let present = vec_has_key(&out, e.traditional);
            proof {
                assert forall|c: char| true implies {
                    (seq_has_charv(seq![orig[m]] + old_suf, c) <==> (orig[m].traditional == c
                        || seq_has_charv(old_suf, c))) && (seq_has_charv(old_suf, c)
                        ==> last_entryv(seq![orig[m]] + old_suf, c) == last_entryv(old_suf, c)) && (
                    (!seq_has_charv(old_suf, c) && orig[m].traditional == c) ==> last_entryv(
                        seq![orig[m]] + old_suf,
                        c,
                    ) == orig[m])
                } by {
                    lemma_last_entryv_prepend(orig[m], old_suf, c);
                }
            }
            if !present {
                let code = match version {
                    CongkitVersion::V3 => e.v3.clone(),
                    CongkitVersion::V5 => e.v5.clone(),
                };
                let ghost ev = e@;
                let mut e2 = e;
                e2.code = code;
                proof {
                    assert(e2@ == bind_code(ev, version));
                }
                out.push(e2);
                proof {
                    assert(out.deep_view() =~= outdv.push(e2@));
                    assert forall|j: int, k: int| 0 <= j < k < out@.len() implies (
                    #[trigger] out@[j]).traditional != (#[trigger] out@[k]).traditional by {
                        if k == out@.len() - 1 {
                            assert(outdv[j] == out@[j]@);
                            assert(outdv[j].traditional != e2@.traditional);
                        }
                    }
                    assert forall|c: char| #[trigger] seq_has_charv(out.deep_view(), c) implies (
                    orig[m].traditional == c || seq_has_charv(old_suf, c)) by {
                        let i = choose|i: int|
                            0 <= i < out.deep_view().len() && out.deep_view()[i].traditional == c;
                        if i < outdv.len() {
                            assert(seq_has_charv(outdv, c));
                        }
                    }
                    assert forall|c: char| seq_has_charv(orig.skip(m), c) implies seq_has_charv(
                        out.deep_view(),
                        c,
                    ) by {
                        if orig[m].traditional == c {
                            assert(out.deep_view()[outdv.len() as int].traditional == c);
                        } else {
                            assert(seq_has_charv(old_suf, c));
                            assert(seq_has_charv(outdv, c));
                            let i = choose|i: int|
                                0 <= i < outdv.len() && outdv[i].traditional == c;
                            assert(out.deep_view()[i].traditional == c);
                        }
                    }
                    assert forall|c: char| #[trigger] seq_has_charv(out.deep_view(), c) implies
                    last_entryv(out.deep_view(), c) == bind_code(
                        last_entryv(orig.skip(m), c),
                        version,
                    ) by {
                        let ndv = out.deep_view();
                        assert(ndv.last() == e2@);
                        assert(ndv.drop_last() =~= outdv);
                        if e2@.traditional == c {
                            assert(last_entryv(ndv, c) == e2@);
                            assert(!seq_has_charv(old_suf, c));
                            assert(last_entryv(orig.skip(m), c) == orig[m]);
                        } else {
                            assert(last_entryv(ndv, c) == last_entryv(outdv, c));
                            assert(seq_has_charv(outdv, c)) by {
                                let i = choose|i: int|
                                    0 <= i < ndv.len() && ndv[i].traditional == c;
                                assert(i < outdv.len());
                                assert(outdv[i].traditional == c);
                            }
                            assert(seq_has_charv(old_suf, c));
                            assert(last_entryv(orig.skip(m), c) == last_entryv(old_suf, c));
                        }
                    }
                }
            } else {
                proof {
                    assert forall|c: char| #[trigger] seq_has_charv(out.deep_view(), c) implies
                    last_entryv(out.deep_view(), c) == bind_code(
                        last_entryv(orig.skip(m), c),
                        version,
                    ) by {
                        if orig[m].traditional == c {
                            assert(seq_has_charv(old_suf, c)) by {
                                assert(seq_has_charv(outdv, c));
                            }
                        }
                        assert(seq_has_charv(old_suf, c));
                        assert(last_entryv(orig.skip(m), c) == last_entryv(old_suf, c));
                    }
                    assert forall|c: char| seq_has_charv(orig.skip(m), c) implies seq_has_charv(
                        out.deep_view(),
                        c,
                    ) by {
                        if orig[m].traditional == c {
                            assert(seq_has_charv(out.deep_view(), orig[m].traditional));
                        }
                    }
                }
            }
        }
        proof {
            assert(orig.skip(0) =~= orig);
        }
        CongkitDB { entries: out, version, radicals: build_radicals() }
    }

    /// Builds a table from the textual format: parse, filter, then index
    /// with the active code bound from the version. The first malformed
    /// line is a [`ParseError`].
    pub fn from_txt(txt: &str, version: CongkitVersion, filter: CongkitFilter) -> (r: Result<
        CongkitDB,
        ParseError,
    >)
        ensures
            match r {
                Ok(db) => {
                    &&& spec_to_entries(txt@, filter) is Some
                    &&& db.wf()
                    &&& db.version == version
                    &&& forall|c: char|
                        #[trigger] db.spec_has_char(c) <==> seq_has_charv(
                            spec_to_entries(txt@, filter).unwrap(),
                            c,
                        )
                    &&& forall|c: char|
                        #[trigger] db.spec_has_char(c) ==> db.spec_entry(c) == bind_code(
                            last_entryv(spec_to_entries(txt@, filter).unwrap(), c),
                            version,
                        )
                },
                Err(_) => spec_to_entries(txt@, filter) is None,
            },
    {
        match crate::table::parse_table_text(txt, &filter) {
            Err(e) => Err(e),
            Ok(v) => Ok(Self::from_entry_vec(v, version)),
        }
    }

    /// Extracts the filtered entry list from the textual format, the active
    /// code left unbound; the first malformed line is a [`ParseError`].
    pub fn to_entries(txt: &str, filter: &CongkitFilter) -> (r: Result<Vec<Entry>, ParseError>)
        ensures
            match r {
                Ok(v) => spec_to_entries(txt@, *filter) == Some(v.deep_view()),
                Err(_) => spec_to_entries(txt@, *filter) is None,
            },
    {
        crate::table::parse_table_text(txt, filter)
    }

    /// Builds a table from a binary artifact: decode, filter, then index
    /// with the active code bound from the version. A structurally invalid
    /// artifact is a [`DecodeError`].
    pub fn from_data(data: &[u8], version: CongkitVersion, filter: CongkitFilter) -> (r: Result<
        CongkitDB,
        DecodeError,
    >)
        ensures
            match r {
                Ok(db) => {
                    &&& spec_decode_entries(data@) is Some
                    &&& db.wf()
                    &&& db.version == version
                    &&& forall|c: char|
                        #[trigger] db.spec_has_char(c) <==> seq_has_charv(
                            filter_passes(spec_decode_entries(data@).unwrap(), filter),
                            c,
                        )
                    &&& forall|c: char|
                        #[trigger] db.spec_has_char(c) ==> db.spec_entry(c) == bind_code(
                            last_entryv(
                                filter_passes(spec_decode_entries(data@).unwrap(), filter),
                                c,
                            ),
                            version,
                        )
                },
                Err(_) => spec_decode_entries(data@) is None,
            },
    {
        match crate::codec::entries_from_data(data) {
            Err(_) => Err(DecodeError),
            Ok(v) => {
                let kept = filter_entries(&v, &filter);
                Ok(Self::from_entry_vec(kept, version))
            },
        }
    }

    /// The radical glyph a key letter renders, if the letter is one of the
    /// fixed 25.
    pub fn get_radical(&self, key: &char) -> (r: Option<char>)
        requires
            self.wf(),
        ensures
            r == (if key_to_radical().dom().contains(*key) {
                Some(key_to_radical()[*key])
            } else {
                None::<char>
            }),
    {
        bimap_get_by_right(&self.radicals, key)
    }

    /// The key letter a radical glyph stands for, if the glyph is one of
    /// the fixed 25.
    pub fn get_key(&self, radical: &char) -> (r: Option<char>)
        requires
            self.wf(),
        ensures
            r == (if radical_to_key().dom().contains(*radical) {
                Some(radical_to_key()[*radical])
            } else {
                None::<char>
            }),
    {
        bimap_get_by_left(&self.radicals, radical)
    }

    /// Renders a code string as radical glyphs: a pure per-character
    /// substitution, characters outside the 25 keys copied unchanged.
    #[verifier::loop_isolation(false)]
    pub fn get_radicals(&self, code: &str) -> (r: String)
        requires
            self.wf(),
        ensures
            r@.len() == code@.len(),
            forall|i: int|
                0 <= i < code@.len() ==> r@[i] == (if key_to_radical().dom().contains(code@[i]) {
                    key_to_radical()[code@[i]]
                } else {
                    code@[i]
                }),
    {
        let chars = str_to_chars(code);
        let mut out: Vec<char> = Vec::new();
        let mut i: usize = 0;
        while i < chars.len()
            invariant
                i <= chars@.len(),
                out@.len() == i,
                forall|j: int|
                    0 <= j < i ==> out@[j] == (if key_to_radical().dom().contains(chars@[j]) {
                        key_to_radical()[chars@[j]]
                    } else {
                        chars@[j]
                    }),
            decreases chars@.len() - i,
        {
            match self.get_radical(&chars[i]) {
                Some(r) => out.push(r),
                None => out.push(chars[i]),
            }
            i = i + 1;
        }
        chars_to_string(&out)
    }

    /// The active code of the glyph's entry, or nothing when the glyph is
    /// absent from the table.
    #[verifier::loop_isolation(false)]
    pub fn get_code(&self, character: &char) -> (r: Option<String>)
        requires
            self.wf(),
        ensures
            match r {
                Some(code) => self.spec_has_char(*character) && code@ == self.spec_entry(
                    *character,
                ).code,
                None => !self.spec_has_char(*character),
            },
    {
        let mut i: usize = 0;
        while i < self.entries.len()
            invariant
                i <= self.entries@.len(),
                forall|j: int| 0 <= j < i ==> (#[trigger] self.entries@[j]).traditional != *character,
            decreases self.entries@.len() - i,
        {
            if self.entries[i].traditional == *character {
                proof {
                    let dv = self.entries.deep_view();
                    assert(dv[i as int].traditional == *character);
                    assert forall|j: int, k: int| 0 <= j < k < dv.len() implies (
                    #[trigger] dv[j]).traditional != (#[trigger] dv[k]).traditional by {
                        assert(dv[j] == self.entries@[j]@);
                        assert(dv[k] == self.entries@[k]@);
                    }
                    lemma_last_entryv_unique(dv, *character, i as int);
                }
                return Some(self.entries[i].code.clone());
            }
            i = i + 1;
        }
        proof {
            let dv = self.entries.deep_view();
            assert forall|j: int| 0 <= j < dv.len() implies (#[trigger] dv[j]).traditional
                != *character by {
                assert(dv[j] == self.entries@[j]@);
            }
        }
        None
    }

    /// The active codes of a list of glyphs, one result per input glyph, in
    /// input order.
    #[verifier::loop_isolation(false)]
    pub fn get_codes(&self, chars: Vec<char>) -> (r: Vec<Option<String>>)
        requires
            self.wf(),
        ensures
            r@.len() == chars@.len(),
            forall|i: int|
                0 <= i < chars@.len() ==> match #[trigger] r@[i] {
                    Some(code) => self.spec_has_char(chars@[i]) && code@ == self.spec_entry(
                        chars@[i],
                    ).code,
                    None => !self.spec_has_char(chars@[i]),
                },
    {
        let mut out: Vec<Option<String>> = Vec::new();
        let mut i: usize = 0;
        while i < chars.len()
            invariant
                i <= chars@.len(),
                out@.len() == i,
                forall|j: int|
                    0 <= j < i ==> match #[trigger] out@[j] {
                        Some(code) => self.spec_has_char(chars@[j]) && code@ == self.spec_entry(
                            chars@[j],
                        ).code,
                        None => !self.spec_has_char(chars@[j]),
                    },
            decreases chars@.len() - i,
        {
            out.push(self.get_code(&chars[i]));
            i = i + 1;
        }
        out
    }
}

} // verus!
