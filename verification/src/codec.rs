//! The binary table format: a little-endian, length-prefixed encoding of
//! an entry sequence, with a decoder proved to invert the encoder exactly.
//!
//! Layout: an eight-byte entry count, then each entry as two four-byte
//! characters, nine flag bytes, four length-prefixed strings (eight-byte
//! character count, four bytes per character) and four bytes of order key.

use vstd::bytes::lemma_auto_spec_u32_to_from_le_bytes;
use vstd::bytes::lemma_auto_spec_u64_to_from_le_bytes;
use vstd::bytes::spec_u32_from_le_bytes;
use vstd::bytes::spec_u32_to_le_bytes;
use vstd::bytes::spec_u64_from_le_bytes;
use vstd::bytes::spec_u64_to_le_bytes;
use vstd::bytes::u32_from_le_bytes;
use vstd::bytes::u32_to_le_bytes;
use vstd::bytes::u64_from_le_bytes;
use vstd::bytes::u64_to_le_bytes;
use vstd::prelude::*;
use vstd::slice::slice_subrange;
use vstd::slice::slice_to_vec;

use crate::entry::Entry;
use crate::entry::EntryView;

verus! {

/// A structurally invalid binary artifact: truncated data, an invalid
/// character or flag byte, or trailing bytes.
#[derive(Debug, Clone, Copy, PartialEq, Eq, Structural)]
pub struct DecodeError;

/// Whether a 32-bit value is a Unicode scalar value, so a valid character.
pub open spec fn valid_scalar(x: u32) -> bool {
    x < 0xD800 || (0xE000 <= x && x <= 0x10FFFF)
}

/// Relies on std's char::from_u32: the character with the given code
/// point, or nothing when the value is a surrogate or above the character
/// range.
#[verifier::external_body]
fn char_from_u32(x: u32) -> (r: Option<char>)
    ensures
        r == (if valid_scalar(x) {
            Some(x as char)
        } else {
            None::<char>
        }),
{
    char::from_u32(x)
}

/// The four little-endian bytes of a 32-bit value.
pub open spec fn enc_u32(x: u32) -> Seq<u8> {
    spec_u32_to_le_bytes(x)
}

/// The eight little-endian bytes of a 64-bit value.
pub open spec fn enc_u64(x: u64) -> Seq<u8> {
    spec_u64_to_le_bytes(x)
}

/// Each character as its four-byte code point, in order.
pub open spec fn enc_chars(s: Seq<char>) -> Seq<u8>
    decreases s.len(),
{
    if s.len() == 0 {
        Seq::empty()
    } else {
        enc_u32(s[0] as u32) + enc_chars(s.skip(1))
    }
}

/// A string: its character count, then its characters.
pub open spec fn enc_str(s: Seq<char>) -> Seq<u8> {
    enc_u64(s.len() as u64) + enc_chars(s)
}

/// One byte per flag, one for true and zero for false.
pub open spec fn enc_flags(e: EntryView) -> Seq<u8> {
    seq![
        (if e.chinese { 1u8 } else { 0u8 }),
        (if e.big5 { 1u8 } else { 0u8 }),
        (if e.hkscs { 1u8 } else { 0u8 }),
        (if e.taiwanese { 1u8 } else { 0u8 }),
        (if e.kanji { 1u8 } else { 0u8 }),
        (if e.hiragana { 1u8 } else { 0u8 }),
        (if e.katakana { 1u8 } else { 0u8 }),
        (if e.punctuation { 1u8 } else { 0u8 }),
        (if e.misc { 1u8 } else { 0u8 }),
    ]
}

/// One entry, field for field.
pub open spec fn enc_entry(e: EntryView) -> Seq<u8> {
    enc_u32(e.traditional as u32) + (enc_u32(e.simplified as u32) + (enc_flags(e) + (enc_str(e.v3)
        + (enc_str(e.v5) + (enc_str(e.code) + (enc_str(e.shortcut) + enc_u32(e.order as u32)))))))
}

/// An entry sequence, in order.
pub open spec fn enc_entries(es: Seq<EntryView>) -> Seq<u8>
    decreases es.len(),
{
    if es.len() == 0 {
        Seq::empty()
    } else {
        enc_entry(es[0]) + enc_entries(es.skip(1))
    }
}

/// The whole artifact: the entry count, then the entries.
pub open spec fn spec_encode_entries(es: Seq<EntryView>) -> Seq<u8> {
    enc_u64(es.len() as u64) + enc_entries(es)
}

/// An entry the format can carry exactly: the order key within the signed
/// 32-bit range (as every built entry's is) and string lengths within the
/// 64-bit count.
pub open spec fn entryv_bounded(e: EntryView) -> bool {
    &&& -0x8000_0000 <= e.order <= 0x7fff_ffff
    &&& e.v3.len() < 0x1_0000_0000_0000_0000
    &&& e.v5.len() < 0x1_0000_0000_0000_0000
    &&& e.code.len() < 0x1_0000_0000_0000_0000
    &&& e.shortcut.len() < 0x1_0000_0000_0000_0000
}

/// Every entry of the sequence is one the format carries exactly.
pub open spec fn entries_bounded(es: Seq<EntryView>) -> bool {
    forall|i: int| 0 <= i < es.len() ==> entryv_bounded(#[trigger] es[i])
}

/// Reading a 32-bit value at a position.
pub open spec fn dec_u32(b: Seq<u8>, pos: int) -> Option<(u32, int)> {
    if 0 <= pos && pos + 4 <= b.len() {
        Some((spec_u32_from_le_bytes(b.subrange(pos, pos + 4)), pos + 4))
    } else {
        None
    }
}

/// Reading a 64-bit value at a position.
pub open spec fn dec_u64(b: Seq<u8>, pos: int) -> Option<(u64, int)> {
    if 0 <= pos && pos + 8 <= b.len() {
        Some((spec_u64_from_le_bytes(b.subrange(pos, pos + 8)), pos + 8))
    } else {
        None
    }
}

/// Reading a character: a 32-bit code point that must be a scalar value.
pub open spec fn dec_char(b: Seq<u8>, pos: int) -> Option<(char, int)> {
    match dec_u32(b, pos) {
        Option::None => None,
        Option::Some((x, p)) => if valid_scalar(x) {
            Some((x as char, p))
        } else {
            None
        },
    }
}

/// Reading the nine flag bytes, each of which must be zero or one.
pub open spec fn dec_flags(b: Seq<u8>, pos: int) -> Option<(Seq<bool>, int)> {
    if 0 <= pos && pos + 9 <= b.len() && (forall|k: int| 0 <= k < 9 ==> #[trigger] b[pos + k] <= 1) {
        Some((Seq::new(9, |k: int| b[pos + k] == 1), pos + 9))
    } else {
        None
    }
}

/// Reading a run of characters of known count.
pub open spec fn dec_chars(b: Seq<u8>, pos: int, n: nat) -> Option<(Seq<char>, int)>
    decreases n,
{
    if n == 0 {
        Some((Seq::empty(), pos))
    } else {
        match dec_char(b, pos) {
            Option::None => None,
            Option::Some((c, p)) => match dec_chars(b, p, (n - 1) as nat) {
                Option::None => None,
                Option::Some((s, q)) => Some((seq![c] + s, q)),
            },
        }
    }
}

/// Reading a length-prefixed string.
pub open spec fn dec_str(b: Seq<u8>, pos: int) -> Option<(Seq<char>, int)> {
    match dec_u64(b, pos) {
        Option::None => None,
        Option::Some((n, p)) => dec_chars(b, p, n as nat),
    }
}

/// Reading one entry, field for field.
pub open spec fn dec_entry(b: Seq<u8>, pos: int) -> Option<(EntryView, int)> {
    match dec_char(b, pos) {
        Option::None => None,
        Option::Some((trad, p1)) => match dec_char(b, p1) {
            Option::None => None,
            Option::Some((simp, p2)) => match dec_flags(b, p2) {
                Option::None => None,
                Option::Some((fl, p3)) => match dec_str(b, p3) {
                    Option::None => None,
                    Option::Some((v3, p4)) => match dec_str(b, p4) {
                        Option::None => None,
                        Option::Some((v5, p5)) => match dec_str(b, p5) {
                            Option::None => None,
                            Option::Some((code, p6)) => match dec_str(b, p6) {
                                Option::None => None,
                                Option::Some((sc, p7)) => match dec_u32(b, p7) {
                                    Option::None => None,
                                    Option::Some((ob, p8)) => Some(
                                        (
                                            EntryView {
                                                traditional: trad,
                                                simplified: simp,
                                                chinese: fl[0],
                                                big5: fl[1],
                                                hkscs: fl[2],
                                                taiwanese: fl[3],
                                                kanji: fl[4],
                                                hiragana: fl[5],
                                                katakana: fl[6],
                                                punctuation: fl[7],
                                                misc: fl[8],
                                                v3,
                                                v5,
                                                code,
                                                shortcut: sc,
                                                order: (ob as i32) as int,
                                            },
                                            p8,
                                        ),
                                    ),
                                },
                            },
                        },
                    },
                },
            },
        },
    }
}

/// Reading a run of entries of known count.
pub open spec fn dec_entries(b: Seq<u8>, pos: int, n: nat) -> Option<(Seq<EntryView>, int)>
    decreases n,
{
    if n == 0 {
        Some((Seq::empty(), pos))
    } else {
        match dec_entry(b, pos) {
            Option::None => None,
            Option::Some((e, p)) => match dec_entries(b, p, (n - 1) as nat) {
                Option::None => None,
                Option::Some((s, q)) => Some((seq![e] + s, q)),
            },
        }
    }
}

/// Reading the whole artifact: the count, exactly that many entries, and
/// nothing after them.
pub open spec fn spec_decode_entries(b: Seq<u8>) -> Option<Seq<EntryView>> {
    match dec_u64(b, 0) {
        Option::None => None,
        Option::Some((n, p)) => match dec_entries(b, p, n as nat) {
            Option::None => None,
            Option::Some((es, q)) => if q == b.len() {
                Some(es)
            } else {
                None
            },
        },
    }
}

/// A byte range equal to a concatenation splits at the first part's end.
proof fn lemma_subrange_concat(b: Seq<u8>, pos: int, x: Seq<u8>, y: Seq<u8>)
    requires
        0 <= pos,
        pos + x.len() + y.len() <= b.len(),
        b.subrange(pos, pos + x.len() + y.len()) == x + y,
    ensures
        b.subrange(pos, pos + x.len()) == x,
        b.subrange(pos + x.len(), pos + x.len() + y.len()) == y,
{
    assert(b.subrange(pos, pos + x.len()) =~= (x + y).subrange(0, x.len() as int));
    assert((x + y).subrange(0, x.len() as int) =~= x);
    assert(b.subrange(pos + x.len(), pos + x.len() + y.len()) =~= (x + y).subrange(
        x.len() as int,
        (x + y).len() as int,
    ));
    assert((x + y).subrange(x.len() as int, (x + y).len() as int) =~= y);
}

/// A character run encodes to four bytes per character.
pub proof fn lemma_enc_chars_len(s: Seq<char>)
    ensures
        enc_chars(s).len() == 4 * s.len(),
    decreases s.len(),
{
    lemma_auto_spec_u32_to_from_le_bytes();
    if s.len() > 0 {
        lemma_enc_chars_len(s.skip(1));
    }
}

/// Appending one character extends its run's encoding at the end.
pub proof fn lemma_enc_chars_snoc(s: Seq<char>, c: char)
    ensures
        enc_chars(s.push(c)) == enc_chars(s) + enc_u32(c as u32),
    decreases s.len(),
{
    reveal_with_fuel(enc_chars, 3);
    let p = s.push(c);
    if s.len() == 0 {
        assert(p[0] == c);
        assert(p.skip(1) =~= Seq::<char>::empty());
        assert(enc_chars(p) =~= enc_u32(c as u32));
        assert(enc_chars(s) + enc_u32(c as u32) =~= enc_u32(c as u32));
    } else {
        assert(p[0] == s[0]);
        assert(p.skip(1) =~= s.skip(1).push(c));
        lemma_enc_chars_snoc(s.skip(1), c);
        assert(enc_chars(p) =~= enc_chars(s) + enc_u32(c as u32));
    }
}

/// Appending one entry extends the sequence's encoding at the end.
pub proof fn lemma_enc_entries_snoc(es: Seq<EntryView>, e: EntryView)
    ensures
        enc_entries(es.push(e)) == enc_entries(es) + enc_entry(e),
    decreases es.len(),
{
    reveal_with_fuel(enc_entries, 3);
    let p = es.push(e);
    if es.len() == 0 {
        assert(p[0] == e);
        assert(p.skip(1) =~= Seq::<EntryView>::empty());
        assert(enc_entries(p) =~= enc_entry(e));
        assert(enc_entries(es) + enc_entry(e) =~= enc_entry(e));
    } else {
        assert(p[0] == es[0]);
        assert(p.skip(1) =~= es.skip(1).push(e));
        lemma_enc_entries_snoc(es.skip(1), e);
        assert(enc_entries(p) =~= enc_entries(es) + enc_entry(e));
    }
}

/// A 32-bit value reads back from its own encoding.
proof fn lemma_dec_u32_enc(b: Seq<u8>, pos: int, x: u32)
    requires
        0 <= pos,
        pos + 4 <= b.len(),
        b.subrange(pos, pos + 4) == enc_u32(x),
    ensures
        dec_u32(b, pos) == Some((x, pos + 4)),
{
    lemma_auto_spec_u32_to_from_le_bytes();
    let t = spec_u32_to_le_bytes(x);
    assert(t.len() == 4);
    assert(spec_u32_from_le_bytes(t) == x);
}

/// A 64-bit value reads back from its own encoding.
proof fn lemma_dec_u64_enc(b: Seq<u8>, pos: int, x: u64)
    requires
        0 <= pos,
        pos + 8 <= b.len(),
        b.subrange(pos, pos + 8) == enc_u64(x),
    ensures
        dec_u64(b, pos) == Some((x, pos + 8)),
{
    lemma_auto_spec_u64_to_from_le_bytes();
    let t = spec_u64_to_le_bytes(x);
    assert(t.len() == 8);
    assert(spec_u64_from_le_bytes(t) == x);
}

/// A character reads back from its own encoding.
proof fn lemma_dec_char_enc(b: Seq<u8>, pos: int, c: char)
    requires
        0 <= pos,
        pos + 4 <= b.len(),
        b.subrange(pos, pos + 4) == enc_u32(c as u32),
    ensures
        dec_char(b, pos) == Some((c, pos + 4)),
{
    lemma_dec_u32_enc(b, pos, c as u32);
    vstd::utf8::char_is_scalar(c);
    assert(valid_scalar(c as u32));
    vstd::utf8::char_u32_cast(c, c as u32);
}

/// The flag bytes read back as the entry's own flags.
proof fn lemma_dec_flags_enc(b: Seq<u8>, pos: int, e: EntryView)
    requires
        0 <= pos,
        pos + 9 <= b.len(),
        b.subrange(pos, pos + 9) == enc_flags(e),
    ensures
        dec_flags(b, pos) == Some(
            (
                seq![
                    e.chinese, e.big5, e.hkscs, e.taiwanese, e.kanji, e.hiragana, e.katakana,
                    e.punctuation, e.misc,
                ],
                pos + 9,
            ),
        ),
{
    assert forall|k: int| 0 <= k < 9 implies #[trigger] b[pos + k] <= 1 by {
        assert(b[pos + k] == enc_flags(e)[k]);
    }
    assert(forall|k: int| 0 <= k < 9 ==> b[pos + k] == enc_flags(e)[k]);
    assert(Seq::new(9, |k: int| b[pos + k] == 1) =~= seq![
        e.chinese, e.big5, e.hkscs, e.taiwanese, e.kanji, e.hiragana, e.katakana, e.punctuation,
        e.misc,
    ]);
}

/// A character run reads back from its own encoding.
proof fn lemma_dec_chars_enc(b: Seq<u8>, pos: int, s: Seq<char>)
    requires
        0 <= pos,
        pos + 4 * s.len() <= b.len(),
        b.subrange(pos, pos + 4 * s.len()) == enc_chars(s),
    ensures
        dec_chars(b, pos, s.len()) == Some((s, pos + 4 * s.len())),
    decreases s.len(),
{
    lemma_auto_spec_u32_to_from_le_bytes();
    if s.len() > 0 {
        let c1 = enc_u32(s[0] as u32);
        let r1 = enc_chars(s.skip(1));
        lemma_enc_chars_len(s.skip(1));
        assert(b.subrange(pos, pos + c1.len() + r1.len()) == c1 + r1);
        lemma_subrange_concat(b, pos, c1, r1);
        lemma_dec_char_enc(b, pos, s[0]);
        lemma_dec_chars_enc(b, pos + 4, s.skip(1));
        assert(seq![s[0]] + s.skip(1) =~= s);
    }
}

/// A string reads back from its own encoding.
proof fn lemma_dec_str_enc(b: Seq<u8>, pos: int, s: Seq<char>)
    requires
        0 <= pos,
        s.len() < 0x1_0000_0000_0000_0000,
        pos + enc_str(s).len() <= b.len(),
        b.subrange(pos, pos + enc_str(s).len()) == enc_str(s),
    ensures
        dec_str(b, pos) == Some((s, pos + enc_str(s).len())),
{
    lemma_auto_spec_u64_to_from_le_bytes();
    let c1 = enc_u64(s.len() as u64);
    let r1 = enc_chars(s);
    lemma_enc_chars_len(s);
    assert(b.subrange(pos, pos + c1.len() + r1.len()) == c1 + r1);
    lemma_subrange_concat(b, pos, c1, r1);
    lemma_dec_u64_enc(b, pos, s.len() as u64);
    assert((s.len() as u64) as nat == s.len());
    lemma_dec_chars_enc(b, pos + 8, s);
}

/// An entry reads back from its own encoding.
proof fn lemma_dec_entry_enc(b: Seq<u8>, pos: int, e: EntryView)
    requires
        0 <= pos,
        entryv_bounded(e),
        pos + enc_entry(e).len() <= b.len(),
        b.subrange(pos, pos + enc_entry(e).len()) == enc_entry(e),
    ensures
        dec_entry(b, pos) == Some((e, pos + enc_entry(e).len())),
{
    lemma_auto_spec_u32_to_from_le_bytes();
    lemma_auto_spec_u64_to_from_le_bytes();
    lemma_enc_chars_len(e.v3);
    lemma_enc_chars_len(e.v5);
    lemma_enc_chars_len(e.code);
    lemma_enc_chars_len(e.shortcut);
    let c1 = enc_u32(e.traditional as u32);
    let r1 = enc_u32(e.simplified as u32) + (enc_flags(e) + (enc_str(e.v3) + (enc_str(e.v5) + (
    enc_str(e.code) + (enc_str(e.shortcut) + enc_u32(e.order as u32))))));
    lemma_subrange_concat(b, pos, c1, r1);
    lemma_dec_char_enc(b, pos, e.traditional);
    let p1 = pos + 4;
    let c2 = enc_u32(e.simplified as u32);
    let r2 = enc_flags(e) + (enc_str(e.v3) + (enc_str(e.v5) + (enc_str(e.code) + (enc_str(
        e.shortcut,
    ) + enc_u32(e.order as u32)))));
    lemma_subrange_concat(b, p1, c2, r2);
    lemma_dec_char_enc(b, p1, e.simplified);
    let p2 = p1 + 4;
    let c3 = enc_flags(e);
    let r3 = enc_str(e.v3) + (enc_str(e.v5) + (enc_str(e.code) + (enc_str(e.shortcut) + enc_u32(
        e.order as u32,
    ))));
    lemma_subrange_concat(b, p2, c3, r3);
    lemma_dec_flags_enc(b, p2, e);
    let p3 = p2 + 9;
    let c4 = enc_str(e.v3);
    let r4 = enc_str(e.v5) + (enc_str(e.code) + (enc_str(e.shortcut) + enc_u32(e.order as u32)));
    lemma_subrange_concat(b, p3, c4, r4);
    lemma_dec_str_enc(b, p3, e.v3);
    let p4 = p3 + c4.len();
    let c5 = enc_str(e.v5);
    let r5 = enc_str(e.code) + (enc_str(e.shortcut) + enc_u32(e.order as u32));
    lemma_subrange_concat(b, p4, c5, r5);
    lemma_dec_str_enc(b, p4, e.v5);
    let p5 = p4 + c5.len();
    let c6 = enc_str(e.code);
    let r6 = enc_str(e.shortcut) + enc_u32(e.order as u32);
    lemma_subrange_concat(b, p5, c6, r6);
    lemma_dec_str_enc(b, p5, e.code);
    let p6 = p5 + c6.len();
    let c7 = enc_str(e.shortcut);
    let r7 = enc_u32(e.order as u32);
    lemma_subrange_concat(b, p6, c7, r7);
    lemma_dec_str_enc(b, p6, e.shortcut);
    let p7 = p6 + c7.len();
    lemma_dec_u32_enc(b, p7, e.order as u32);
    let o: i32 = e.order as i32;
    assert(o as int == e.order);
    assert(e.order as u32 == o as u32);
    assert((o as u32) as i32 == o) by (bit_vector);
    let fl = seq![
        e.chinese, e.big5, e.hkscs, e.taiwanese, e.kanji, e.hiragana, e.katakana, e.punctuation,
        e.misc,
    ];
    match dec_entry(b, pos) {
        Option::None => {
            assert(false);
        },
        Option::Some((d, q)) => {
            assert(d == e);
            assert(q == pos + enc_entry(e).len());
        },
    }
}

/// An entry sequence reads back from its own encoding.
proof fn lemma_dec_entries_enc(b: Seq<u8>, pos: int, es: Seq<EntryView>)
    requires
        0 <= pos,
        entries_bounded(es),
        pos + enc_entries(es).len() <= b.len(),
        b.subrange(pos, pos + enc_entries(es).len()) == enc_entries(es),
    ensures
        dec_entries(b, pos, es.len()) == Some((es, pos + enc_entries(es).len())),
    decreases es.len(),
{
    if es.len() > 0 {
        let c1 = enc_entry(es[0]);
        let r1 = enc_entries(es.skip(1));
        lemma_subrange_concat(b, pos, c1, r1);
        lemma_dec_entry_enc(b, pos, es[0]);
        assert(entries_bounded(es.skip(1)));
        lemma_dec_entries_enc(b, pos + c1.len(), es.skip(1));
        assert(seq![es[0]] + es.skip(1) =~= es);
    }
}

/// The round trip: decoding an encoded entry sequence yields exactly that
/// sequence, field for field.
pub proof fn lemma_encode_decode_roundtrip(es: Seq<EntryView>)
    requires
        entries_bounded(es),
        es.len() < 0x1_0000_0000_0000_0000,
    ensures
        spec_decode_entries(spec_encode_entries(es)) == Some(es),
{
    lemma_auto_spec_u64_to_from_le_bytes();
    let b = spec_encode_entries(es);
    let c1 = enc_u64(es.len() as u64);
    let r1 = enc_entries(es);
    assert(b.subrange(0, (c1.len() + r1.len()) as int) =~= c1 + r1);
    lemma_subrange_concat(b, 0, c1, r1);
    lemma_dec_u64_enc(b, 0, es.len() as u64);
    assert((es.len() as u64) as nat == es.len());
    lemma_dec_entries_enc(b, 8, es);
}

/// Appends a 32-bit value's encoding.
fn push_u32(out: &mut Vec<u8>, x: u32)
    ensures
        final(out)@ == old(out)@ + enc_u32(x),
{
    let mut bytes = u32_to_le_bytes(x);
    out.append(&mut bytes);
}

/// Appends a 64-bit value's encoding.
fn push_u64(out: &mut Vec<u8>, x: u64)
    ensures
        final(out)@ == old(out)@ + enc_u64(x),
{
    let mut bytes = u64_to_le_bytes(x);
    out.append(&mut bytes);
}

/// Appends a string's encoding: its character count, then its characters.
#[verifier::loop_isolation(false)]
fn push_str(out: &mut Vec<u8>, s: &str)
    ensures
        final(out)@ == old(out)@ + enc_str(s@),
        s@.len() < 0x1_0000_0000_0000_0000,
{
    let v = crate::strutil::str_to_chars(s);
    push_u64(out, v.len() as u64);
    let ghost base = out@;
    let mut i: usize = 0;
    proof {
        assert(v@.subrange(0, 0) =~= Seq::<char>::empty());
        assert(base + enc_chars(v@.subrange(0, 0)) =~= base);
    }
    while i < v.len()
        invariant
            i <= v@.len(),
            out@ == base + enc_chars(v@.subrange(0, i as int)),
        decreases v@.len() - i,
    {
        push_u32(out, v[i] as u32);
        i = i + 1;
        proof {
            lemma_enc_chars_snoc(v@.subrange(0, i - 1), v@[i - 1]);
            assert(v@.subrange(0, i as int) =~= v@.subrange(0, i - 1).push(v@[i - 1]));
            assert(out@ =~= base + enc_chars(v@.subrange(0, i as int)));
        }
    }
    proof {
        assert(v@.subrange(0, v@.len() as int) =~= v@);
        assert(out@ =~= old(out)@ + enc_str(s@));
    }
}

/// Appends a flag byte.
fn push_flag(out: &mut Vec<u8>, b: bool)
    ensures
        final(out)@ == old(out)@.push(
            if b {
                1u8
            } else {
                0u8
            },
        ),
{
    if b {
        out.push(1);
    } else {
        out.push(0);
    }
}

/// Appends the nine flag bytes.
fn push_flags(out: &mut Vec<u8>, e: &Entry)
    ensures
        final(out)@ == old(out)@ + enc_flags(e@),
{
    push_flag(out, e.chinese);
    push_flag(out, e.big5);
    push_flag(out, e.hkscs);
    push_flag(out, e.taiwanese);
    push_flag(out, e.kanji);
    push_flag(out, e.hiragana);
    push_flag(out, e.katakana);
    push_flag(out, e.punctuation);
    push_flag(out, e.misc);
    proof {
        assert(out@ =~= old(out)@ + enc_flags(e@));
    }
}

/// The eight encoded parts of an entry, appended in turn, amount to the
/// entry's encoding.
#[verifier::rlimit(100)]
proof fn lemma_enc_entry_assoc(base: Seq<u8>, e: EntryView)
    ensures
        base + enc_u32(e.traditional as u32) + enc_u32(e.simplified as u32) + enc_flags(e)
            + enc_str(e.v3) + enc_str(e.v5) + enc_str(e.code) + enc_str(e.shortcut) + enc_u32(
            e.order as u32,
        ) == base + enc_entry(e),
{
    assert(base + enc_u32(e.traditional as u32) + enc_u32(e.simplified as u32) + enc_flags(e)
        + enc_str(e.v3) + enc_str(e.v5) + enc_str(e.code) + enc_str(e.shortcut) + enc_u32(
        e.order as u32,
    ) =~= base + enc_entry(e));
}

/// Appends one entry's encoding.
fn push_entry(out: &mut Vec<u8>, e: &Entry)
    ensures
        final(out)@ == old(out)@ + enc_entry(e@),
        entryv_bounded(e@),
{
    push_u32(out, e.traditional as u32);
    push_u32(out, e.simplified as u32);
    push_flags(out, e);
    push_str(out, e.v3.as_str());
    push_str(out, e.v5.as_str());
    push_str(out, e.code.as_str());
    push_str(out, e.shortcut.as_str());
    let ob: u32 = #[verifier::truncate] (e.order as u32);
    push_u32(out, ob);
    proof {
        let o: i32 = e.order;
        assert(e@.order == o as int);
        assert(e@.order as u32 == o as u32);
        lemma_enc_entry_assoc(old(out)@, e@);
    }
}

/// Encodes an entry list into the binary table format; decoding the result
/// yields the same list back, field for field.
#[verifier::loop_isolation(false)]
pub fn to_data(entries: &Vec<Entry>) -> (r: Vec<u8>)
    ensures
        r@ == spec_encode_entries(entries.deep_view()),
        entries_bounded(entries.deep_view()),
        entries.deep_view().len() < 0x1_0000_0000_0000_0000,
{
    let ghost dv = entries.deep_view();
    let mut out: Vec<u8> = Vec::new();
    push_u64(&mut out, entries.len() as u64);
    let ghost base = out@;
    let mut i: usize = 0;
    proof {
        assert(dv.subrange(0, 0) =~= Seq::<EntryView>::empty());
        assert(base + enc_entries(dv.subrange(0, 0)) =~= base);
    }
    while i < entries.len()
        invariant
            i <= dv.len(),
            out@ == base + enc_entries(dv.subrange(0, i as int)),
            forall|j: int| 0 <= j < i ==> entryv_bounded(#[trigger] dv[j]),
        decreases dv.len() - i,
    {
        push_entry(&mut out, &entries[i]);
        i = i + 1;
        proof {
            assert(dv[i - 1] == entries@[i - 1]@);
            lemma_enc_entries_snoc(dv.subrange(0, i - 1), dv[i - 1]);
            assert(dv.subrange(0, i as int) =~= dv.subrange(0, i - 1).push(dv[i - 1]));
            assert(out@ =~= base + enc_entries(dv.subrange(0, i as int)));
        }
    }
    proof {
        assert(dv.subrange(0, dv.len() as int) =~= dv);
        assert(out@ =~= spec_encode_entries(dv));
    }
    out
}

/// Reads a 32-bit value.
fn read_u32(data: &Vec<u8>, pos: usize) -> (r: Option<(u32, usize)>)
    ensures
        match r {
            Some((x, p)) => dec_u32(data@, pos as int) == Some((x, p as int)),
            None => dec_u32(data@, pos as int) is None,
        },
{
    if pos <= data.len() && data.len() - pos >= 4 {
        let s = slice_subrange(data.as_slice(), pos, pos + 4);
        Some((u32_from_le_bytes(s), pos + 4))
    } else {
        None
    }
}

/// Reads a 64-bit value.
fn read_u64(data: &Vec<u8>, pos: usize) -> (r: Option<(u64, usize)>)
    ensures
        match r {
            Some((x, p)) => dec_u64(data@, pos as int) == Some((x, p as int)),
            None => dec_u64(data@, pos as int) is None,
        },
{
    if pos <= data.len() && data.len() - pos >= 8 {
        let s = slice_subrange(data.as_slice(), pos, pos + 8);
        Some((u64_from_le_bytes(s), pos + 8))
    } else {
        None
    }
}

/// Reads one character, rejecting invalid code points.
fn read_char(data: &Vec<u8>, pos: usize) -> (r: Option<(char, usize)>)
    ensures
        match r {
            Some((c, p)) => dec_char(data@, pos as int) == Some((c, p as int)),
            None => dec_char(data@, pos as int) is None,
        },
{
    match read_u32(data, pos) {
        None => None,
        Some((x, p)) => match char_from_u32(x) {
            None => None,
            Some(c) => Some((c, p)),
        },
    }
}

/// Reads the nine flag bytes.
#[verifier::loop_isolation(false)]
fn read_flags(data: &Vec<u8>, pos: usize) -> (r: Option<(Vec<bool>, usize)>)
    ensures
        match r {
            Some((fl, p)) => dec_flags(data@, pos as int) == Some((fl@, p as int)),
            None => dec_flags(data@, pos as int) is None,
        },
{
    if !(pos <= data.len() && data.len() - pos >= 9) {
        return None;
    }
    let mut fl: Vec<bool> = Vec::new();
    let mut k: usize = 0;
    while k < 9
        invariant
            k <= 9,
            pos + 9 <= data@.len(),
            fl@.len() == k,
            forall|j: int| 0 <= j < k ==> #[trigger] data@[pos + j] <= 1,
            forall|j: int| 0 <= j < k ==> fl@[j] == (data@[pos + j] == 1),
        decreases 9 - k,
    {
        let byte = data[pos + k];
        if byte > 1 {
            return None;
        }
        fl.push(byte == 1);
        k = k + 1;
    }
    proof {
        assert(fl@ =~= Seq::new(9, |j: int| data@[pos as int + j] == 1));
    }
    Some((fl, pos + 9))
}

/// Too few bytes for the requested character count means failure.
proof fn lemma_dec_chars_short(b: Seq<u8>, pos: int, n: nat)
    requires
        n > 0,
        pos + 4 * n > b.len(),
    ensures
        dec_chars(b, pos, n) is None,
    decreases n,
{
    if pos + 4 <= b.len() && 0 <= pos {
        match dec_char(b, pos) {
            Option::None => {},
            Option::Some((c, p)) => {
                lemma_dec_chars_short(b, p, (n - 1) as nat);
            },
        }
    }
}

/// Reads a run of characters of known count.
#[verifier::loop_isolation(false)]
fn read_chars(data: &Vec<u8>, pos: usize, n: u64) -> (r: Option<(Vec<char>, usize)>)
    ensures
        match r {
            Some((s, p)) => dec_chars(data@, pos as int, n as nat) == Some((s@, p as int)),
            None => dec_chars(data@, pos as int, n as nat) is None,
        },
{
    if n == 0 {
        return Some((Vec::new(), pos));
    }
    if pos > data.len() || n > ((data.len() - pos) / 4) as u64 {
        proof {
            if pos <= data@.len() {
                let avail = data@.len() - pos;
                assert(avail == 4 * (avail / 4) + avail % 4);
                assert(avail < 4 * (n as int));
            }
            lemma_dec_chars_short(data@, pos as int, n as nat);
        }
        return None;
    }
    let mut acc: Vec<char> = Vec::new();
    let mut p: usize = pos;
    let mut i: u64 = 0;
    while i < n
        invariant
            0 <= i <= n,
            dec_chars(data@, pos as int, n as nat) == (match dec_chars(
                data@,
                p as int,
                (n - i) as nat,
            ) {
                Option::None => None::<(Seq<char>, int)>,
                Option::Some((s, q)) => Some((acc@ + s, q)),
            }),
        decreases n - i,
    {
        match read_char(data, p) {
            None => {
                return None;
            },
            Some((c, p2)) => {
                let ghost old_acc = acc@;
                acc.push(c);
                p = p2;
                i = i + 1;
                proof {
                    assert forall|s: Seq<char>| true implies old_acc + (seq![c] + s) =~= acc@
                        + s by {
                        assert(old_acc + (seq![c] + s) =~= old_acc.push(c) + s);
                    }
                }
            },
        }
    }
    proof {
        assert(acc@ + Seq::<char>::empty() =~= acc@);
    }
    Some((acc, p))
}

/// Reads a length-prefixed string.
fn read_str(data: &Vec<u8>, pos: usize) -> (r: Option<(String, usize)>)
    ensures
        match r {
            Some((s, p)) => dec_str(data@, pos as int) == Some((s@, p as int)),
            None => dec_str(data@, pos as int) is None,
        },
{
    match read_u64(data, pos) {
        None => None,
        Some((n, p)) => match read_chars(data, p, n) {
            None => None,
            Some((v, q)) => Some((crate::strutil::chars_to_string(&v), q)),
        },
    }
}

/// Reads one entry.
fn read_entry(data: &Vec<u8>, pos: usize) -> (r: Option<(Entry, usize)>)
    ensures
        match r {
            Some((e, p)) => dec_entry(data@, pos as int) == Some((e@, p as int)),
            None => dec_entry(data@, pos as int) is None,
        },
{
    let (trad, p1) = match read_char(data, pos) {
        None => {
            return None;
        },
        Some(x) => x,
    };
    let (simp, p2) = match read_char(data, p1) {
        None => {
            return None;
        },
        Some(x) => x,
    };
    let (fl, p3) = match read_flags(data, p2) {
        None => {
            return None;
        },
        Some(x) => x,
    };
    let (v3, p4) = match read_str(data, p3) {
        None => {
            return None;
        },
        Some(x) => x,
    };
    let (v5, p5) = match read_str(data, p4) {
        None => {
            return None;
        },
        Some(x) => x,
    };
    let (code, p6) = match read_str(data, p5) {
        None => {
            return None;
        },
        Some(x) => x,
    };
    let (shortcut, p7) = match read_str(data, p6) {
        None => {
            return None;
        },
        Some(x) => x,
    };
    let (ob, p8) = match read_u32(data, p7) {
        None => {
            return None;
        },
        Some(x) => x,
    };
    let order: i32 = #[verifier::truncate] (ob as i32);
    let e = Entry {
        traditional: trad,
        simplified: simp,
        chinese: fl[0],
        big5: fl[1],
        hkscs: fl[2],
        taiwanese: fl[3],
        kanji: fl[4],
        hiragana: fl[5],
        katakana: fl[6],
        punctuation: fl[7],
        misc: fl[8],
        v3,
        v5,
        code,
        shortcut,
        order,
    };
    Some((e, p8))
}

/// Decodes a binary table artifact into its entry list; a structurally
/// invalid artifact is a [`DecodeError`].
#[verifier::loop_isolation(false)]
pub fn entries_from_data(data: &[u8]) -> (r: Result<Vec<Entry>, DecodeError>)
    ensures
        match r {
            Ok(v) => spec_decode_entries(data@) == Some(v.deep_view()),
            Err(_) => spec_decode_entries(data@) is None,
        },
{
    let v = slice_to_vec(data);
    let (n, p0) = match read_u64(&v, 0) {
        None => {
            return Err(DecodeError);
        },
        Some(x) => x,
    };
    let mut acc: Vec<Entry> = Vec::new();
    let mut p: usize = p0;
    let mut i: u64 = 0;
    while i < n
        invariant
            0 <= i <= n,
            v@ == data@,
            dec_u64(data@, 0) == Some((n, p0 as int)),
            dec_entries(data@, p0 as int, n as nat) == (match dec_entries(
                data@,
                p as int,
                (n - i) as nat,
            ) {
                Option::None => None::<(Seq<EntryView>, int)>,
                Option::Some((s, q)) => Some((acc.deep_view() + s, q)),
            }),
        decreases n - i,
    {
        match read_entry(&v, p) {
            None => {
                return Err(DecodeError);
            },
            Some((e, p2)) => {
                let ghost old_acc = acc.deep_view();
                let ghost ev = e@;
                acc.push(e);
                p = p2;
                i = i + 1;
                proof {
                    assert(acc.deep_view() =~= old_acc.push(ev));
                    assert forall|s: Seq<EntryView>| true implies old_acc + (seq![ev] + s)
                        =~= acc.deep_view() + s by {
                        assert(old_acc + (seq![ev] + s) =~= old_acc.push(ev) + s);
                    }
                }
            },
        }
    }
    proof {
        assert(acc.deep_view() + Seq::<EntryView>::empty() =~= acc.deep_view());
    }
    if p != v.len() {
        return Err(DecodeError);
    }
    Ok(acc)
}

} // verus!
