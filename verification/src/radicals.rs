//! The fixed bidirectional mapping between the 25 ideographic radical
//! glyphs and the 25 lowercase key letters, held in a `bimap::BiHashMap`
//! behind trusted wrappers.

use vstd::prelude::*;

verus! {

#[verifier::external_type_specification]
#[verifier::external_body]
#[verifier::reject_recursive_types(L)]
#[verifier::reject_recursive_types(R)]
#[verifier::reject_recursive_types(LS)]
#[verifier::reject_recursive_types(RS)]
pub struct ExBiHashMap<L, R, LS, RS>(bimap::BiHashMap<L, R, LS, RS>);

/// The pairs a radical bimap holds, read from left (radical glyph) to
/// right (key letter).
pub uninterp spec fn bimap_fwd(m: bimap::BiMap<char, char>) -> Map<char, char>;

/// The pairs a radical bimap holds, read from right (key letter) to left
/// (radical glyph).
pub uninterp spec fn bimap_rev(m: bimap::BiMap<char, char>) -> Map<char, char>;

/// The empty radical mapping.
pub open spec fn empty_char_map() -> Map<char, char> {
    Map::empty()
}

/// Relies on bimap::BiHashMap::new: creates an empty bimap, so both
/// directions read as the empty map.
#[verifier::external_body]
fn bimap_new() -> (m: bimap::BiMap<char, char>)
    ensures
        bimap_fwd(m) == empty_char_map(),
        bimap_rev(m) == empty_char_map(),
{
    bimap::BiMap::new()
}

/// Relies on bimap::BiHashMap::insert: inserts the pair, removing any pair
/// that shares either value; when both values are fresh, as required here,
/// each direction gains exactly the new pair.
#[verifier::external_body]
fn bimap_insert(m: &mut bimap::BiMap<char, char>, left: char, right: char)
    requires
        !bimap_fwd(*old(m)).dom().contains(left),
        !bimap_rev(*old(m)).dom().contains(right),
    ensures
        bimap_fwd(*final(m)) == bimap_fwd(*old(m)).insert(left, right),
        bimap_rev(*final(m)) == bimap_rev(*old(m)).insert(right, left),
{
    m.insert(left, right);
}

/// Relies on bimap::BiHashMap::get_by_left: returns the right value paired
/// with the given left value, if the pair is present.
#[verifier::external_body]
pub(crate) fn bimap_get_by_left(m: &bimap::BiMap<char, char>, left: &char) -> (r: Option<char>)
    ensures
        r == (if bimap_fwd(*m).dom().contains(*left) {
            Some(bimap_fwd(*m)[*left])
        } else {
            None::<char>
        }),
{
    m.get_by_left(left).copied()
}

/// Relies on bimap::BiHashMap::get_by_right: returns the left value paired
/// with the given right value, if the pair is present.
#[verifier::external_body]
pub(crate) fn bimap_get_by_right(m: &bimap::BiMap<char, char>, right: &char) -> (r: Option<char>)
    ensures
        r == (if bimap_rev(*m).dom().contains(*right) {
            Some(bimap_rev(*m)[*right])
        } else {
            None::<char>
        }),
{
    m.get_by_right(right).copied()
}

/// The fixed radical-to-key mapping: each of the 25 radical glyphs and the
/// key letter it stands for.
pub open spec fn radical_to_key() -> Map<char, char> {
    map![
        '日' => 'a', '月' => 'b', '金' => 'c', '木' => 'd', '水' => 'e',
        '火' => 'f', '土' => 'g', '竹' => 'h', '戈' => 'i', '十' => 'j',
        '大' => 'k', '中' => 'l', '一' => 'm', '弓' => 'n', '人' => 'o',
        '心' => 'p', '手' => 'q', '口' => 'r', '尸' => 's', '廿' => 't',
        '山' => 'u', '女' => 'v', '田' => 'w', '難' => 'x', '卜' => 'y'
    ]
}

/// The inverse direction: each key letter and the radical glyph it renders.
pub open spec fn key_to_radical() -> Map<char, char> {
    map![
        'a' => '日', 'b' => '月', 'c' => '金', 'd' => '木', 'e' => '水',
        'f' => '火', 'g' => '土', 'h' => '竹', 'i' => '戈', 'j' => '十',
        'k' => '大', 'l' => '中', 'm' => '一', 'n' => '弓', 'o' => '人',
        'p' => '心', 'q' => '手', 'r' => '口', 's' => '尸', 't' => '廿',
        'u' => '山', 'v' => '女', 'w' => '田', 'x' => '難', 'y' => '卜'
    ]
}

/// Builds the fixed 25-pair radical bimap.
#[verifier::rlimit(60)]
pub(crate) fn build_radicals() -> (m: bimap::BiMap<char, char>)
    ensures
        bimap_fwd(m) == radical_to_key(),
        bimap_rev(m) == key_to_radical(),
{
    let mut m = bimap_new();
    bimap_insert(&mut m, '日', 'a');
    bimap_insert(&mut m, '月', 'b');
    bimap_insert(&mut m, '金', 'c');
    bimap_insert(&mut m, '木', 'd');
    bimap_insert(&mut m, '水', 'e');
    bimap_insert(&mut m, '火', 'f');
    bimap_insert(&mut m, '土', 'g');
    bimap_insert(&mut m, '竹', 'h');
    bimap_insert(&mut m, '戈', 'i');
    bimap_insert(&mut m, '十', 'j');
    bimap_insert(&mut m, '大', 'k');
    bimap_insert(&mut m, '中', 'l');
    bimap_insert(&mut m, '一', 'm');
    bimap_insert(&mut m, '弓', 'n');
    bimap_insert(&mut m, '人', 'o');
    bimap_insert(&mut m, '心', 'p');
    bimap_insert(&mut m, '手', 'q');
    bimap_insert(&mut m, '口', 'r');
    bimap_insert(&mut m, '尸', 's');
    bimap_insert(&mut m, '廿', 't');
    bimap_insert(&mut m, '山', 'u');
    bimap_insert(&mut m, '女', 'v');
    bimap_insert(&mut m, '田', 'w');
    bimap_insert(&mut m, '難', 'x');
    bimap_insert(&mut m, '卜', 'y');
    proof {
        assert(bimap_fwd(m) =~= radical_to_key());
        assert(bimap_rev(m) =~= key_to_radical());
    }
    m
}

/// The radical bijection: a key letter renders a radical glyph exactly when
/// that glyph stands for the letter, over all 25 pairs; every other symbol
/// lies outside both directions.
pub proof fn lemma_radical_bijection()
    ensures
        forall|r: char, k: char|
            radical_to_key().contains_pair(r, k) <==> key_to_radical().contains_pair(k, r),
{
}

} // verus!
