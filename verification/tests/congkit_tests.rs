use congkit::CongkitDB;
use congkit::CongkitFilter;
use congkit::CongkitVersion;

const TABLE: &str = "# a comment line\n\
我 我 1 1 1 1 0 0 0 0 0 onf onf onf 5\n\
你 你 1 1 0 0 0 0 0 0 0 onf of o 2\n\
佢 佢 1 0 0 0 0 0 0 0 0 onlr onlr on 9\n\
寫 写 1 1 0 0 0 0 0 0 0 jhxf jhof jh 3\n\
あ あ 0 0 0 0 0 1 0 0 0 hqia hqib hq 1\n\
\n\
# another comment\n";

fn chinese_db() -> CongkitDB {
    CongkitDB::from_txt(TABLE, CongkitVersion::V3, CongkitFilter::chinese()).unwrap()
}

fn full_db() -> CongkitDB {
    CongkitDB::from_txt(TABLE, CongkitVersion::V3, CongkitFilter::all()).unwrap()
}

fn ch(s: &str) -> char {
    s.chars().next().unwrap()
}

#[test]
fn end_to_end_example() {
    let db = chinese_db();
    assert_eq!(db.get_code(&ch("我")), Some("onf".to_string()));
    let found = db.get_characters("onf").unwrap();
    assert_eq!(found, vec![ch("你"), ch("我")]);
}

#[test]
fn round_trip_binary() {
    let entries = CongkitDB::to_entries(TABLE, &CongkitFilter::all()).unwrap();
    let bytes = congkit::to_data(&entries);
    let decoded = congkit::entries_from_data(&bytes).unwrap();
    assert_eq!(decoded, entries);
}

#[test]
fn round_trip_binary_partial_filter() {
    let filter = CongkitFilter {
        chinese: false,
        big5: true,
        hkscs: true,
        taiwanese: false,
        kanji: false,
        hiragana: false,
        katakana: false,
        punctuation: false,
        misc: false,
    };
    let entries = CongkitDB::to_entries(TABLE, &filter).unwrap();
    assert_eq!(entries.len(), 3);
    let bytes = congkit::to_data(&entries);
    let decoded = congkit::entries_from_data(&bytes).unwrap();
    assert_eq!(decoded, entries);
}

#[test]
fn from_data_builds_same_table() {
    let entries = CongkitDB::to_entries(TABLE, &CongkitFilter::all()).unwrap();
    let bytes = congkit::to_data(&entries);
    let db = CongkitDB::from_data(&bytes, CongkitVersion::V3, CongkitFilter::chinese()).unwrap();
    let direct = chinese_db();
    for c in ["我", "你", "佢", "寫", "あ"] {
        assert_eq!(db.get_code(&ch(c)), direct.get_code(&ch(c)));
    }
}

#[test]
fn filter_monotonicity() {
    let narrow = chinese_db();
    let wide = full_db();
    for c in ["我", "你", "佢", "寫", "あ"] {
        if narrow.get_code(&ch(c)).is_some() {
            assert!(wide.get_code(&ch(c)).is_some());
        }
    }
    // the Japanese entry is only in the wide build
    assert_eq!(narrow.get_code(&ch("あ")), None);
    assert_eq!(wide.get_code(&ch("あ")), Some("hqia".to_string()));
}

#[test]
fn version_binding() {
    let v3 = CongkitDB::from_txt(TABLE, CongkitVersion::V3, CongkitFilter::all()).unwrap();
    let v5 = CongkitDB::from_txt(TABLE, CongkitVersion::V5, CongkitFilter::all()).unwrap();
    assert_eq!(v3.get_code(&ch("你")), Some("onf".to_string()));
    assert_eq!(v5.get_code(&ch("你")), Some("of".to_string()));
    assert_eq!(v3.get_code(&ch("寫")), Some("jhxf".to_string()));
    assert_eq!(v5.get_code(&ch("寫")), Some("jhof".to_string()));
}

#[test]
fn radical_bijection() {
    let db = CongkitDB::default();
    let pairs = [
        ('日', 'a'),
        ('月', 'b'),
        ('金', 'c'),
        ('木', 'd'),
        ('水', 'e'),
        ('火', 'f'),
        ('土', 'g'),
        ('竹', 'h'),
        ('戈', 'i'),
        ('十', 'j'),
        ('大', 'k'),
        ('中', 'l'),
        ('一', 'm'),
        ('弓', 'n'),
        ('人', 'o'),
        ('心', 'p'),
        ('手', 'q'),
        ('口', 'r'),
        ('尸', 's'),
        ('廿', 't'),
        ('山', 'u'),
        ('女', 'v'),
        ('田', 'w'),
        ('難', 'x'),
        ('卜', 'y'),
    ];
    for (radical, key) in pairs {
        assert_eq!(db.get_radical(&key), Some(radical));
        assert_eq!(db.get_key(&radical), Some(key));
    }
    assert_eq!(db.get_radical(&'z'), None);
    assert_eq!(db.get_radical(&'A'), None);
    assert_eq!(db.get_key(&'z'), None);
    assert_eq!(db.get_key(&'我'), None);
}

#[test]
fn radicals_substitution() {
    let db = CongkitDB::default();
    assert_eq!(db.get_radicals("abc"), "日月金");
    assert_eq!(db.get_radicals("hqi"), "竹手戈");
    // unknown characters pass through unchanged, length is preserved
    let rendered = db.get_radicals("hqi rgpd!Z");
    assert_eq!(rendered, "竹手戈 口土心木!Z");
    assert_eq!(rendered.chars().count(), "hqi rgpd!Z".chars().count());
    assert_eq!(db.get_radicals(""), "");
}

#[test]
fn star_pattern_sorted_by_order() {
    let db = full_db();
    let all = db.get_characters("*").unwrap();
    // orders: あ=1, 你=2, 寫=3, 我=5, 佢=9
    assert_eq!(all, vec![ch("あ"), ch("你"), ch("寫"), ch("我"), ch("佢")]);
}

#[test]
fn wildcard_semantics() {
    let db = full_db();
    // hqi* matches codes beginning with literal hqi plus at least one more
    // character, anchored at both ends
    assert_eq!(db.get_characters("hqi*").unwrap(), vec![ch("あ")]);
    assert_eq!(db.get_characters("hqia*").unwrap(), Vec::<char>::new());
    assert_eq!(db.get_characters("hqia").unwrap(), vec![ch("あ")]);
    assert_eq!(db.get_characters("qi*").unwrap(), Vec::<char>::new());
    assert_eq!(db.get_characters("on*").unwrap(), vec![ch("你"), ch("我"), ch("佢")]);
    assert_eq!(db.get_characters("*f").unwrap(), vec![ch("你"), ch("寫"), ch("我")]);
    assert_eq!(db.get_characters("o*r").unwrap(), vec![ch("佢")]);
}

#[test]
fn batch_equivalence() {
    let db = full_db();
    let patterns = vec!["onf*".to_string(), "jh*f".to_string(), "*".to_string(), "zz".to_string()];
    let batch = db.get_chars_mult(patterns.clone()).unwrap();
    assert_eq!(batch.len(), patterns.len());
    for (pattern, chars) in &batch {
        assert_eq!(*chars, db.get_characters(pattern).unwrap());
    }
    for (i, (pattern, _)) in batch.iter().enumerate() {
        assert_eq!(*pattern, patterns[i]);
    }
}

#[test]
fn get_codes_preserves_order_and_duplicates() {
    let db = chinese_db();
    let codes = db.get_codes(vec![ch("我"), ch("你"), ch("我"), ch("あ")]);
    assert_eq!(
        codes,
        vec![Some("onf".to_string()), Some("onf".to_string()), Some("onf".to_string()), None]
    );
}

#[test]
fn parse_error_wrong_field_count() {
    let txt = "我 我 1 1 1 1 0 0 0 0 0 onf onf onf\n";
    assert!(CongkitDB::to_entries(txt, &CongkitFilter::all()).is_err());
    let txt = "我 我 1 1 1 1 0 0 0 0 0 onf onf onf 5 extra\n";
    assert!(CongkitDB::to_entries(txt, &CongkitFilter::all()).is_err());
}

#[test]
fn parse_error_bad_integer() {
    let txt = "我 我 1 1 1 1 0 0 0 0 0 onf onf onf five\n";
    assert!(CongkitDB::from_txt(txt, CongkitVersion::V3, CongkitFilter::all()).is_err());
    let txt = "我 我 1 1 1 1 0 0 0 0 0 onf onf onf 99999999999999999999\n";
    assert!(CongkitDB::from_txt(txt, CongkitVersion::V3, CongkitFilter::all()).is_err());
}

#[test]
fn parse_error_hits_filtered_lines_too() {
    // the malformed line would be dropped by the filter, yet parsing fails
    let txt = "あ あ 0 0 0 0 0 1 0 0 0 hqia hqib hq x\n";
    assert!(CongkitDB::from_txt(txt, CongkitVersion::V3, CongkitFilter::chinese()).is_err());
}

#[test]
fn parse_negative_order() {
    let txt = "我 我 1 0 0 0 0 0 0 0 0 a b c -7\n";
    let db = CongkitDB::from_txt(txt, CongkitVersion::V3, CongkitFilter::all()).unwrap();
    assert_eq!(db.get_code(&ch("我")), Some("a".to_string()));
}

#[test]
fn comments_and_blank_lines_skipped() {
    let txt = "# 我 this is not a record\n\n\n";
    let entries = CongkitDB::to_entries(txt, &CongkitFilter::all()).unwrap();
    assert!(entries.is_empty());
}

#[test]
fn decode_error_garbage() {
    assert!(congkit::entries_from_data(&[1, 2, 3]).is_err());
}

#[test]
fn decode_error_truncated() {
    let entries = CongkitDB::to_entries(TABLE, &CongkitFilter::all()).unwrap();
    let bytes = congkit::to_data(&entries);
    assert!(congkit::entries_from_data(&bytes[..bytes.len() - 1]).is_err());
}

#[test]
fn decode_error_trailing_bytes() {
    let entries = CongkitDB::to_entries(TABLE, &CongkitFilter::all()).unwrap();
    let mut bytes = congkit::to_data(&entries);
    bytes.push(0);
    assert!(congkit::entries_from_data(&bytes).is_err());
}

#[test]
fn decode_error_invalid_character() {
    // count = 1, then a surrogate code point where a character is expected
    let mut bytes = 1u64.to_le_bytes().to_vec();
    bytes.extend_from_slice(&0xD800u32.to_le_bytes());
    bytes.extend_from_slice(&[0u8; 64]);
    assert!(congkit::entries_from_data(&bytes).is_err());
}

#[test]
fn empty_entry_list_round_trips() {
    let entries: Vec<congkit::Entry> = Vec::new();
    let bytes = congkit::to_data(&entries);
    let decoded = congkit::entries_from_data(&bytes).unwrap();
    assert!(decoded.is_empty());
}

#[test]
fn last_occurrence_wins_on_duplicate_key() {
    let txt = "我 我 1 0 0 0 0 0 0 0 0 aaa bbb s 1\n\
               我 我 1 0 0 0 0 0 0 0 0 ccc ddd t 2\n";
    let db = CongkitDB::from_txt(txt, CongkitVersion::V3, CongkitFilter::all()).unwrap();
    assert_eq!(db.get_code(&ch("我")), Some("ccc".to_string()));
    assert_eq!(db.get_characters("*").unwrap(), vec![ch("我")]);
}

#[test]
fn filter_presets() {
    let all = CongkitFilter::all();
    assert!(
        all.chinese
            && all.big5
            && all.hkscs
            && all.taiwanese
            && all.kanji
            && all.hiragana
            && all.katakana
            && all.punctuation
            && all.misc
    );
    let chinese = CongkitFilter::chinese();
    assert!(chinese.chinese && chinese.big5 && chinese.hkscs && chinese.taiwanese);
    assert!(!chinese.kanji && !chinese.hiragana && !chinese.katakana);
    assert!(!chinese.punctuation && !chinese.misc);
    let japanese = CongkitFilter::japanese();
    assert!(japanese.kanji && japanese.hiragana && japanese.katakana);
    assert!(!japanese.chinese && !japanese.big5 && !japanese.hkscs && !japanese.taiwanese);
    assert!(!japanese.punctuation && !japanese.misc);
    assert_eq!(CongkitFilter::default(), chinese);
}

#[test]
fn japanese_filter_selects_japanese_entries() {
    let db = CongkitDB::from_txt(TABLE, CongkitVersion::V3, CongkitFilter::japanese()).unwrap();
    assert_eq!(db.get_code(&ch("あ")), Some("hqia".to_string()));
    assert_eq!(db.get_code(&ch("我")), None);
}

#[test]
fn empty_pattern_matches_empty_code() {
    let txt = "我 我 1 0 0 0 0 0 0 0 0  b s 1\n";
    // the v3 field is empty (two spaces), so under V3 the active code is empty
    let db = CongkitDB::from_txt(txt, CongkitVersion::V3, CongkitFilter::all()).unwrap();
    assert_eq!(db.get_code(&ch("我")), Some(String::new()));
    assert_eq!(db.get_characters("").unwrap(), vec![ch("我")]);
    // a bare star needs at least one character, so it misses the empty code
    assert_eq!(db.get_characters("*").unwrap(), Vec::<char>::new());
}

#[test]
fn batch_with_duplicate_patterns() {
    let db = full_db();
    let patterns = vec!["onf".to_string(), "onf".to_string()];
    let batch = db.get_chars_mult(patterns).unwrap();
    assert_eq!(batch.len(), 2);
    for (pattern, chars) in &batch {
        assert_eq!(pattern, "onf");
        assert_eq!(*chars, db.get_characters("onf").unwrap());
    }
}

#[test]
fn plus_signed_order_accepted() {
    let txt = "我 我 1 0 0 0 0 0 0 0 0 a b c +7\n";
    let db = CongkitDB::from_txt(txt, CongkitVersion::V3, CongkitFilter::all()).unwrap();
    assert_eq!(db.get_code(&ch("我")), Some("a".to_string()));
    let txt = "我 我 1 0 0 0 0 0 0 0 0 a b c +\n";
    assert!(CongkitDB::from_txt(txt, CongkitVersion::V3, CongkitFilter::all()).is_err());
}

#[test]
fn glyph_field_takes_first_character() {
    let txt = "我x 我y 1 0 0 0 0 0 0 0 0 a b c 1\n";
    let db = CongkitDB::from_txt(txt, CongkitVersion::V3, CongkitFilter::all()).unwrap();
    assert_eq!(db.get_code(&ch("我")), Some("a".to_string()));
}

#[test]
fn empty_table_text() {
    let db = CongkitDB::from_txt("", CongkitVersion::V3, CongkitFilter::all()).unwrap();
    assert_eq!(db.get_code(&ch("我")), None);
    assert_eq!(db.get_characters("*").unwrap(), Vec::<char>::new());
}
