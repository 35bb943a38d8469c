use unicode_normalization::normalize::{
    canonical_combining_class, compose, decompose_canonical, decompose_canonical_ext,
    decompose_compatible, is_combining_mark,
};
use unicode_normalization::quick_check::{
    is_nfc, is_nfc_quick, is_nfc_stream_safe, is_nfd, is_nfd_quick, is_nfd_stream_safe,
    is_nfd_stream_safe_quick, is_nfkc, is_nfkc_quick, is_nfkd,
};
use unicode_normalization::tables::{CharacterDatabase, IsNormalized, StreamSafeClass};
use unicode_normalization::UnicodeNormalization;

fn ch(v: u32) -> char {
    char::from_u32(v).unwrap()
}

fn text(s: &str) -> Vec<char> {
    s.chars().collect()
}

fn sample_db() -> CharacterDatabase {
    let mut classes = Vec::new();
    for v in 0x300..=0x314 {
        classes.push((ch(v), 230u8));
    }
    classes.push((ch(0x316), 220));
    classes.push((ch(0x323), 220));
    classes.push((ch(0x327), 202));
    let maybe = IsNormalized::Maybe;
    let no = IsNormalized::No;
    let composing_marks = [0x301, 0x307, 0x308, 0x30A, 0x323];
    let mut nfc_quick: Vec<(char, IsNormalized)> =
        composing_marks.iter().map(|&v| (ch(v), maybe)).collect();
    let decomposable = [0xC5, 0xE4, 0xE5, 0xE9, 0x1FB, 0x1E63, 0x1E69, 0xD55C, 0xAC00];
    let mut nfd_quick: Vec<(char, IsNormalized)> =
        decomposable.iter().map(|&v| (ch(v), no)).collect();
    for v in [0x212B, 0x2126, 0x344, 0xF900] {
        nfc_quick.push((ch(v), no));
        nfd_quick.push((ch(v), no));
    }
    let mut nfkc_quick = nfc_quick.clone();
    let mut nfkd_quick = nfd_quick.clone();
    for v in [0xFB01, 0xA0, 0xB2] {
        nfkc_quick.push((ch(v), no));
        nfkd_quick.push((ch(v), no));
    }
    let mut db = CharacterDatabase {
        combining_classes: classes,
        canonical: vec![
            (ch(0xC5), vec!['A', ch(0x30A)]),
            (ch(0xE4), vec!['a', ch(0x308)]),
            (ch(0xE5), vec!['a', ch(0x30A)]),
            (ch(0xE9), vec!['e', ch(0x301)]),
            (ch(0x1FB), vec![ch(0xE5), ch(0x301)]),
            (ch(0x1E63), vec!['s', ch(0x323)]),
            (ch(0x1E69), vec![ch(0x1E63), ch(0x307)]),
            (ch(0x212B), vec![ch(0xC5)]),
            (ch(0x2126), vec![ch(0x3A9)]),
            (ch(0x344), vec![ch(0x308), ch(0x301)]),
            (ch(0xF900), vec![ch(0x8C48)]),
        ],
        compatible: vec![
            (ch(0xFB01), vec!['f', 'i']),
            (ch(0xA0), vec![' ']),
            (ch(0xB2), vec!['2']),
        ],
        extended: vec![(ch(0xF900), vec![ch(0x8C48), ch(0xFE00)])],
        compositions: vec![
            ('A', vec![(ch(0x30A), ch(0xC5))]),
            ('a', vec![(ch(0x30A), ch(0xE5)), (ch(0x308), ch(0xE4))]),
            ('e', vec![(ch(0x301), ch(0xE9))]),
            (ch(0xE5), vec![(ch(0x301), ch(0x1FB))]),
            ('s', vec![(ch(0x323), ch(0x1E63))]),
            (ch(0x1E63), vec![(ch(0x307), ch(0x1E69))]),
            (ch(0x308), vec![(ch(0x301), ch(0x344))]),
        ],
        exclusions: vec![ch(0x344)],
        nfc_quick,
        nfd_quick,
        nfkc_quick,
        nfkd_quick,
        combining_marks: vec![(ch(0x300), ch(0x36F))],
        stream_classes: Vec::new(),
    };
    sort_tables(&mut db);
    db
}

fn sort_tables(db: &mut CharacterDatabase) {
    db.combining_classes.sort_by_key(|e| e.0);
    db.canonical.sort_by_key(|e| e.0);
    db.compatible.sort_by_key(|e| e.0);
    db.extended.sort_by_key(|e| e.0);
    db.compositions.sort_by_key(|e| e.0);
    for e in db.compositions.iter_mut() {
        e.1.sort_by_key(|p| p.0);
    }
    db.exclusions.sort();
    db.nfc_quick.sort_by_key(|e| e.0);
    db.nfd_quick.sort_by_key(|e| e.0);
    db.nfkc_quick.sort_by_key(|e| e.0);
    db.nfkd_quick.sort_by_key(|e| e.0);
    db.stream_classes.sort_by_key(|e| e.0);
}

#[test]
fn compose_a_with_ring() {
    let db = sample_db();
    assert_eq!(compose(&db, 'A', '\u{30a}'), Some('Å'));
    assert_eq!(compose(&db, 'A', '\u{301}'), None);
}

#[test]
fn composed_text_is_kept_by_nfc() {
    let db = sample_db();
    assert_eq!(text("ÅΩ").nfc(&db), text("ÅΩ"));
}

#[test]
fn combining_class_literals() {
    let db = sample_db();
    assert_eq!(canonical_combining_class(&db, '\u{301}'), 230);
    for c in ['a', 'Z', 'q'] {
        assert_eq!(canonical_combining_class(&db, c), 0);
    }
}

#[test]
fn combining_mark_ranges() {
    let db = sample_db();
    assert!(is_combining_mark(&db, '\u{301}'));
    assert!(is_combining_mark(&db, '\u{36f}'));
    assert!(!is_combining_mark(&db, 'a'));
    assert!(!is_combining_mark(&db, '\u{370}'));
}

#[test]
fn hangul_round_trip() {
    let db = sample_db();
    let jamo = vec!['\u{1112}', '\u{1161}', '\u{11ab}'];
    assert_eq!(decompose_canonical(&db, '\u{d55c}'), jamo);
    assert_eq!(jamo.nfc(&db), vec!['\u{d55c}']);
    assert_eq!(vec!['\u{d55c}'].nfd(&db), jamo);
    let lv = vec!['\u{1100}', '\u{1161}'];
    assert_eq!(decompose_canonical(&db, '\u{ac00}'), lv);
    assert_eq!(lv.nfc(&db), vec!['\u{ac00}']);
    assert_eq!(compose(&db, '\u{1112}', '\u{1161}'), Some('\u{d558}'));
    assert_eq!(compose(&db, '\u{d558}', '\u{11ab}'), Some('\u{d55c}'));
    assert_eq!(compose(&db, '\u{d55c}', '\u{11ab}'), None);
}

#[test]
fn recursive_decomposition() {
    let db = sample_db();
    assert_eq!(decompose_canonical(&db, '\u{212b}'), vec!['A', '\u{30a}']);
    assert_eq!(decompose_canonical(&db, '\u{1e69}'), vec!['s', '\u{323}', '\u{307}']);
    assert_eq!(decompose_canonical(&db, 'x'), vec!['x']);
    assert_eq!(decompose_canonical(&db, '\u{fb01}'), vec!['\u{fb01}']);
    assert_eq!(decompose_compatible(&db, '\u{fb01}'), vec!['f', 'i']);
}

#[test]
fn extended_decomposition_keeps_variation() {
    let db = sample_db();
    assert_eq!(decompose_canonical(&db, '\u{f900}'), vec!['\u{8c48}']);
    assert_eq!(decompose_canonical_ext(&db, '\u{f900}'), vec!['\u{8c48}', '\u{fe00}']);
    let s = vec!['\u{f900}'];
    assert_eq!(s.nfd(&db), vec!['\u{8c48}']);
    assert_eq!(s.nfd_ext(&db), vec!['\u{8c48}', '\u{fe00}']);
    assert_eq!(s.nfc_ext(&db), vec!['\u{8c48}', '\u{fe00}']);
    assert_eq!(s.nfkd_ext(&db), vec!['\u{8c48}', '\u{fe00}']);
    assert_eq!(s.nfkc_ext(&db), vec!['\u{8c48}', '\u{fe00}']);
}

#[test]
fn marks_are_put_in_canonical_order() {
    let db = sample_db();
    assert_eq!(text("a\u{301}\u{316}").nfd(&db), text("a\u{316}\u{301}"));
    assert_eq!(text("s\u{307}\u{323}").nfd(&db), text("s\u{323}\u{307}"));
    // marks of one class keep their order
    assert_eq!(text("a\u{30a}\u{301}").nfd(&db), text("a\u{30a}\u{301}"));
    // a run longer than the inline buffer
    let long = text("x\u{301}\u{302}\u{303}\u{316}\u{304}\u{327}\u{305}y\u{316}");
    assert_eq!(long.nfd(&db), text("x\u{327}\u{316}\u{301}\u{302}\u{303}\u{304}\u{305}y\u{316}"));
    // marks before any starter
    assert_eq!(text("\u{301}\u{316}a").nfd(&db), text("\u{316}\u{301}a"));
}

#[test]
fn compatibility_forms() {
    let db = sample_db();
    assert_eq!(text("\u{fb01}\u{b2}").nfkd(&db), text("fi2"));
    assert_eq!(text("\u{fb01}\u{e9}").nfkc(&db), text("fi\u{e9}"));
    assert_eq!(text("\u{fb01}").nfc(&db), text("\u{fb01}"));
}

#[test]
fn composition_blocking() {
    let db = sample_db();
    // a mark of a smaller class does not block
    assert_eq!(text("e\u{316}\u{301}").nfc(&db), text("\u{e9}\u{316}"));
    // a mark of the same class blocks
    assert_eq!(text("a\u{301}\u{30a}").nfc(&db), text("a\u{301}\u{30a}"));
    // a composite can take a further mark
    assert_eq!(text("s\u{307}\u{323}").nfc(&db), text("\u{1e69}"));
    assert_eq!(text("\u{1fb}").nfc(&db), text("\u{1fb}"));
    assert_eq!(text("a\u{308}\u{308}").nfc(&db), text("\u{e4}\u{308}"));
}

#[test]
fn excluded_composite_is_not_produced() {
    let db = sample_db();
    assert_eq!(compose(&db, '\u{308}', '\u{301}'), None);
    assert_eq!(text("\u{344}").nfc(&db), text("\u{308}\u{301}"));
}

#[test]
fn singletons_decompose() {
    let db = sample_db();
    assert_eq!(text("\u{2126}").nfc(&db), text("\u{3a9}"));
    assert_eq!(text("\u{212b}").nfc(&db), text("\u{c5}"));
    assert_eq!(text("\u{212b}").nfd(&db), text("A\u{30a}"));
}

#[test]
fn empty_text() {
    let db = sample_db();
    let e: Vec<char> = Vec::new();
    assert!(e.nfd(&db).is_empty());
    assert!(e.nfc(&db).is_empty());
    assert!(e.stream_safe(&db).is_empty());
    assert_eq!(is_nfc_quick(&db, &e), IsNormalized::Yes);
}

#[test]
fn normalizing_twice_changes_nothing() {
    let db = sample_db();
    for s in ["\u{1fb}x\u{212b}", "s\u{307}\u{323}e\u{316}\u{301}", "\u{fb01}\u{d55c}a\u{301}\u{30a}"] {
        let t = text(s);
        let c = t.nfc(&db);
        assert_eq!(c.nfc(&db), c);
        let d = t.nfd(&db);
        assert_eq!(d.nfd(&db), d);
        let kc = t.nfkc(&db);
        assert_eq!(kc.nfkc(&db), kc);
        let kd = t.nfkd(&db);
        assert_eq!(kd.nfkd(&db), kd);
        // canonical equivalence and decomposition stability
        assert_eq!(d.nfc(&db), c);
        assert_eq!(c.nfd(&db), d);
    }
}

#[test]
fn stream_safe_inserts_joiner() {
    let db = sample_db();
    let mut s = vec!['a'];
    for _ in 0..31 {
        s.push('\u{301}');
    }
    let out = s.stream_safe(&db);
    let mut expected = vec!['a'];
    for _ in 0..30 {
        expected.push('\u{301}');
    }
    expected.push('\u{34f}');
    expected.push('\u{301}');
    assert_eq!(out, expected);
    assert_eq!(out.stream_safe(&db), out);
    let short = text("a\u{301}\u{301}b");
    assert_eq!(short.stream_safe(&db), short);
}

#[test]
fn stream_safe_skips_extending_characters() {
    let mut db = sample_db();
    db.stream_classes.push(('\u{302}', StreamSafeClass::Extend));
    assert!(db.is_well_formed());
    let mut s = vec!['a'];
    for _ in 0..30 {
        s.push('\u{301}');
    }
    s.push('\u{302}');
    assert_eq!(s.stream_safe(&db), s);
    s.push('\u{301}');
    let out = s.stream_safe(&db);
    assert_eq!(out.len(), s.len() + 1);
    assert_eq!(out[out.len() - 2], '\u{34f}');
}

#[test]
fn quick_check_verdicts() {
    let db = sample_db();
    assert_eq!(is_nfc_quick(&db, &text("abc")), IsNormalized::Yes);
    assert_eq!(is_nfc_quick(&db, &text("a\u{301}")), IsNormalized::Maybe);
    assert_eq!(is_nfc_quick(&db, &text("a\u{301}\u{2126}")), IsNormalized::No);
    assert_eq!(is_nfd_quick(&db, &text("a\u{316}\u{301}")), IsNormalized::Yes);
    // out of canonical order although every flag is Yes
    assert_eq!(is_nfd_quick(&db, &text("a\u{301}\u{316}")), IsNormalized::Maybe);
    assert_eq!(is_nfd_quick(&db, &text("\u{e9}")), IsNormalized::No);
    assert_eq!(is_nfkc_quick(&db, &text("\u{fb01}")), IsNormalized::No);
    assert_eq!(is_nfc_quick(&db, &text("\u{fb01}")), IsNormalized::Yes);
}

#[test]
fn full_checks_settle_maybe() {
    let db = sample_db();
    assert!(is_nfc(&db, &text("a\u{301}")));
    assert!(!is_nfc(&db, &text("e\u{301}")));
    assert!(is_nfc(&db, &text("\u{e9}")));
    assert!(!is_nfd(&db, &text("a\u{301}\u{316}")));
    assert!(is_nfd(&db, &text("a\u{316}\u{301}")));
    assert!(!is_nfkc(&db, &text("\u{fb01}")));
    assert!(is_nfkd(&db, &text("fi")));
}

#[test]
fn stream_safe_checks() {
    let db = sample_db();
    let mut s = vec!['a'];
    for _ in 0..31 {
        s.push('\u{316}');
    }
    assert_eq!(is_nfd_quick(&db, &s), IsNormalized::Yes);
    assert_eq!(is_nfd_stream_safe_quick(&db, &s), IsNormalized::No);
    assert!(!is_nfd_stream_safe(&db, &s));
    s.pop();
    assert!(is_nfd_stream_safe(&db, &s));
    assert!(is_nfc_stream_safe(&db, &text("\u{e9}x")));
    assert!(!is_nfc_stream_safe(&db, &text("e\u{301}")));
}

#[test]
fn well_formedness_check() {
    let mut db = sample_db();
    assert!(db.is_well_formed());
    db.canonical.swap(0, 1);
    assert!(!db.is_well_formed());
    let mut db = sample_db();
    db.compositions[1].1.swap(0, 1);
    assert!(!db.is_well_formed());
    let mut db = sample_db();
    db.combining_marks.push(('\u{360}', '\u{370}'));
    assert!(!db.is_well_formed());
    let mut db = sample_db();
    db.exclusions.push('\u{300}');
    assert!(!db.is_well_formed());
}

#[test]
fn quick_yes_means_unchanged() {
    let db = sample_db();
    for s in ["abc", "a\u{316}\u{301}", "\u{3a9}x"] {
        let t = text(s);
        assert_eq!(is_nfd_quick(&db, &t), IsNormalized::Yes);
        assert_eq!(t.nfd(&db), t);
    }
    let t = text("\u{e9}");
    assert_eq!(is_nfd_quick(&db, &t), IsNormalized::No);
    assert_ne!(t.nfd(&db), t);
}

#[test]
fn one_step_decomposition() {
    let db = sample_db();
    assert_eq!(db.decompose_one_step('\u{1e69}', false, false), Some(vec!['\u{1e63}', '\u{307}']));
    assert_eq!(db.decompose_one_step('\u{fb01}', false, false), None);
    assert_eq!(db.decompose_one_step('\u{fb01}', true, false), Some(vec!['f', 'i']));
    assert_eq!(db.decompose_one_step('\u{d4db}', false, false), Some(vec!['\u{1111}', '\u{1171}', '\u{11b6}']));
}

#[test]
fn quick_no_means_changed() {
    let db = sample_db();
    for s in ["\u{2126}", "a\u{212b}b", "x\u{344}"] {
        let t = text(s);
        assert_eq!(is_nfc_quick(&db, &t), IsNormalized::No);
        assert_ne!(t.nfc(&db), t);
        assert!(!is_nfc(&db, &t));
    }
    let t = text("\u{fb01}");
    assert_eq!(is_nfkc_quick(&db, &t), IsNormalized::No);
    assert_ne!(t.nfkc(&db), t);
}

#[test]
fn decomposing_the_composed_form() {
    let db = sample_db();
    let t = text("e\u{316}\u{301}s\u{307}\u{323}\u{1100}\u{1161}\u{11ab}");
    let c = t.nfc(&db);
    assert_eq!(c, text("\u{e9}\u{316}\u{1e69}\u{ac04}"));
    assert_eq!(c.nfd(&db), t.nfd(&db));
    assert_eq!(t.nfd(&db), text("e\u{316}\u{301}s\u{323}\u{307}\u{1100}\u{1161}\u{11ab}"));
}
