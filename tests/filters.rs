use ducky::{keep_file, matches_ext, parse_exts};

#[test]
fn parse_exts_basic() {
    let set = parse_exts(Some(" JPG , png, Gif ,, ")).unwrap();
    assert!(set.contains("jpg"));
    assert!(set.contains("png"));
    assert!(set.contains("gif"));
    assert_eq!(set.len(), 3);
}

#[test]
fn parse_exts_empty_items() {
    let set = parse_exts(Some("   , ,  ")).unwrap();
    assert!(set.is_empty());
}

#[test]
fn parse_exts_absent_list_gives_no_set() {
    assert!(parse_exts(None).is_none());
}

#[test]
fn parse_exts_empty_string_gives_empty_set() {
    let set = parse_exts(Some("")).unwrap();
    assert!(set.is_empty());
    assert_eq!(set.len(), 0);
}

#[test]
fn parse_exts_drops_repeats_and_lowercases() {
    let set = parse_exts(Some("png,PNG, Png ,jpg")).unwrap();
    assert_eq!(set.len(), 2);
    assert!(set.contains("png"));
    assert!(set.contains("jpg"));
    assert!(!set.contains("PNG"));
}

#[test]
fn parse_exts_trims_unicode_whitespace() {
    let set = parse_exts(Some("\u{a0}Txt\u{3000},\tmd\n,\u{2003}")).unwrap();
    assert_eq!(set.len(), 2);
    assert!(set.contains("txt"));
    assert!(set.contains("md"));
}

#[test]
fn parse_exts_keeps_inner_spaces_and_non_ascii() {
    let set = parse_exts(Some(" tar gz ,ÉTÉ")).unwrap();
    assert!(set.contains("tar gz"));
    // ASCII lowercasing leaves other characters as they are.
    assert!(set.contains("ÉtÉ"));
    assert_eq!(set.len(), 2);
}

#[test]
fn matches_ext_is_case_insensitive() {
    let set = parse_exts(Some("jpg")).unwrap();
    assert!(matches_ext(&b"/photos/IMG_01.JPG".to_vec(), &set));
    assert!(matches_ext(&b"a.b/c.jpg".to_vec(), &set));
    assert!(!matches_ext(&b"/photos/IMG_01.png".to_vec(), &set));
}

#[test]
fn matches_ext_needs_an_extension() {
    let set = parse_exts(Some("bashrc,d,")).unwrap();
    assert!(!matches_ext(&b"/home/u/.bashrc".to_vec(), &set));
    assert!(!matches_ext(&b"/etc/conf.d/file".to_vec(), &set));
    assert!(!matches_ext(&b"noext".to_vec(), &set));
    assert!(!matches_ext(&b"a/..".to_vec(), &set));
}

#[test]
fn matches_ext_uses_the_last_dot() {
    let set = parse_exts(Some("gz")).unwrap();
    assert!(matches_ext(&b"backup.tar.gz".to_vec(), &set));
    let tar = parse_exts(Some("tar")).unwrap();
    assert!(!matches_ext(&b"backup.tar.gz".to_vec(), &tar));
}

#[test]
fn keep_file_applies_size_type_and_extension() {
    let set = parse_exts(Some("txt")).unwrap();
    let p = b"/d/notes.txt".to_vec();
    assert!(keep_file(true, 2048, 1024, &p, Some(&set)));
    assert!(keep_file(true, 1024, 1024, &p, Some(&set)));
    assert!(!keep_file(true, 1023, 1024, &p, Some(&set)));
    assert!(!keep_file(false, 2048, 1024, &p, Some(&set)));
    assert!(!keep_file(true, 2048, 1024, &b"/d/notes.md".to_vec(), Some(&set)));
    assert!(keep_file(true, 2048, 1024, &b"/d/notes.md".to_vec(), None));
}
