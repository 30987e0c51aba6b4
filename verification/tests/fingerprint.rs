use std::collections::hash_map::DefaultHasher;
use std::hash::Hasher;

use cman::depfile::parse_make_deps;
use cman::fingerprint::{
    flags_changed, flags_hash, fingerprint_path, format_hash, is_newer_than, must_relink,
    needs_rebuild, needs_relink, RebuildFacts, RebuildStep,
};

fn strings(items: &[&str]) -> Vec<String> {
    items.iter().map(|s| s.to_string()).collect()
}

#[test]
fn parses_a_single_line() {
    let deps = parse_make_deps("target/debug/obj/main.o: src/main.c include/hello.h\n");
    assert_eq!(deps, strings(&["src/main.c", "include/hello.h"]));
}

#[test]
fn parses_continued_lines() {
    let deps = parse_make_deps("main.o: src/main.c \\\n  include/a.h \\\n  src/b.h\n");
    assert_eq!(deps, strings(&["src/main.c", "include/a.h", "src/b.h"]));
}

#[test]
fn parses_escaped_spaces_in_paths() {
    let deps = parse_make_deps(r"main.o: src/my\ file.c");
    assert_eq!(deps, strings(&["src/my file.c"]));
}

#[test]
fn yields_nothing_without_a_target() {
    assert!(parse_make_deps("").is_empty());
    assert!(parse_make_deps("src/main.c include/hello.h").is_empty());
}

#[test]
fn continued_line_separates_like_a_space() {
    let continued = parse_make_deps("m.o: a.h\\\nb.h");
    let spaced = parse_make_deps("m.o: a.h b.h");
    assert_eq!(continued, spaced);
    assert_eq!(continued, strings(&["a.h", "b.h"]));
    assert_eq!(parse_make_deps("m.o: a.h\\\r\nb.h"), strings(&["a.h", "b.h"]));
}

#[test]
fn only_the_first_colon_ends_the_target() {
    assert_eq!(parse_make_deps("m.o: c:/x.h d.h"), strings(&["c:/x.h", "d.h"]));
    assert_eq!(parse_make_deps("a.o b.o:x.h"), strings(&["x.h"]));
}

#[test]
fn escapes_and_trailing_backslash() {
    assert_eq!(parse_make_deps("m.o: a\\\\b.h"), strings(&["a\\b.h"]));
    assert_eq!(parse_make_deps("m.o: a.h \\"), strings(&["a.h"]));
    assert_eq!(parse_make_deps("m\\:o: x.h"), strings(&["x.h"]));
    assert_eq!(parse_make_deps("m.o:\ta.h\u{a0}b.h"), strings(&["a.h", "b.h"]));
}

#[test]
fn no_prerequisite_is_empty() {
    for deps in [parse_make_deps("m.o:   \n\n  a.h  \\\n   "), parse_make_deps("m.o: \\\n")] {
        assert!(deps.iter().all(|d| !d.is_empty()));
    }
}

#[test]
fn hash_is_sixteen_hex_digits() {
    assert_eq!(format_hash(0), "0000000000000000");
    assert_eq!(format_hash(0xdead_beef), "00000000deadbeef");
    assert_eq!(format_hash(u64::MAX), "ffffffffffffffff");
    let flags = strings(&["-std=c17", "-g", "-O0"]);
    let h = flags_hash("cc", &flags);
    assert_eq!(h.len(), 16);
    assert!(h.chars().all(|c| c.is_ascii_hexdigit() && !c.is_ascii_uppercase()));
    assert_eq!(h, flags_hash("cc", &flags));
    assert_ne!(h, flags_hash("clang", &flags));
    assert_ne!(h, flags_hash("cc", &strings(&["-std=c11", "-g", "-O0"])));
}

#[test]
fn recorded_hash_reads_back_unchanged() {
    let h = format_hash(0x0123_4567_89ab_cdef);
    assert!(!flags_changed(Some(&h), &h));
    assert!(!flags_changed(Some(&format!("  {h}\n")), &h));
    assert!(flags_changed(Some("0000000000000001"), &h));
    assert!(flags_changed(None, &h));
    assert!(flags_changed(Some(""), &h));
}

#[test]
fn fingerprint_lives_in_the_profile_dir() {
    assert_eq!(fingerprint_path("/p/target/debug"), "/p/target/debug/.cman-fingerprint");
    assert_eq!(fingerprint_path("/p/target/debug/"), "/p/target/debug/.cman-fingerprint");
}

#[test]
fn missing_files_count_as_newer() {
    assert!(is_newer_than(None, 10));
    assert!(is_newer_than(Some(11), 10));
    assert!(!is_newer_than(Some(10), 10));
    assert!(!is_newer_than(Some(-5), 10));
}

fn facts(forced: bool) -> RebuildFacts {
    RebuildFacts { forced, object: None, source: None, dep_file: None, headers: Vec::new() }
}

#[test]
fn forced_rebuild_asks_nothing() {
    assert!(matches!(needs_rebuild(&facts(true)), RebuildStep::Decided(true)));
}

#[test]
fn rebuild_check_asks_in_order() {
    let mut f = facts(false);
    assert!(matches!(needs_rebuild(&f), RebuildStep::StatObject));
    f.object = Some(Some(100));
    assert!(matches!(needs_rebuild(&f), RebuildStep::StatSource));
    f.source = Some(Some(50));
    assert!(matches!(needs_rebuild(&f), RebuildStep::ReadDepFile));
    f.dep_file = Some(Some("m.o: src/m.c include/a.h\n".to_string()));
    match needs_rebuild(&f) {
        RebuildStep::StatHeader(h) => assert_eq!(h, "src/m.c"),
        _ => panic!("expected a header lookup"),
    }
    f.headers.push(Some(50));
    match needs_rebuild(&f) {
        RebuildStep::StatHeader(h) => assert_eq!(h, "include/a.h"),
        _ => panic!("expected a header lookup"),
    }
    f.headers.push(Some(100));
    assert!(matches!(needs_rebuild(&f), RebuildStep::Decided(false)));
}

#[test]
fn touched_header_forces_a_rebuild() {
    let mut f = facts(false);
    f.object = Some(Some(100));
    f.source = Some(Some(50));
    f.dep_file = Some(Some("m.o: src/m.c include/a.h\n".to_string()));
    f.headers = vec![Some(101)];
    assert!(matches!(needs_rebuild(&f), RebuildStep::Decided(true)));
    f.headers = vec![Some(10), None];
    assert!(matches!(needs_rebuild(&f), RebuildStep::Decided(true)));
}

#[test]
fn missing_object_source_or_record_rebuilds() {
    let mut f = facts(false);
    f.object = Some(None);
    assert!(matches!(needs_rebuild(&f), RebuildStep::Decided(true)));
    f.object = Some(Some(100));
    f.source = Some(Some(101));
    assert!(matches!(needs_rebuild(&f), RebuildStep::Decided(true)));
    f.source = Some(None);
    assert!(matches!(needs_rebuild(&f), RebuildStep::Decided(true)));
    f.source = Some(Some(100));
    f.dep_file = Some(None);
    assert!(matches!(needs_rebuild(&f), RebuildStep::Decided(true)));
    f.dep_file = Some(Some("no target here".to_string()));
    assert!(matches!(needs_rebuild(&f), RebuildStep::Decided(false)));
}

#[test]
fn relink_decisions() {
    assert_eq!(needs_relink(None, 2, &vec![]), Some(true));
    assert_eq!(needs_relink(Some(100), 2, &vec![]), None);
    assert_eq!(needs_relink(Some(100), 2, &vec![Some(90)]), None);
    assert_eq!(needs_relink(Some(100), 2, &vec![Some(90), Some(100)]), Some(false));
    assert_eq!(needs_relink(Some(100), 2, &vec![Some(101)]), Some(true));
    assert_eq!(needs_relink(Some(100), 2, &vec![Some(90), None]), Some(true));
    assert_eq!(needs_relink(Some(100), 0, &vec![]), Some(false));
}

#[test]
fn continuations_read_as_spaces() {
    let texts = [
        "main.o: src/main.c \\\n  include/a.h \\\n  src/b.h\n",
        "main.o: a.c\\\nb.h",
        "main.o \\\n : a\\ b.c \\\n c.h",
    ];
    for text in texts {
        assert_eq!(parse_make_deps(text), parse_make_deps(&text.replace("\\\n", " ")));
    }
    assert_eq!(parse_make_deps("main.o: a.c\\\nb.h"), strings(&["a.c", "b.h"]));
}

#[test]
fn prerequisites_are_the_words_after_the_first_colon() {
    let deps = parse_make_deps("out/main.o:  src/a.c\tinclude/b.h  c:d.h \n e.h ");
    assert_eq!(deps, strings(&["src/a.c", "include/b.h", "c:d.h", "e.h"]));
    let text = "t: x  y\tz";
    let words: Vec<String> = text.split_once(':').unwrap().1.split_whitespace().map(String::from).collect();
    assert_eq!(parse_make_deps(text), words);
}

#[test]
fn relinking_follows_compiling_or_a_stale_executable() {
    assert!(must_relink(true, false));
    assert!(must_relink(false, true));
    assert!(must_relink(true, true));
    assert!(!must_relink(false, false));
}

#[test]
fn flag_hash_frames_each_piece_by_its_length() {
    let mut hasher = DefaultHasher::new();
    for piece in ["cc", "-std=c17", "-O0"] {
        hasher.write(&(piece.len() as u64).to_le_bytes());
        hasher.write(piece.as_bytes());
    }
    assert_eq!(flags_hash("cc", &strings(&["-std=c17", "-O0"])), format_hash(hasher.finish()));
    assert_ne!(flags_hash("cc", &strings(&["ab"])), flags_hash("cc", &strings(&["a", "b"])));
    assert_ne!(flags_hash("cc", &strings(&["-g", "-O0"])), flags_hash("cc", &strings(&["-O0", "-g"])));
    assert_ne!(flags_hash("cc", &strings(&["-g"])), flags_hash("cc", &strings(&[])));
}
