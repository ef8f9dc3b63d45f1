use anew::engine::Engine;
use anew::fingerprint::hash;
use anew::lines::{has_final_terminator, needs_correction, split_lines};
use anew::membership::Membership;

fn b(s: &str) -> Vec<u8> {
    s.as_bytes().to_vec()
}

fn chunks(parts: &[&str]) -> Vec<Vec<u8>> {
    let mut v = Vec::new();
    for p in parts {
        v.push(b(p));
    }
    v
}

/// Rebuild the target file's content after a run: the old content, the
/// corrective terminator when due, then every appended record.
fn rewrite_file(old: &Vec<u8>, appends: &Vec<Vec<u8>>) -> Vec<u8> {
    let mut out = old.clone();
    if needs_correction(old) {
        out.push(b'\n');
    }
    for record in appends {
        out.extend_from_slice(record);
    }
    out
}

#[test]
fn fresh_file_keeps_first_occurrences() {
    let mut engine = Engine::new(true, false, false);
    let input = chunks(&["a\n", "b\n", "a\n", "c\n"]);
    let (file_out, echo_out) = engine.run(&input);
    assert_eq!(echo_out, chunks(&["a\n", "b\n", "c\n"]));
    assert_eq!(file_out, chunks(&["a\n", "b\n", "c\n"]));
    let file = rewrite_file(&b(""), &file_out);
    assert_eq!(file, b("a\nb\nc\n"));
    assert_eq!(split_lines(&file), chunks(&["a", "b", "c"]));
}

#[test]
fn preseeded_unterminated_file_gets_correction() {
    let old = b("x\ny");
    let mut engine = Engine::new(true, false, false);
    engine.seed(&old);
    let input = chunks(&["y\n", "z\n"]);
    let (file_out, echo_out) = engine.run(&input);
    assert_eq!(echo_out, chunks(&["z\n"]));
    assert_eq!(file_out, chunks(&["z\n"]));
    let file = rewrite_file(&old, &file_out);
    assert_eq!(file, b("x\ny\nz\n"));
}

#[test]
fn dry_run_echoes_but_never_writes() {
    let old = b("x\n");
    let mut engine = Engine::new(true, false, true);
    engine.seed(&old);
    let input = chunks(&["x\n", "y\n"]);
    let (file_out, echo_out) = engine.run(&input);
    assert_eq!(echo_out, chunks(&["y\n"]));
    assert!(file_out.is_empty());
    assert_eq!(rewrite_file(&old, &file_out), b("x\n"));
}

#[test]
fn quiet_writes_but_never_echoes() {
    let mut engine = Engine::new(true, true, false);
    let input = chunks(&["a\n", "b\n", "a\n"]);
    let (file_out, echo_out) = engine.run(&input);
    assert!(echo_out.is_empty());
    assert_eq!(file_out, chunks(&["a\n", "b\n"]));
}

#[test]
fn pure_filter_mode_only_echoes() {
    let mut engine = Engine::new(false, false, false);
    let input = chunks(&["a\n", "a\n", "b\n"]);
    let (file_out, echo_out) = engine.run(&input);
    assert!(file_out.is_empty());
    assert_eq!(echo_out, chunks(&["a\n", "b\n"]));
}

#[test]
fn second_identical_run_is_silent() {
    let old = b("seed\n");
    let input = chunks(&["seed\n", "one\n", "two\n", "one\n"]);

    let mut first = Engine::new(true, false, false);
    first.seed(&old);
    let (appends, echoed) = first.run(&input);
    assert_eq!(echoed, chunks(&["one\n", "two\n"]));
    let file = rewrite_file(&old, &appends);

    let mut second = Engine::new(true, false, false);
    second.seed(&file);
    let (appends2, echoed2) = second.run(&input);
    assert!(appends2.is_empty());
    assert!(echoed2.is_empty());
    assert_eq!(rewrite_file(&file, &appends2), file);
}

#[test]
fn feeding_a_file_its_own_lines_is_silent() {
    let content = b("alpha\nbeta\ngamma");
    let mut engine = Engine::new(true, false, false);
    engine.seed(&content);
    let input = chunks(&["alpha\n", "beta\n", "gamma"]);
    let (file_out, echo_out) = engine.run(&input);
    assert!(file_out.is_empty());
    assert!(echo_out.is_empty());
}

#[test]
fn record_without_terminator_gets_one() {
    let mut engine = Engine::new(false, false, false);
    let first = engine.process_chunk(&b("abc"));
    assert_eq!(first, Some(b("abc\n")));
    let again = engine.process_chunk(&b("abc\n"));
    assert_eq!(again, None);
}

#[test]
fn empty_line_records_deduplicate_too() {
    let mut engine = Engine::new(false, false, false);
    assert_eq!(engine.process_chunk(&b("\n")), Some(b("\n")));
    assert_eq!(engine.process_chunk(&b("\n")), None);
}

#[test]
fn split_empty_content_has_no_lines() {
    assert!(split_lines(&b("")).is_empty());
}

#[test]
fn split_counts_unterminated_tail() {
    assert_eq!(split_lines(&b("a\nb")), chunks(&["a", "b"]));
    assert_eq!(split_lines(&b("a\n")), chunks(&["a"]));
}

#[test]
fn split_keeps_empty_lines_between_terminators() {
    assert_eq!(split_lines(&b("\n")), chunks(&[""]));
    assert_eq!(split_lines(&b("a\n\nb\n")), chunks(&["a", "", "b"]));
}

#[test]
fn terminator_flags_follow_last_byte() {
    assert!(!has_final_terminator(&b("")));
    assert!(!has_final_terminator(&b("x")));
    assert!(has_final_terminator(&b("x\n")));
    assert!(!needs_correction(&b("")));
    assert!(needs_correction(&b("x")));
    assert!(!needs_correction(&b("x\n")));
}

#[test]
fn membership_is_byte_exact_and_insert_once() {
    let mut set = Membership::new();
    assert!(!set.contains(&b("line")));
    assert!(set.insert(b("line")));
    assert!(set.contains(&b("line")));
    assert!(!set.insert(b("line")));
    assert!(!set.contains(&b("Line")));
    assert!(!set.contains(&b("line ")));
}

#[test]
fn fingerprint_matches_known_values() {
    assert_eq!(hash(&b("")), 0xcbf29ce484222325);
    assert_eq!(hash(&b("a")), 0xaf63dc4c8601ec8c);
    assert_ne!(hash(&b("a")), hash(&b("b")));
}
