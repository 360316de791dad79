//! Unit tests for the resolver, the search-path splitter, the rewrite
//! decision and the textual substitution.

use shebang_patcher::errors::PatchError;
use shebang_patcher::rewrite::replace_first;
use shebang_patcher::rewrite::should_rewrite;
use shebang_patcher::search::candidate;
use shebang_patcher::search::is_executable_mode;
use shebang_patcher::search::split_search_path;
use shebang_patcher::search::which_in_path;

fn v(s: &str) -> Vec<u8> {
    s.as_bytes().to_vec()
}

#[test]
fn split_search_path_keeps_order_and_empties() {
    let got = split_search_path(&v("/a:/b::/c"));
    assert_eq!(got, vec![v("/a"), v("/b"), v(""), v("/c")]);
    assert_eq!(split_search_path(&v("")), vec![v("")]);
    assert_eq!(split_search_path(&v("/only")), vec![v("/only")]);
}

#[test]
fn candidate_joins_with_single_slash() {
    assert_eq!(candidate(&v("/x"), &v("bash")), v("/x/bash"));
    assert_eq!(candidate(&v("/x/"), &v("bash")), v("/x/bash"));
    assert_eq!(candidate(&v(""), &v("bash")), v("bash"));
    // an absolute name stands alone
    assert_eq!(candidate(&v("/x"), &v("/y/bash")), v("/y/bash"));
}

#[test]
fn which_in_path_first_match_wins() {
    let dirs = vec![v("/a"), v("/b"), v("/c")];
    let hits = vec![false, true, true];
    let got = which_in_path(&v("perl"), &dirs, &hits).unwrap();
    assert_eq!(got, v("/b/perl"));
}

#[test]
fn which_in_path_not_found_names_program() {
    let dirs = vec![v("/a"), v("/b")];
    let hits = vec![false, false];
    match which_in_path(&v("perl"), &dirs, &hits).unwrap_err() {
        PatchError::NotFound { program } => assert_eq!(program, v("perl")),
        _ => panic!("expected NotFound"),
    }
}

#[test]
fn which_in_empty_path_fails() {
    let dirs: Vec<Vec<u8>> = Vec::new();
    let hits: Vec<bool> = Vec::new();
    assert!(which_in_path(&v("perl"), &dirs, &hits).is_err());
}

#[test]
fn rewrite_decision_follows_policy() {
    let canonical = v("/nix/store");
    let original = v("#!/nix/store/abc/bin/bash");
    let interpreter = v("/nix/store/abc/bin/bash");
    let new_line = v("#!/x/bash");
    // canonical interpreter, no update: left alone
    assert!(!should_rewrite(&original, &new_line, &interpreter, false, &canonical));
    // canonical interpreter, update forced: rewritten
    assert!(should_rewrite(&original, &new_line, &interpreter, true, &canonical));
    // non-canonical interpreter: rewritten without update
    assert!(should_rewrite(&v("#!/usr/bin/perl"), &new_line, &v("/usr/bin/perl"), false, &canonical));
    // equal lines: never rewritten
    assert!(!should_rewrite(&new_line, &new_line, &v("/x/bash"), true, &canonical));
}

#[test]
fn replace_first_changes_only_first_occurrence() {
    let content = v("abc abc abc");
    let got = replace_first(&content, &v("abc"), &v("XY"));
    assert_eq!(got, v("XY abc abc"));
}

#[test]
fn replace_first_without_occurrence_is_identity() {
    let content = v("no match here");
    let got = replace_first(&content, &v("abc"), &v("XY"));
    assert_eq!(got, content);
}

#[test]
fn replace_first_at_start_keeps_tail() {
    let content = v("#!/usr/bin/env bash\nbody\n");
    let got = replace_first(&content, &v("#!/usr/bin/env bash"), &v("#!/x/bash"));
    assert_eq!(got, v("#!/x/bash\nbody\n"));
}

#[test]
fn executable_mode_checks_any_execute_bit() {
    assert!(is_executable_mode(0o755));
    assert!(is_executable_mode(0o100));
    assert!(is_executable_mode(0o010));
    assert!(is_executable_mode(0o001));
    assert!(!is_executable_mode(0o644));
    assert!(!is_executable_mode(0));
}
