//! Scenario tests for the shebang pipeline: classification, resolution,
//! rendering, the rewrite decision and the textual substitution.

use shebang_patcher::errors::PatchError;
use shebang_patcher::rewrite::replace_first;
use shebang_patcher::rewrite::should_rewrite;
use shebang_patcher::search::which_in_path;
use shebang_patcher::shebang::classify_first_line;
use shebang_patcher::shebang::names_for;
use shebang_patcher::shebang::render_new_shebang;
use shebang_patcher::shebang::Classified;
use shebang_patcher::shebang::ShebangForm;

fn v(s: &str) -> Vec<u8> {
    s.as_bytes().to_vec()
}

/// Runs the whole pipeline on one first line, against a single search
/// directory where every looked-up name is a file. Returns the new line
/// if a rewrite is due.
fn run_once(first_line: &str, dir: &str, update: bool) -> Result<Option<String>, PatchError> {
    let line = v(first_line);
    let classified = classify_first_line(&line)?;
    let (original, interpreter, form) = match classified {
        Classified::NotScript => return Ok(None),
        Classified::Script { original, interpreter, form } => (original, interpreter, form),
    };
    let names = names_for(&form);
    let dirs = vec![v(dir)];
    let mut resolved = Vec::new();
    for name in &names {
        let is_file = vec![true];
        resolved.push(which_in_path(name, &dirs, &is_file)?);
    }
    let new_line = render_new_shebang(&form, &resolved);
    if should_rewrite(&original, &new_line, &interpreter, update, &v("/nix/store")) {
        Ok(Some(String::from_utf8(new_line).unwrap()))
    } else {
        Ok(None)
    }
}

#[test]
fn not_a_script_no_result() {
    assert!(matches!(
        classify_first_line(&v("hello world\n")),
        Ok(Classified::NotScript)
    ));
    assert!(matches!(classify_first_line(&v("")), Ok(Classified::NotScript)));
    assert!(matches!(classify_first_line(&v("#")), Ok(Classified::NotScript)));
    assert_eq!(run_once("echo hi\n", "/x", false).unwrap(), None);
}

#[test]
fn env_wrapper_dropped_round_trip() {
    let got = run_once("#!/usr/bin/env bash\n", "/x", false).unwrap();
    assert_eq!(got, Some("#!/x/bash".to_string()));
}

#[test]
fn env_round_trip_touches_only_first_line() {
    let content = v("#!/usr/bin/env bash\necho hi\n# trailer\n");
    let original = v("#!/usr/bin/env bash");
    let new_line = v("#!/x/bash");
    let updated = replace_first(&content, &original, &new_line);
    assert_eq!(updated, v("#!/x/bash\necho hi\n# trailer\n"));
    // everything after the first line is byte-identical
    let old_tail: Vec<u8> = content[original.len()..].to_vec();
    let new_tail: Vec<u8> = updated[new_line.len()..].to_vec();
    assert_eq!(old_tail, new_tail);
}

#[test]
fn env_split_form_kept() {
    let got = run_once("#!/usr/bin/env -S bash -euo pipefail\n", "/x", false).unwrap();
    assert_eq!(got, Some("#!/x/env -S /x/bash -euo pipefail".to_string()));
}

#[test]
fn env_split_without_program_is_invalid() {
    let err = run_once("#!/usr/bin/env -S\n", "/x", false).unwrap_err();
    match err {
        PatchError::InvalidShebang { line } => assert_eq!(line, v("#!/usr/bin/env -S")),
        _ => panic!("expected InvalidShebang"),
    }
}

#[test]
fn env_flag_with_equals_is_unsupported() {
    let err = run_once("#!/usr/bin/env --version=1 bash\n", "/x", false).unwrap_err();
    match err {
        PatchError::UnsupportedShebang { line } => {
            assert_eq!(line, v("#!/usr/bin/env --version=1 bash"))
        }
        _ => panic!("expected UnsupportedShebang"),
    }
}

#[test]
fn direct_interpreter_keeps_arguments() {
    let got = run_once("#!/some/path/perl -w\n", "/x", false).unwrap();
    assert_eq!(got, Some("#!/x/perl -w".to_string()));
}

#[test]
fn canonical_prefix_skipped_unless_update() {
    // interpreter already under the canonical store prefix: left alone
    // without the update flag, rewritten with it.
    let line = "#!/nix/store/abc/bin/bash extra\n";
    assert_eq!(run_once(line, "/x", false).unwrap(), None);
    assert_eq!(
        run_once(line, "/x", true).unwrap(),
        Some("#!/x/bash extra".to_string())
    );
}

#[test]
fn unchanged_line_never_rewritten() {
    // the resolved line equals the original: no result even with update.
    let line = "#!/x/bash\n";
    assert_eq!(run_once(line, "/x", false).unwrap(), None);
    assert_eq!(run_once(line, "/x", true).unwrap(), None);
}

#[test]
fn second_pass_is_idempotent_direct() {
    let first = run_once("#!/some/path/perl -w\n", "/x", false).unwrap().unwrap();
    let mut stored = first.clone();
    stored.push('\n');
    assert_eq!(run_once(&stored, "/x", false).unwrap(), None);
    assert_eq!(run_once(&stored, "/x", true).unwrap(), None);
}

#[test]
fn second_pass_is_idempotent_env_split() {
    let first = run_once("#!/usr/bin/env -S bash -euo pipefail\n", "/x", false)
        .unwrap()
        .unwrap();
    let mut stored = first.clone();
    stored.push('\n');
    assert_eq!(run_once(&stored, "/x", false).unwrap(), None);
}

#[test]
fn second_pass_is_idempotent_env_direct() {
    let first = run_once("#!/usr/bin/env bash\n", "/x", false).unwrap().unwrap();
    let mut stored = first.clone();
    stored.push('\n');
    assert_eq!(run_once(&stored, "/x", false).unwrap(), None);
}

#[test]
fn env_split_with_no_rest_has_no_trailing_space() {
    let got = run_once("#!/usr/bin/env -S python3\n", "/x", false).unwrap();
    assert_eq!(got, Some("#!/x/env -S /x/python3".to_string()));
}

#[test]
fn env_direct_drops_further_arguments() {
    // the env wrapper is dropped and only the program is kept.
    let got = run_once("#!/usr/bin/env bash -x\n", "/x", false).unwrap();
    assert_eq!(got, Some("#!/x/bash".to_string()));
}

#[test]
fn bare_env_is_invalid() {
    let err = run_once("#!/usr/bin/env\n", "/x", false).unwrap_err();
    match err {
        PatchError::InvalidShebang { line } => assert_eq!(line, v("#!/usr/bin/env")),
        _ => panic!("expected InvalidShebang"),
    }
}

#[test]
fn env_without_directory_prefix_recognised() {
    // the final path segment decides: a bare `env` interpreter is the
    // env indirection too.
    let line = v("#!env bash\n");
    match classify_first_line(&line).unwrap() {
        Classified::Script { form: ShebangForm::EnvDirect { prog }, .. } => {
            assert_eq!(prog, v("bash"))
        }
        _ => panic!("expected the env form"),
    }
}

#[test]
fn classification_fields_are_exact() {
    let line = v("#!/usr/bin/env -S awk -f script.awk\n");
    match classify_first_line(&line).unwrap() {
        Classified::Script { original, interpreter, form } => {
            assert_eq!(original, v("#!/usr/bin/env -S awk -f script.awk"));
            assert_eq!(interpreter, v("/usr/bin/env"));
            match form {
                ShebangForm::EnvSplit { prog, rest } => {
                    assert_eq!(prog, v("awk"));
                    assert_eq!(rest, vec![v("-f"), v("script.awk")]);
                }
                _ => panic!("expected the -S form"),
            }
        }
        _ => panic!("expected a script"),
    }
}
