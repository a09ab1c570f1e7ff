//! The expression macros of Fibratus.

use rsigma::fibratus::accepted_clause_forms;
use rsigma::fibratus::clauses_match;
use rsigma::fibratus::expression_macros;
use rsigma::fibratus::is_known_macro;
use rsigma::fibratus::recognize;
use rsigma::fibratus::split_clauses;
use rsigma::fibratus::split_top_level_and;
use rsigma::fibratus::split_top_level_neq;
use rsigma::fibratus::to_ci_eq;

#[test]
fn known_macro_lookup() {
    assert!(is_known_macro("spawn_process"));
    assert!(is_known_macro("create_thread"));
    assert!(is_known_macro("open_file"));
    // `create_file` (any creation disposition != OPEN) is the
    // canonical upstream file-creation macro.
    assert!(is_known_macro("create_file"));
    // Composite macros upstream defines on top of other macros
    // (`modify_registry`, `inbound_network`, `outbound_network`,
    // `load_driver`, ...) are deliberately absent from the
    // single-clause table; multi-step recognition can land them in
    // a follow-up.
    assert!(!is_known_macro("modify_registry"));
    assert!(!is_known_macro("not_a_macro"));
}

// -----------------------------------------------------------------
// Single-clause recognition
// -----------------------------------------------------------------

#[test]
fn recognize_spawn_process_case_insensitive_form() {
    // A non-`evt.name` literal would render `~=`; the recognizer
    // accepts that case-insensitive form for any clause.
    let out = recognize("evt.name ~= 'CreateProcess'");
    assert_eq!(out, "spawn_process");
}

#[test]
fn recognize_spawn_process_cased_form() {
    // The backend renders `evt.name` with the exact `=` operator;
    // this is the form a real conversion emits.
    let out = recognize("evt.name = 'CreateProcess'");
    assert_eq!(out, "spawn_process");
}

#[test]
fn recognize_spawn_process_with_extra_clauses() {
    let out = recognize(
        "evt.name = 'CreateProcess' and ps.exe iendswith '\\cmd.exe' and ps.cmdline icontains 'whoami'",
    );
    assert_eq!(
        out,
        "spawn_process and ps.exe iendswith '\\cmd.exe' and ps.cmdline icontains 'whoami'",
    );
}

#[test]
fn recognize_write_file_and_read_file() {
    let out = recognize("evt.name = 'WriteFile' and file.path iendswith '\\out.log'");
    assert_eq!(out, "write_file and file.path iendswith '\\out.log'");
    let out2 = recognize("evt.name = 'ReadFile'");
    assert_eq!(out2, "read_file");
}

// -----------------------------------------------------------------
// Multi-clause recognition (greedy longest match)
// -----------------------------------------------------------------

#[test]
fn recognize_open_file_three_clauses() {
    // `evt.name` renders with `=`; the file.operation/file.status
    // literals render with the case-insensitive `~=`. The per-clause
    // matcher accepts the mix.
    let out = recognize(
        "evt.name = 'CreateFile' and file.operation ~= 'OPEN' and file.status ~= 'Success'",
    );
    assert_eq!(out, "open_file");
}

#[test]
fn recognize_open_file_keeps_trailing_clauses() {
    let out = recognize(
        "evt.name = 'CreateFile' and file.operation ~= 'OPEN' and file.status ~= 'Success' and file.path iendswith '\\secret.txt'",
    );
    assert_eq!(out, "open_file and file.path iendswith '\\secret.txt'");
}

#[test]
fn recognize_set_value_two_clauses() {
    let out = recognize(
        "evt.name = 'RegSetValue' and registry.status ~= 'Success' and registry.path icontains '\\Run\\'",
    );
    assert_eq!(out, "set_value and registry.path icontains '\\Run\\'",);
}

#[test]
fn recognize_create_file_matches_inequality_disposition() {
    // The `create_file` macro keeps its `file.operation != 'OPEN'`
    // clause verbatim in both forms (`!=` is not transformed), and
    // its `=`-equality clauses match either operator form.
    let out = recognize(
        "evt.name = 'CreateFile' and file.operation != 'OPEN' and file.status ~= 'Success'",
    );
    assert_eq!(out, "create_file");
    // The OPEN disposition is the distinct `open_file` macro, not
    // `create_file`.
    let out2 = recognize(
        "evt.name = 'CreateFile' and file.operation ~= 'OPEN' and file.status ~= 'Success'",
    );
    assert_eq!(out2, "open_file");
}

#[test]
fn recognize_create_file_from_negated_equality_disposition() {
    // The `add_condition` pipeline injects the OPEN-disposition guard
    // as a negated equality (`not (file.operation ~= 'OPEN')`), the
    // De Morgan equivalent of the macro's `file.operation != 'OPEN'`.
    // The recognizer accepts that form and still folds the run.
    let out = recognize(
        "evt.name = 'CreateFile' and not (file.operation ~= 'OPEN') and file.status ~= 'Success'",
    );
    assert_eq!(out, "create_file");
    // And it keeps trailing rule-body clauses verbatim.
    let out2 = recognize(
        "evt.name = 'CreateFile' and not (file.operation ~= 'OPEN') and file.status ~= 'Success' and file.path iendswith '.rdp'",
    );
    assert_eq!(out2, "create_file and file.path iendswith '.rdp'");
}

#[test]
fn recognize_open_process_two_clauses_cased() {
    // Cased form: backend emitted with `-O case_sensitive=true`.
    let out = recognize("evt.name = 'OpenProcess' and ps.access.status = 'Success'");
    assert_eq!(out, "open_process");
}

// -----------------------------------------------------------------
// No-false-positive cases
// -----------------------------------------------------------------

#[test]
fn recognize_does_not_match_with_different_value() {
    // `evt.name = 'CreateThread'` is a macro (`create_thread`);
    // `'CreateProcess'` is a different macro (`spawn_process`).
    // `'TerminateProcess'` is neither, so it passes through.
    let out = recognize("evt.name = 'TerminateProcess'");
    assert_eq!(out, "evt.name = 'TerminateProcess'");
}

#[test]
fn recognize_does_not_match_with_extra_modifier() {
    // `iendswith` is a partial-match operator; even on the same
    // field/value pair it must not match the equality-based macro.
    let out = recognize("evt.name iendswith 'CreateProcess'");
    assert_eq!(out, "evt.name iendswith 'CreateProcess'");
}

#[test]
fn recognize_does_not_cross_or_groups() {
    // The OR group is one top-level clause; the inner contents
    // are parenthesized, so the splitter does not see them as
    // separate `and`s. `spawn_process` is therefore not inside.
    let out =
        recognize("(evt.name = 'CreateProcess' or evt.name = 'CreateThread') and ps.pid = 4");
    assert_eq!(
        out,
        "(evt.name = 'CreateProcess' or evt.name = 'CreateThread') and ps.pid = 4",
    );
}

#[test]
fn recognize_picks_longest_match() {
    // Both `evt.name = 'CreateFile'` (no macro alone, but a prefix
    // of three) and the full `open_file` triple are available; the
    // greedy longest-match must produce `open_file`, not three bare
    // clauses.
    let out = recognize(
        "evt.name = 'CreateFile' and file.operation ~= 'OPEN' and file.status ~= 'Success'",
    );
    assert_eq!(out, "open_file");
    // Without the trailing two clauses the bare `evt.name = '...'`
    // is not itself a macro, so the input passes through.
    let out2 = recognize("evt.name = 'CreateFile'");
    assert_eq!(out2, "evt.name = 'CreateFile'");
}

#[test]
fn recognize_passes_through_when_no_macro_matches() {
    let input = "ps.exe iendswith '\\cmd.exe' and ps.cmdline icontains 'whoami'";
    assert_eq!(recognize(input), input);
}

#[test]
fn recognize_handles_empty_input() {
    assert_eq!(recognize(""), "");
}

// -----------------------------------------------------------------
// Splitter sanity (respects parens and quotes)
// -----------------------------------------------------------------

#[test]
fn split_keeps_paren_groups_intact() {
    let out = split_top_level_and("(a or b) and c and (d and e)");
    assert_eq!(out, vec!["(a or b)", "c", "(d and e)"]);
}

#[test]
fn split_keeps_quoted_and_inside_strings() {
    let out = split_top_level_and("field = 'and inside string' and other");
    assert_eq!(out, vec!["field = 'and inside string'", "other"]);
}

#[test]
fn to_ci_eq_substitutes_first_top_level_equality() {
    assert_eq!(
        to_ci_eq("evt.name = 'CreateProcess'"),
        "evt.name ~= 'CreateProcess'",
    );
}

#[test]
fn to_ci_eq_leaves_inequality_alone() {
    // `evt.pid != 4` uses `!=`, not ` = '`, so to_ci_eq passes it
    // through unchanged. `file.operation != 'OPEN'` (the create_file
    // middle clause) is likewise untouched.
    assert_eq!(to_ci_eq("evt.pid != 4"), "evt.pid != 4");
    assert_eq!(
        to_ci_eq("file.operation != 'OPEN'"),
        "file.operation != 'OPEN'",
    );
}

#[test]
fn every_macro_folds_its_own_expression() {
    for (name, expression) in expression_macros() {
        assert_eq!(recognize(expression), name, "{name}");
    }
}

#[test]
fn an_unrecognized_condition_is_returned_byte_for_byte() {
    let input = "  ps.exe   =  'x'   and\tb ";
    assert_eq!(recognize(input), input);
}

#[test]
fn clauses_around_a_macro_keep_their_order() {
    assert_eq!(
        recognize("a = 1 and evt.name = 'ReadFile' and b = 2"),
        "a = 1 and read_file and b = 2",
    );
}

#[test]
fn source_clauses_are_split_as_conditions_are() {
    assert_eq!(
        split_clauses("evt.name = 'CreateFile' and file.operation = 'OPEN'"),
        vec!["evt.name = 'CreateFile'", "file.operation = 'OPEN'"],
    );
}

#[test]
fn an_inequality_has_two_sides() {
    assert_eq!(
        split_top_level_neq("file.operation != 'OPEN'"),
        Some(("file.operation".to_string(), "'OPEN'".to_string())),
    );
    assert_eq!(split_top_level_neq("file.operation = 'OPEN'"), None);
}

#[test]
fn an_equality_is_accepted_in_both_cases() {
    let forms = accepted_clause_forms("evt.name = 'ReadFile'");
    assert!(forms.contains(&"evt.name = 'ReadFile'".to_string()));
    assert!(forms.contains(&"evt.name ~= 'ReadFile'".to_string()));
    let run = vec!["evt.name ~= 'ReadFile'".to_string()];
    assert!(clauses_match(&run, &[forms]));
}

#[test]
fn each_clause_is_recognized_in_any_of_its_forms() {
    assert_eq!(
        recognize(
            "evt.name ~= 'CreateFile' and not (file.operation = 'OPEN') and file.status ~= 'Success'"
        ),
        "create_file",
    );
    assert_eq!(
        recognize("evt.name = 'CreateThread' and not (evt.pid = 4) and evt.pid != thread.pid"),
        "create_remote_thread",
    );
    // A number is not compared regardless of case.
    assert_eq!(
        recognize("evt.name = 'CreateThread' and not (evt.pid ~= 4) and evt.pid != thread.pid"),
        "create_thread and not (evt.pid ~= 4) and evt.pid != thread.pid",
    );
}

#[test]
fn pieces_split_no_further() {
    let expr = " a = 'x and y'  and (b and c)\tand and  AND d ";
    let pieces = split_top_level_and(expr);
    assert_eq!(pieces, vec!["a = 'x and y'", "(b and c)\tand", "d"]);
    let mut from = 0;
    for piece in &pieces {
        let place = from + expr[from..].find(piece.as_str()).unwrap();
        from = place + piece.len();
        assert_eq!(split_top_level_and(piece), vec![piece.clone()]);
    }
}

#[test]
fn recognizing_twice_changes_nothing() {
    for condition in [
        "a = 1 and evt.name = 'CreateFile' and file.operation ~= 'OPEN' and file.status = 'Success'",
        "evt.name = 'ReadFile' and and evt.name = 'WriteFile'",
        "x or y",
        "",
    ] {
        let once = recognize(condition);
        assert_eq!(recognize(&once), once);
    }
}

#[test]
fn every_macro_is_recognized_whether_or_not_case_counts() {
    for (name, expression) in expression_macros() {
        assert_eq!(recognize(&expression.replace(" = '", " ~= '")), name);
        assert_eq!(recognize(&expression.replacen(" = '", " ~= '", 1)), name);
        assert_eq!(recognize(name), name);
        assert!(is_known_macro(name));
    }
}
