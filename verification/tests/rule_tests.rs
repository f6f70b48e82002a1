use replacer::config::{Config, Replace, Rule, Which, With};
use replacer::evaluate::{evaluate_rule, replace, resolve_literal};

fn rule(replace: Replace, keep_spaces: bool, which: Which) -> Rule {
    Rule {
        replace,
        with: With::String {
            string: String::new(),
        },
        keep_spaces,
        which,
    }
}

#[test]
fn scenario_exact_text_every_keep_indentation() {
    let r = rule(Replace::Text("X".to_string()), true, Which::Every);
    let out = evaluate_rule("  X\n".to_string(), &r, "L1\nL2");
    assert_eq!(out, "  L1\n  L2\n");
}

#[test]
fn scenario_whole_line_every() {
    let r = rule(Replace::Line("TODO".to_string()), false, Which::Every);
    let out = evaluate_rule("a\nTODO one\nb\nTODO two\n".to_string(), &r, "done");
    assert_eq!(out, "a\ndone\nb\ndone\n");
}

#[test]
fn scenario_block() {
    let r = rule(
        Replace::LinesBetween("BEGIN".to_string(), "END".to_string()),
        false,
        Which::Every,
    );
    let out = evaluate_rule("  BEGIN\nold\n  END\n".to_string(), &r, "new");
    assert_eq!(out, "  BEGIN\n  new\n  END\n");
}

#[test]
fn scenario_two_rule_pipeline() {
    let config = Config {
        rules: vec![
            rule(Replace::Text("FOO".to_string()), false, Which::Every),
            rule(Replace::Line("BAR".to_string()), false, Which::Every),
        ],
    };
    let replacements = vec!["BAR".to_string(), "replaced".to_string()];
    let out = replace("x FOO y\nz\n".to_string(), &config, &replacements);
    assert_eq!(out, "replaced\nz\n");
}

#[test]
fn pipeline_idempotent_after_completion() {
    let config = Config {
        rules: vec![
            rule(Replace::Text("FOO".to_string()), false, Which::Every),
            rule(Replace::Line("BAR".to_string()), false, Which::Every),
        ],
    };
    let replacements = vec!["BAR".to_string(), "replaced".to_string()];
    let once = replace("x FOO y\nz\n".to_string(), &config, &replacements);
    let twice = replace(once.clone(), &config, &replacements);
    assert_eq!(once, twice);
}

#[test]
fn text_first_replaces_only_earliest() {
    let r = rule(Replace::Text("X".to_string()), false, Which::First);
    let out = evaluate_rule("X a X\n".to_string(), &r, "Y");
    assert_eq!(out, "Y a X\n");
}

#[test]
fn text_first_keep_indentation() {
    let r = rule(Replace::Text("X".to_string()), true, Which::First);
    let out = evaluate_rule("  q X\n".to_string(), &r, "A\nB");
    assert_eq!(out, "  q A\n  B\n");
}

#[test]
fn text_first_without_occurrence_is_unchanged() {
    let r = rule(Replace::Text("Q".to_string()), true, Which::First);
    let out = evaluate_rule("a b c\n".to_string(), &r, "Y");
    assert_eq!(out, "a b c\n");
}

#[test]
fn text_first_in_line_adds_trailing_break() {
    let r = rule(Replace::Text("X".to_string()), false, Which::FirstInLine);
    let out = evaluate_rule("a X\nb X".to_string(), &r, "Y");
    assert_eq!(out, "a Y\nb Y\n");
}

#[test]
fn text_first_in_line_one_per_line() {
    let r = rule(Replace::Text("X".to_string()), false, Which::FirstInLine);
    let out = evaluate_rule("X X\nX\n".to_string(), &r, "Y");
    assert_eq!(out, "Y X\nY\n");
}

#[test]
fn text_first_in_line_keep_uses_each_lines_prefix() {
    let r = rule(Replace::Text("X".to_string()), true, Which::FirstInLine);
    let out = evaluate_rule("  X\n    X\n".to_string(), &r, "A\nB");
    assert_eq!(out, "  A\n  B\n    A\n    B\n");
}

#[test]
fn text_every_replaces_all() {
    let r = rule(Replace::Text("X".to_string()), false, Which::Every);
    let out = evaluate_rule("X a X b X\n".to_string(), &r, "Y");
    assert_eq!(out, "Y a Y b Y\n");
}

#[test]
fn text_every_keep_each_copy_reindented_to_its_segment() {
    let r = rule(Replace::Text("X".to_string()), true, Which::Every);
    let out = evaluate_rule("  X\n    X\n".to_string(), &r, "A\nB");
    assert_eq!(out, "  A\n  B\n    A\n    B\n");
}

#[test]
fn whole_line_first_replaces_one_line() {
    let r = rule(Replace::Line("TODO".to_string()), false, Which::First);
    let out = evaluate_rule("TODO a\nTODO b\n".to_string(), &r, "done");
    assert_eq!(out, "done\nTODO b\n");
}

#[test]
fn whole_line_keeps_line_indentation() {
    let r = rule(Replace::Line("TODO".to_string()), true, Which::Every);
    let out = evaluate_rule("  TODO x\n".to_string(), &r, "A\nB");
    assert_eq!(out, "  A\n  B\n");
}

#[test]
fn whole_line_without_keep_drops_line_indentation() {
    let r = rule(Replace::Line("TODO".to_string()), false, Which::Every);
    let out = evaluate_rule("  TODO\n".to_string(), &r, "done");
    assert_eq!(out, "done\n");
}

#[test]
fn whole_line_preserves_missing_trailing_break() {
    let r = rule(Replace::Line("TODO".to_string()), false, Which::Every);
    let out = evaluate_rule("a\nTODO".to_string(), &r, "done");
    assert_eq!(out, "a\ndone");
}

#[test]
fn regex_rule_passes_content_through() {
    let r = rule(Replace::Regex("a.*b".to_string()), false, Which::Every);
    let out = evaluate_rule("a x b\n".to_string(), &r, "Y");
    assert_eq!(out, "a x b\n");
}

#[test]
fn block_unterminated_consumes_rest() {
    let r = rule(
        Replace::LinesBetween("BEGIN".to_string(), "END".to_string()),
        false,
        Which::Every,
    );
    let out = evaluate_rule("a BEGIN\nmiddle\nrest".to_string(), &r, "new");
    assert_eq!(out, "a BEGIN\n");
}

#[test]
fn block_processes_every_pair() {
    let r = rule(
        Replace::LinesBetween("BEGIN".to_string(), "END".to_string()),
        false,
        Which::Every,
    );
    let out = evaluate_rule(
        "BEGIN\nold1\nEND\nmid\n  BEGIN\nold2\n  END\n".to_string(),
        &r,
        "new",
    );
    assert_eq!(out, "BEGIN\nnew\nEND\nmid\n  BEGIN\n  new\n  END\n");
}

#[test]
fn block_ignores_selection_policy() {
    let content = "BEGIN\na\nEND\nBEGIN\nb\nEND\n";
    let expected = "BEGIN\nnew\nEND\nBEGIN\nnew\nEND\n";
    for which in [Which::First, Which::FirstInLine, Which::Every] {
        let r = rule(
            Replace::LinesBetween("BEGIN".to_string(), "END".to_string()),
            false,
            which,
        );
        assert_eq!(evaluate_rule(content.to_string(), &r, "new"), expected);
    }
}

#[test]
fn text_first_keep_reads_indent_before_the_occurrence() {
    let r = rule(Replace::Text("X".to_string()), true, Which::First);
    let out = evaluate_rule("ab\n  cd X\n".to_string(), &r, "P\nQ");
    assert_eq!(out, "ab\n  cd P\n  Q\n");
}

#[test]
fn empty_needle_matches_at_boundaries() {
    let every = rule(Replace::Text(String::new()), false, Which::Every);
    assert_eq!(evaluate_rule("ab".to_string(), &every, "-"), "-a-b-");
    let first = rule(Replace::Text(String::new()), false, Which::First);
    assert_eq!(evaluate_rule("ab".to_string(), &first, "-"), "-ab");
}

#[test]
fn empty_content_stays_empty() {
    let r = rule(Replace::Text("X".to_string()), true, Which::FirstInLine);
    assert_eq!(evaluate_rule(String::new(), &r, "Y"), "");
    let b = rule(
        Replace::LinesBetween("B".to_string(), "E".to_string()),
        false,
        Which::Every,
    );
    assert_eq!(evaluate_rule(String::new(), &b, "Y"), "");
}

#[test]
fn resolve_literal_sources() {
    let s = With::String {
        string: "lit".to_string(),
    };
    assert_eq!(resolve_literal(&s), Some("lit".to_string()));
    let p = With::Pattern {
        pattern: "pat".to_string(),
    };
    assert_eq!(resolve_literal(&p), Some("pat".to_string()));
    let f = With::File {
        file: "x.txt".to_string(),
    };
    assert_eq!(resolve_literal(&f), None);
    let j = With::Jinja {
        template: "t.j2".to_string(),
        values: "v.json".to_string(),
    };
    assert_eq!(resolve_literal(&j), None);
}
