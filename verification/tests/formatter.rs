use sam_env_diff::differ::{diff_env_maps, DiffStatus};
use sam_env_diff::env_map::EnvMap;
use sam_env_diff::formatter::console::{
    closing_note, console_rows, header_width, key_column_width, summary_parts, ClosingNote,
    SummaryPart,
};
use sam_env_diff::formatter::json::format_json;

fn map(pairs: &[(&str, &str)]) -> EnvMap {
    let mut m = EnvMap::new();
    for (k, v) in pairs {
        m.insert(k.to_string(), v.to_string());
    }
    m
}

fn sample() -> (EnvMap, EnvMap) {
    let left = map(&[
        ("API_KEY", "sk-live-7f3a"),
        ("DEBUG_MODE", "true"),
        ("SAME", "value1"),
    ]);
    let right = map(&[
        ("API_KEY", "sk-test-0000"),
        ("DATABASE_URL", "postgres://x"),
        ("SAME", "value1"),
    ]);
    (left, right)
}

#[test]
fn bot_output_masks_by_default() {
    let (left, right) = sample();
    let diff = diff_env_maps(&left, &right);
    let out = format_json(&diff, ".env", ".env.example", false);
    assert_eq!(out.left, ".env");
    assert_eq!(out.right, ".env.example");
    assert_eq!(out.missing.len(), 1);
    assert_eq!(out.missing[0].key, "DATABASE_URL");
    assert_eq!(out.extra.len(), 1);
    assert_eq!(out.extra[0].key, "DEBUG_MODE");
    assert_eq!(out.extra[0].val, "****");
    assert_eq!(out.changed.len(), 1);
    assert_eq!(out.changed[0].key, "API_KEY");
    assert_eq!(out.changed[0].left, "****7f3a");
    assert_eq!(out.changed[0].right, "****0000");
    assert_eq!(out.match_count, 1);
    assert!(!out.ok);
}

#[test]
fn bot_output_reveals_on_request() {
    let (left, right) = sample();
    let diff = diff_env_maps(&left, &right);
    let out = format_json(&diff, "a", "b", true);
    assert_eq!(out.extra[0].val, "true");
    assert_eq!(out.changed[0].left, "sk-live-7f3a");
    assert_eq!(out.changed[0].right, "sk-test-0000");
}

#[test]
fn rows_hide_matches_unless_all() {
    let (left, right) = sample();
    let diff = diff_env_maps(&left, &right);
    let rows = console_rows(&diff, false, false);
    let keys: Vec<_> = rows.iter().map(|r| r.key.as_str()).collect();
    assert_eq!(keys, vec!["API_KEY", "DATABASE_URL", "DEBUG_MODE"]);
    let all = console_rows(&diff, false, true);
    assert_eq!(all.len(), 4);
    assert_eq!(all[3].key, "SAME");
    assert_eq!(all[3].status, DiffStatus::Match);
    assert_eq!(all[3].left.as_deref(), Some("****lue1"));
}

#[test]
fn rows_show_dash_on_absent_side() {
    let (left, right) = sample();
    let diff = diff_env_maps(&left, &right);
    let rows = console_rows(&diff, true, false);
    assert_eq!(rows[1].status, DiffStatus::Missing);
    assert_eq!(rows[1].left, None);
    assert_eq!(rows[1].right.as_deref(), Some("postgres://x"));
    assert_eq!(rows[2].status, DiffStatus::Extra);
    assert_eq!(rows[2].left.as_deref(), Some("true"));
    assert_eq!(rows[2].right, None);
}

#[test]
fn column_widths() {
    let (left, right) = sample();
    let diff = diff_env_maps(&left, &right);
    let rows = console_rows(&diff, false, true);
    assert_eq!(key_column_width(&rows), 12);
    assert_eq!(key_column_width(&Vec::new()), 10);
    let short = diff_env_maps(&map(&[("A", "1")]), &map(&[]));
    assert_eq!(key_column_width(&console_rows(&short, false, false)), 3);
    assert_eq!(header_width("Left (.env)"), 20);
    assert_eq!(header_width("Left (/a/very/long/path/.env)"), 29);
    assert_eq!(header_width("Left (é)"), 20);
}

#[test]
fn summary_lists_nonempty_buckets() {
    let (left, right) = sample();
    let diff = diff_env_maps(&left, &right);
    assert_eq!(
        summary_parts(&diff, false),
        vec![
            SummaryPart::Missing(1),
            SummaryPart::Extra(1),
            SummaryPart::Changed(1),
            SummaryPart::MatchingHidden(1)
        ]
    );
    assert_eq!(
        summary_parts(&diff, true).last(),
        Some(&SummaryPart::Matching(1))
    );
    assert_eq!(closing_note(&diff), ClosingNote::MissingKeys(1));
}

#[test]
fn closing_note_cases() {
    let a = map(&[("A", "1")]);
    assert_eq!(closing_note(&diff_env_maps(&a, &a.clone())), ClosingNote::FilesMatch);
    let b = map(&[("A", "2")]);
    assert_eq!(closing_note(&diff_env_maps(&a, &b)), ClosingNote::Nothing);
    assert_eq!(summary_parts(&diff_env_maps(&a, &a.clone()), true), vec![SummaryPart::Matching(1)]);
    assert!(summary_parts(&diff_env_maps(&EnvMap::new(), &EnvMap::new()), false).is_empty());
}
