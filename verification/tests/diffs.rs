use rtrack::diff::{
    compute_diff, render_diff, restore_current, restore_snapshot, split_lines, Difference,
};

fn s(x: &str) -> String {
    x.to_string()
}

#[test]
fn test_diff_unchanged() {
    let text = s("0123456789\n");
    let (d, script) = compute_diff(&text, &text);
    assert_eq!(d, 0);
    assert!(script.iter().all(|c| matches!(c, Difference::Same(_))));
    assert_eq!(restore_snapshot(&script), text);
    assert_eq!(restore_current(&script), text);
}

#[test]
fn test_diff_empty_texts() {
    let (d, script) = compute_diff(&s(""), &s(""));
    assert_eq!(d, 0);
    assert!(script.iter().all(|c| matches!(c, Difference::Same(_))));
    assert_eq!(restore_snapshot(&script), "");
}

#[test]
fn test_diff_one_added_line() {
    let before = s("0123456789\n");
    let after = s("0123456789\nabc\n");
    let (d, script) = compute_diff(&before, &after);
    assert_eq!(d, 1);
    assert_eq!(
        script,
        vec![
            Difference::Same(s("0123456789")),
            Difference::Add(s("abc")),
            Difference::Same(s("")),
        ]
    );
    assert_eq!(restore_snapshot(&script), before);
    assert_eq!(restore_current(&script), after);
}

#[test]
fn test_diff_one_removed_line() {
    let before = s("a\nb\n");
    let after = s("a\n");
    let (d, script) = compute_diff(&before, &after);
    assert_ne!(d, 0);
    let rems: Vec<&Difference> = script
        .iter()
        .filter(|c| matches!(c, Difference::Rem(_)))
        .collect();
    assert_eq!(rems.len(), 1);
    assert_eq!(rems[0], &Difference::Rem(s("b")));
    assert!(!script.iter().any(|c| matches!(c, Difference::Add(_))));
    assert_eq!(restore_snapshot(&script), before);
    assert_eq!(restore_current(&script), after);
}

#[test]
fn test_diff_uses_outside_changeset() {
    // Without a trailing newline the outside changeset accounts for every
    // line, so it is returned as it came, with its own edit distance.
    let before = s("a\nb");
    let after = s("a\nc");
    let (d, script) = compute_diff(&before, &after);
    assert_eq!(d, 2);
    assert_eq!(
        script,
        vec![
            Difference::Same(s("a")),
            Difference::Rem(s("b")),
            Difference::Add(s("c")),
        ]
    );
    assert_eq!(restore_snapshot(&script), before);
    assert_eq!(restore_current(&script), after);
}

#[test]
fn test_diff_round_trip() {
    let before = s("a\nb\nc\n");
    let after = s("a\nx\nc\nd\n");
    let (d, script) = compute_diff(&before, &after);
    assert_ne!(d, 0);
    assert_eq!(restore_snapshot(&script), before);
    assert_eq!(restore_current(&script), after);
}

#[test]
fn test_diff_completely_different() {
    let before = s("one\ntwo\n");
    let after = s("three\n");
    let (d, script) = compute_diff(&before, &after);
    assert_ne!(d, 0);
    assert_eq!(restore_snapshot(&script), before);
    assert_eq!(restore_current(&script), after);
}

#[test]
fn test_split_lines() {
    assert_eq!(split_lines(&s("a\nb\n")), vec![s("a"), s("b"), s("")]);
    assert_eq!(split_lines(&s("")), vec![s("")]);
    assert_eq!(split_lines(&s("abc")), vec![s("abc")]);
    assert_eq!(split_lines(&s("\n\n")), vec![s(""), s(""), s("")]);
}

#[test]
fn test_render() {
    let script = vec![
        Difference::Same(s("a")),
        Difference::Rem(s("b")),
        Difference::Add(s("c")),
    ];
    assert_eq!(render_diff(&script), "  a\n- b\n+ c\n");
    let empty: Vec<Difference> = Vec::new();
    assert_eq!(render_diff(&empty), "");
}
