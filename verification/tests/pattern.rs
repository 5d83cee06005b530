use dotfile_preprocessor::config::file_config::replace_escapes;
use dotfile_preprocessor::env::replace_commands;
use dotfile_preprocessor::env::replace_references;
use dotfile_preprocessor::env::Outputs;
use dotfile_preprocessor::error::Error;
use dotfile_preprocessor::pattern::group_text;
use dotfile_preprocessor::pattern::interleave;
use dotfile_preprocessor::table::Table;

fn texts(items: &[&str]) -> Vec<String> {
    items.iter().map(|item| item.to_string()).collect()
}

/// The groups of one match: the whole match, the character before the
/// reference, and the name.
fn found(before: &str, name: &str) -> Vec<Option<String>> {
    vec![
        Some(format!("{}${}", before, name)),
        Some(before.to_string()),
        Some(name.to_string()),
    ]
}

#[test]
fn interleave_puts_a_replacement_after_each_piece_but_the_last() {
    assert_eq!(interleave(&texts(&["a", "b", "c"]), &texts(&["1", "2"])), "a1b2c");
    assert_eq!(interleave(&texts(&["", "", ""]), &texts(&["1", "2"])), "12");
    assert_eq!(interleave(&texts(&["only"]), &texts(&[])), "only");
    assert_eq!(interleave(&texts(&[]), &texts(&[])), "");
    // Pieces without a replacement follow each other, and a replacement
    // without a piece after it is left out.
    assert_eq!(interleave(&texts(&["a", "b", "c"]), &texts(&["1"])), "a1bc");
    assert_eq!(interleave(&texts(&["a", "b"]), &texts(&["1", "2", "3"])), "a1b");
    assert_eq!(interleave(&texts(&[]), &texts(&["1"])), "");
}

#[test]
fn a_group_that_is_missing_is_empty() {
    let groups = vec![Some("whole".to_string()), None, Some("two".to_string())];
    assert_eq!(group_text(&groups, 0), "whole");
    assert_eq!(group_text(&groups, 1), "");
    assert_eq!(group_text(&groups, 2), "two");
    assert_eq!(group_text(&groups, 3), "");
}

#[test]
fn references_are_replaced_by_values() {
    let mut variables = Table::new();
    variables.insert("A", "1");
    assert_eq!(
        replace_references(
            &texts(&["x", " y", ""]),
            &vec![found(" ", "A"), found("/", "B")],
            &variables
        ),
        "x 1 y/"
    );
    assert_eq!(replace_references(&texts(&["plain"]), &vec![], &variables), "plain");
}

#[test]
fn commands_are_replaced_by_what_they_printed() {
    let mut outputs = Outputs::new();
    outputs.record("date", Some("today\n"));
    outputs.record("fail", None);
    let pieces = texts(&["It is", ",", "."]);
    assert_eq!(
        replace_commands(&pieces, &vec![found(" ", "date"), found(" ", "fail")], &outputs),
        Ok("It is today,.".to_string())
    );
    assert_eq!(
        replace_commands(&pieces, &vec![found(" ", "date"), found(" ", "who")], &outputs),
        Err(Error::CommandNotRun("who".to_string()))
    );
    assert_eq!(
        replace_commands(&pieces, &vec![found(" ", "id"), found(" ", "who")], &outputs),
        Err(Error::CommandNotRun("id".to_string()))
    );
}

#[test]
fn escapes_are_replaced_by_substitutions_first() {
    let mut substitutions = Table::new();
    substitutions.insert("$HOME", "substituted");
    substitutions.insert("KEY", "value");
    let mut variables = Table::new();
    variables.insert("HOME", "/home/me");
    let outputs = Outputs::new();
    let pieces = texts(&["", "", "", ""]);
    assert_eq!(
        replace_escapes(
            &pieces,
            &vec![found("a", "KEY"), found("b", "$HOME"), found("c", "${HOME}")],
            &substitutions,
            &variables,
            &outputs
        ),
        Ok("avaluebsubstitutedc/home/me".to_string())
    );
    assert_eq!(
        replace_escapes(
            &pieces,
            &vec![found("a", "KEY"), found("b", "$(pwd)"), found("c", "$(ls)")],
            &substitutions,
            &variables,
            &outputs
        ),
        Err(Error::CommandNotRun("pwd".to_string()))
    );
}
