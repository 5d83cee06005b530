use dotfile_preprocessor::command::Command;
use dotfile_preprocessor::config::file_config::parse_lines;
use dotfile_preprocessor::config::file_config::Escape;
use dotfile_preprocessor::config::file_config::FileConfig;
use dotfile_preprocessor::config::Config;
use dotfile_preprocessor::config::RawConfig;
use dotfile_preprocessor::env::Outputs;
use dotfile_preprocessor::error::Error;
use dotfile_preprocessor::session::Answer;
use dotfile_preprocessor::session::Session;
use dotfile_preprocessor::table::Table;

fn text(s: &str) -> String {
    s.to_string()
}

fn escape(start: &str, end: &str) -> Escape {
    Escape {
        start: text(start),
        end: text(end),
    }
}

fn file(prefix: Option<&str>, remove_instructions: Option<bool>) -> FileConfig {
    FileConfig {
        source: text("source"),
        target: text("target"),
        escape: None,
        prefix: prefix.map(text),
        remove_instructions,
    }
}

#[test]
fn supplement_fills_what_is_not_set() {
    let mut config = file(None, None);
    config.supplement(&Some(escape("{{", "}}")), false, &Some(text("#!")));
    assert_eq!(
        config,
        FileConfig {
            source: text("source"),
            target: text("target"),
            escape: Some(escape("{{", "}}")),
            prefix: Some(text("#!")),
            remove_instructions: Some(false),
        }
    );
}

#[test]
fn supplement_leaves_what_is_set() {
    let mut config = FileConfig {
        source: text("source"),
        target: text("target"),
        escape: Some(escape("<", ">")),
        prefix: Some(text("//")),
        remove_instructions: Some(true),
    };
    let before = FileConfig {
        source: text("source"),
        target: text("target"),
        escape: Some(escape("<", ">")),
        prefix: Some(text("//")),
        remove_instructions: Some(true),
    };
    config.supplement(&Some(escape("{{", "}}")), false, &Some(text("#!")));
    assert_eq!(config, before);
    config.supplement(&None, false, &None);
    assert_eq!(config, before);
}

#[test]
fn supplement_without_defaults_sets_only_the_removal() {
    let mut config = file(None, None);
    config.supplement(&None, true, &None);
    assert_eq!(config, file(None, Some(true)));
}

#[test]
fn a_loaded_configuration_is_normalized() {
    let mut substitutions = Table::new();
    substitutions.insert("KEY", "value");
    let raw = RawConfig {
        default_escape: Some(escape("{{", "}}")),
        default_prefix: Some(text("~")),
        default_remove_instructions: true,
        file_configurations: vec![file(None, None), file(Some("#"), Some(false))],
        substitutions: Some(substitutions),
    };
    let config = Config::from(raw);
    assert_eq!(config.file_configurations.len(), 2);
    assert_eq!(config.file_configurations[0].prefix, Some(text("~")));
    assert_eq!(config.file_configurations[0].remove_instructions, Some(true));
    assert_eq!(config.file_configurations[0].escape, Some(escape("{{", "}}")));
    assert_eq!(config.file_configurations[1].prefix, Some(text("#")));
    assert_eq!(config.file_configurations[1].remove_instructions, Some(false));
    assert_eq!(config.file_configurations[1].escape, Some(escape("{{", "}}")));
    assert_eq!(config.substitutions.get("KEY"), Some("value"));

    let raw = RawConfig {
        default_escape: None,
        default_prefix: None,
        default_remove_instructions: false,
        file_configurations: vec![],
        substitutions: None,
    };
    let config = Config::from(raw);
    assert!(config.file_configurations.is_empty());
    assert_eq!(config.substitutions.get("KEY"), None);
}

#[test]
fn the_preprocessed_copy_stands_beside_the_source() {
    assert_eq!(
        file(None, None).temp_path("/home/me/.bashrc"),
        "/home/me/.bashrc.preprocessed"
    );
    assert_eq!(file(None, None).temp_path(""), ".preprocessed");
}

#[test]
fn the_escape_pattern_quotes_the_sequences() {
    assert_eq!(
        escape("{{-", "-}}").to_regex(),
        r"([^\\])\{\{\-(.*?[^\\])\-\}\}"
    );
    assert_eq!(escape("<<", ">>").to_regex(), r"([^\\])<<(.*?[^\\])>>");
    assert_eq!(file(None, None).escape_regex(), None);
    let mut config = file(None, None);
    config.escape = Some(escape("$(", ")"));
    assert_eq!(config.escape_regex(), Some(text(r"([^\\])\$\((.*?[^\\])\)")));
}

const CONTENT: &str = "first\n#! ifdef $EDITOR\neditor\n#! else\nno editor\n#! endif\nlast\n";

#[test]
fn without_a_prefix_the_content_stays() {
    let session = Session::new();
    assert_eq!(
        file(None, Some(true)).preprocess_instructions(CONTENT, &session),
        Ok(text(CONTENT))
    );
}

#[test]
fn directives_drop_the_branch_not_taken() {
    let mut session = Session::new();
    assert_eq!(
        file(Some("#!"), Some(true)).preprocess_instructions(CONTENT, &session),
        Err(Error::UnresolvedVariable(text("$EDITOR")))
    );
    session.resolve("$EDITOR", "vi");
    assert_eq!(
        file(Some("#!"), Some(true)).preprocess_instructions(CONTENT, &session),
        Ok(text("first\neditor\nlast"))
    );
    assert_eq!(
        file(Some("#!"), None).preprocess_instructions(CONTENT, &session),
        Ok(text("first\neditor\nlast"))
    );
    assert_eq!(
        file(Some("#!"), Some(false)).preprocess_instructions(CONTENT, &session),
        Ok(text("first\n#! ifdef $EDITOR\neditor\n#! else\n#! endif\nlast"))
    );
    session.resolve("$EDITOR", "");
    assert_eq!(
        file(Some("#!"), Some(true)).preprocess_instructions(CONTENT, &session),
        Ok(text("first\nno editor\nlast"))
    );
}

#[test]
fn content_from_which_nothing_is_dropped_stays_as_it_is() {
    let mut session = Session::new();
    session.resolve("X", "x");
    let content = "one\r\n#! ifdef X\r\ntwo\r\n#! endif\r\n";
    assert_eq!(
        file(Some("#!"), Some(false)).preprocess_instructions(content, &session),
        Ok(text(content))
    );
    assert_eq!(
        file(Some("#!"), Some(true)).preprocess_instructions(content, &session),
        Ok(text("one\ntwo"))
    );
    assert_eq!(
        file(Some("#!"), Some(true)).preprocess_instructions("no directive\n", &session),
        Ok(text("no directive\n"))
    );
    assert_eq!(
        file(Some("#!"), Some(true)).preprocess_instructions("", &session),
        Ok(text(""))
    );
}

#[test]
fn the_first_bad_directive_line_fails_the_file() {
    let session = Session::new();
    let content = "#! ifdef A\n#! bogus\n#! worse\n#! endif\n";
    assert_eq!(
        file(Some("#!"), Some(true)).preprocess_instructions(content, &session),
        Err(Error::UnrecognizedDirective(text("bogus")))
    );
    let lines = vec![text("#! ifdef A"), text("plain"), text("#!endif")];
    assert_eq!(
        parse_lines("#!", &lines),
        Ok(vec![(0, Command::IfDef(text("A"))), (2, Command::EndIf)])
    );
    let lines = vec![text("plain"), text("#!"), text("#! nothing")];
    assert_eq!(
        parse_lines("#!", &lines),
        Err(Error::UnrecognizedDirective(text("")))
    );
}

#[test]
fn a_malformed_block_fails_the_file() {
    let mut session = Session::new();
    session.resolve("A", "a");
    assert_eq!(
        file(Some("~"), Some(true)).preprocess_instructions("x\n~endif\n", &session),
        Err(Error::StrayDirective(1, Command::EndIf))
    );
    assert_eq!(
        file(Some("~"), Some(true)).preprocess_instructions("x\n\n~ifdef A\ny\n", &session),
        Err(Error::MissingClosingDirective(2, Command::IfDef(text("A"))))
    );
}

#[test]
fn questions_in_a_file_are_answered_through_the_session() {
    let content = "~ask Which shell?\n~option bash\nB\n~option zsh\nZ\n~endask\nend";
    let config = file(Some("~"), Some(true));
    let mut session = Session::new();
    let options = vec![text("bash"), text("zsh")];
    assert_eq!(
        config.preprocess_instructions(content, &session),
        Err(Error::UnansweredQuestion(text("Which shell?"), vec![text("bash"), text("zsh")]))
    );
    assert_eq!(session.reply("Which shell?", &options, "2\n"), Some(Answer::Option(1)));
    assert_eq!(config.preprocess_instructions(content, &session), Ok(text("Z\nend")));
    session.answer("Which shell?", &options, Answer::Option(0));
    assert_eq!(config.preprocess_instructions(content, &session), Ok(text("B\nend")));
}

fn escaped() -> FileConfig {
    let mut config = file(Some("#!"), Some(true));
    config.escape = Some(escape("{{", "}}"));
    config
}

#[test]
fn escapes_are_replaced_by_substitutions_or_expansions() {
    let mut substitutions = Table::new();
    substitutions.insert("NAME", "Jane");
    let mut variables = Table::new();
    variables.insert("HOME", "/home/jane");
    let outputs = Outputs::new();
    let config = escaped();
    assert_eq!(
        config.preprocess_substitutions(
            "name = {{NAME}}; home = {{$HOME}}; {{other}}",
            &substitutions,
            &variables,
            &outputs
        ),
        Ok(text("name = Jane; home = /home/jane; other"))
    );
    // An escape after a backslash, or at the very start, is left alone.
    assert_eq!(
        config.preprocess_substitutions(r"a \{{NAME}} b", &substitutions, &variables, &outputs),
        Ok(text(r"a \{{NAME}} b"))
    );
    assert_eq!(
        config.preprocess_substitutions("{{NAME}}", &substitutions, &variables, &outputs),
        Ok(text("{{NAME}}"))
    );
    assert_eq!(
        config.preprocess_substitutions("nothing to do", &substitutions, &variables, &outputs),
        Ok(text("nothing to do"))
    );
}

#[test]
fn without_escape_sequences_nothing_is_replaced() {
    let mut substitutions = Table::new();
    substitutions.insert("NAME", "Jane");
    assert_eq!(
        file(None, None).preprocess_substitutions(
            "name = {{NAME}}",
            &substitutions,
            &Table::new(),
            &Outputs::new()
        ),
        Ok(text("name = {{NAME}}"))
    );
}

#[test]
fn an_escape_may_need_a_command() {
    let substitutions = Table::new();
    let variables = Table::new();
    let mut outputs = Outputs::new();
    let config = escaped();
    assert_eq!(
        config.preprocess_substitutions(
            "on {{$(hostname)}} and {{$(uname)}}",
            &substitutions,
            &variables,
            &outputs
        ),
        Err(Error::CommandNotRun(text("hostname")))
    );
    outputs.record("hostname", Some("box\n"));
    outputs.record("uname", Some("Linux\n"));
    assert_eq!(
        config.preprocess_substitutions(
            "on {{$(hostname)}} and {{$(uname)}}",
            &substitutions,
            &variables,
            &outputs
        ),
        Ok(text("on box and Linux"))
    );
}

#[test]
fn preprocess_evaluates_directives_and_then_replaces_escapes() {
    let content = "#! ifdef $WORK\nmail = {{WORK_MAIL}}\n#! else\nmail = {{HOME_MAIL}}\n#! endif\n";
    let mut substitutions = Table::new();
    substitutions.insert("WORK_MAIL", "me@work");
    substitutions.insert("HOME_MAIL", "me@home");
    let variables = Table::new();
    let outputs = Outputs::new();
    let mut session = Session::new();
    let config = escaped();
    assert_eq!(
        config.preprocess(content, &substitutions, &session, &variables, &outputs),
        Err(Error::UnresolvedVariable(text("$WORK")))
    );
    session.resolve("$WORK", "1");
    assert_eq!(
        config.preprocess(content, &substitutions, &session, &variables, &outputs),
        Ok(text("mail = me@work"))
    );
    session.resolve("$WORK", " ");
    assert_eq!(
        config.preprocess(content, &substitutions, &session, &variables, &outputs),
        Ok(text("mail = me@home"))
    );
}

#[test]
fn an_escape_too_long_for_a_pattern_is_an_error() {
    let mut config = file(None, None);
    config.escape = Some(escape(&"{".repeat(4_000_000), "}"));
    let outcome = config.preprocess_substitutions(
        "some content",
        &Table::new(),
        &Table::new(),
        &Outputs::new(),
    );
    assert!(matches!(outcome, Err(Error::FailedToParseRegex(_))), "{:?}", outcome);
}

#[test]
fn only_an_old_link_makes_way_for_the_new_one() {
    assert_eq!(FileConfig::check_target("/home/me/.bashrc", None), Ok(false));
    assert_eq!(FileConfig::check_target("/home/me/.bashrc", Some(true)), Ok(true));
    assert_eq!(
        FileConfig::check_target("/home/me/.bashrc", Some(false)),
        Err(Error::TargetAlreadyExists(text("/home/me/.bashrc")))
    );
}
