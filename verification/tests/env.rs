use dotfile_preprocessor::env::expand;
use dotfile_preprocessor::env::expand_env;
use dotfile_preprocessor::env::expand_subst;
use dotfile_preprocessor::env::Outputs;
use dotfile_preprocessor::error::Error;
use dotfile_preprocessor::table::Table;

fn text(s: &str) -> String {
    s.to_string()
}

#[test]
fn test_expand_env() {
    let mut variables = Table::new();
    variables.insert("DOTFILE_TESTING_STUFF", "FUBAR");
    assert_eq!(expand_env("$DOTFILE_TESTING_STUFF", &variables).unwrap(), "FUBAR");
    assert_eq!(
        expand_env(" $DOTFILE_TESTING_STUFF ", &variables).unwrap(),
        " FUBAR "
    );
    assert_eq!(
        expand_env(
            " $SOME_VERY_UNLIKELY_VARIABLE_THAT_COULD_DESTROY_THIS_TEST ",
            &variables
        )
        .unwrap(),
        "  "
    );
    assert_eq!(expand_env(r"\$HOME", &variables).unwrap(), r"\$HOME");
}

#[test]
fn test_expand_subst() {
    // What a shell prints for the two commands below.
    let mut outputs = Outputs::new();
    outputs.record("echo 'Hello World'", Some("Hello World\n"));
    outputs.record("echo -n 'Hello World'", Some("Hello World"));
    assert_eq!(
        expand_subst("$(echo 'Hello World')", &outputs).unwrap(),
        "Hello World"
    );
    assert_eq!(
        expand_subst(" $(echo 'Hello World') ", &outputs).unwrap(),
        " Hello World "
    );
    assert_eq!(
        expand_subst(" $(echo -n 'Hello World') ", &outputs).unwrap(),
        " Hello World "
    );
    assert_eq!(
        expand_subst(" \\$(echo -n 'Hello World') ", &outputs).unwrap(),
        " \\$(echo -n 'Hello World') "
    );
}

#[test]
fn braces_and_plain_names_both_expand() {
    let mut variables = Table::new();
    variables.insert("HOME", "/home/me");
    variables.insert("USER_NAME", "me");
    assert_eq!(
        expand_env("${HOME}/.config of $USER_NAME.", &variables),
        Ok(text("/home/me/.config of me."))
    );
    assert_eq!(expand_env("${UNSET}|$UNSET|", &variables), Ok(text("||")));
    assert_eq!(expand_env(r"\${HOME}", &variables), Ok(text(r"\${HOME}")));
    assert_eq!(expand_env("no reference", &variables), Ok(text("no reference")));
    assert_eq!(expand_env("", &variables), Ok(text("")));
    // A name ends where its letters end.
    assert_eq!(expand_env("$HOME2", &variables), Ok(text("/home/me2")));
}

#[test]
fn a_reference_right_after_another_keeps_its_dollar() {
    // The character before a reference belongs to its match, so the second
    // reference has none left to begin with.
    let mut variables = Table::new();
    variables.insert("A", "1");
    variables.insert("B", "2");
    assert_eq!(expand_env("$A$B", &variables), Ok(text("1$B")));
    assert_eq!(expand_env("$A $B", &variables), Ok(text("1 2")));
}

#[test]
fn a_later_value_replaces_an_earlier_one() {
    let mut variables = Table::new();
    assert_eq!(variables.get("A"), None);
    variables.insert("A", "1");
    variables.insert("B", "x");
    variables.insert("A", "2");
    assert_eq!(variables.get("A"), Some("2"));
    assert_eq!(variables.get("B"), Some("x"));
    assert_eq!(expand_env("$A", &variables), Ok(text("2")));
}

#[test]
fn a_command_that_was_not_run_is_asked_for() {
    let mut outputs = Outputs::new();
    assert_eq!(outputs.get("first"), None);
    assert_eq!(
        expand_subst("a $(first) b $(second)", &outputs),
        Err(Error::CommandNotRun(text("first")))
    );
    outputs.record("first", Some("1\n\n"));
    assert_eq!(outputs.get("first"), Some(Some("1\n\n")));
    assert_eq!(
        expand_subst("a $(first) b $(second)", &outputs),
        Err(Error::CommandNotRun(text("second")))
    );
    outputs.record("second", Some("\n2"));
    assert_eq!(
        expand_subst("a $(first) b $(second)", &outputs),
        Ok(text("a 1 b \n2"))
    );
}

#[test]
fn a_failed_command_leaves_nothing() {
    let mut outputs = Outputs::new();
    outputs.record("false", None);
    assert_eq!(outputs.get("false"), Some(None));
    // Not even the character before the substitution stays.
    assert_eq!(expand_subst("a $(false) b", &outputs), Ok(text("a b")));
    outputs.record("false", Some("now it works"));
    assert_eq!(
        expand_subst("a $(false) b", &outputs),
        Ok(text("a now it works b"))
    );
}

#[test]
fn expand_substitutes_and_then_expands_variables() {
    let mut variables = Table::new();
    variables.insert("NAME", "world");
    let mut outputs = Outputs::new();
    outputs.record("greet", Some("hello $NAME\n"));
    assert_eq!(
        expand("$(greet), ${NAME}!", &variables, &outputs),
        Ok(text("hello world, world!"))
    );
    assert_eq!(
        expand("$(other)", &variables, &outputs),
        Err(Error::CommandNotRun(text("other")))
    );
    assert_eq!(expand("plain", &variables, &outputs), Ok(text("plain")));
}
