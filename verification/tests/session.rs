use dotfile_preprocessor::session::copy_labels;
use dotfile_preprocessor::session::parse_answer;
use dotfile_preprocessor::session::Answer;
use dotfile_preprocessor::session::Session;

fn labels(names: &[&str]) -> Vec<String> {
    names.iter().map(|name| name.to_string()).collect()
}

#[test]
fn yes_and_no_are_single_letters() {
    assert_eq!(parse_answer("y\n", 0), Some(Answer::YesNo(true)));
    assert_eq!(parse_answer("Y", 0), Some(Answer::YesNo(true)));
    assert_eq!(parse_answer("n\n", 0), Some(Answer::YesNo(false)));
    assert_eq!(parse_answer("N\n\n", 0), Some(Answer::YesNo(false)));
    for other in ["", "\n", "yes\n", " y\n", "y \n", "1\n", "y\r\n", "ny"] {
        assert_eq!(parse_answer(other, 0), None, "{:?}", other);
    }
}

#[test]
fn a_selection_is_a_number_of_an_option() {
    assert_eq!(parse_answer("1\n", 3), Some(Answer::Option(0)));
    assert_eq!(parse_answer("3\n", 3), Some(Answer::Option(2)));
    assert_eq!(parse_answer("+2", 3), Some(Answer::Option(1)));
    assert_eq!(parse_answer("002\n", 3), Some(Answer::Option(1)));
    assert_eq!(parse_answer("12\n", 12), Some(Answer::Option(11)));
    assert_eq!(
        parse_answer("18446744073709551615", usize::MAX),
        Some(Answer::Option(usize::MAX - 1))
    );
    for other in [
        "",
        "\n",
        "0\n",
        "4\n",
        "-1\n",
        "+\n",
        "++1\n",
        "1+\n",
        " 1\n",
        "1 \n",
        "one\n",
        "y\n",
        "1.0\n",
        "18446744073709551616\n",
        "99999999999999999999999999999999999999999\n",
        "١\n",
    ] {
        assert_eq!(parse_answer(other, 3), None, "{:?}", other);
    }
    assert_eq!(parse_answer("18446744073709551616", usize::MAX), None);
}

#[test]
fn a_reply_that_is_an_answer_is_recorded() {
    let mut session = Session::new();
    let options = labels(&["first", "second"]);
    assert_eq!(session.answered("Which?", &options), None);
    assert_eq!(session.reply("Which?", &options, "three\n"), None);
    assert_eq!(session.reply("Which?", &options, "3\n"), None);
    assert_eq!(session.answered("Which?", &options), None);
    assert_eq!(session.reply("Which?", &options, "2\n"), Some(Answer::Option(1)));
    assert_eq!(session.answered("Which?", &options), Some(Answer::Option(1)));
    // Another question, by its text or by its options.
    assert_eq!(session.answered("Which one?", &options), None);
    assert_eq!(session.answered("Which?", &labels(&["second", "first"])), None);
    assert_eq!(session.answered("Which?", &labels(&["first"])), None);
    assert_eq!(session.answered("Which?", &labels(&[])), None);
    assert_eq!(session.reply("Which?", &labels(&[]), "2\n"), None);
    assert_eq!(session.reply("Which?", &labels(&[]), "y\n"), Some(Answer::YesNo(true)));
    assert_eq!(session.answered("Which?", &labels(&[])), Some(Answer::YesNo(true)));
    assert_eq!(session.answered("Which?", &options), Some(Answer::Option(1)));
}

#[test]
fn a_later_answer_replaces_an_earlier_one() {
    let mut session = Session::new();
    session.answer("q", &labels(&[]), Answer::YesNo(true));
    session.answer("q", &labels(&[]), Answer::YesNo(false));
    assert_eq!(session.answered("q", &labels(&[])), Some(Answer::YesNo(false)));
}

#[test]
fn expansions_are_kept_by_expression() {
    let mut session = Session::new();
    assert_eq!(session.expansion("$A"), None);
    session.resolve("$A", "1");
    session.resolve("${A}", "2");
    assert_eq!(session.expansion("$A"), Some("1"));
    assert_eq!(session.expansion("${A}"), Some("2"));
    assert_eq!(session.expansion("A"), None);
    session.resolve("$A", "3");
    assert_eq!(session.expansion("$A"), Some("3"));
}

#[test]
fn labels_are_copied_as_they_are() {
    assert_eq!(copy_labels(&labels(&["a", "", "öüä"])), labels(&["a", "", "öüä"]));
    assert_eq!(copy_labels(&labels(&[])), labels(&[]));
}
