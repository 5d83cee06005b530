use dotfile_preprocessor::command::Command;
use dotfile_preprocessor::command::Command::Ask;
use dotfile_preprocessor::command::Command::Comment;
use dotfile_preprocessor::command::Command::Else;
use dotfile_preprocessor::command::Command::EndAsk;
use dotfile_preprocessor::command::Command::EndIf;
use dotfile_preprocessor::command::Command::If;
use dotfile_preprocessor::command::Command::IfDef;
use dotfile_preprocessor::command::Command::IfNDef;
use dotfile_preprocessor::command_reader::evaluate_expr;
use dotfile_preprocessor::command_reader::evaluate_var;
use dotfile_preprocessor::command_reader::CommandReader;
use dotfile_preprocessor::error::Error;
use dotfile_preprocessor::session::Answer;
use dotfile_preprocessor::session::Session;
use std::collections::HashSet;

fn text(s: &str) -> String {
    s.to_string()
}

fn lines(wanted: &[usize]) -> HashSet<usize> {
    wanted.iter().copied().collect()
}

/// A session in which every given expression expands to itself.
fn literal(exprs: &[&str]) -> Session {
    let mut session = Session::new();
    for expr in exprs {
        session.resolve(expr, expr);
    }
    session
}

#[test]
fn test_command_read_ifdef() {
    let session = literal(&["NOT_EMPTY_STRING", "ULTRA_LONG_VARIABLE"]);
    // With else branch
    let cmds = &[(1, IfDef(text("NOT_EMPTY_STRING"))), (5, Else), (10, EndIf)];
    let mut reader = CommandReader::new(cmds, &session);
    reader.read_cmd_ifdef().expect("Should work");
    assert_eq!(reader.idx(), 3);
    assert_eq!(reader.skips(), &vec![6, 7, 8, 9].drain(..).collect());

    // Without else branch
    let cmds = &[(1, IfDef(text("ULTRA_LONG_VARIABLE"))), (7, EndIf)];
    let mut reader = CommandReader::new(cmds, &session);
    reader.read_cmd_ifdef().expect("Should work");
    assert_eq!(reader.idx(), 2);
    assert_eq!(reader.skips(), &HashSet::new());

    // With no line in between
    let cmds = &[(1, IfDef(text("NOT_EMPTY_STRING"))), (2, EndIf)];
    let mut reader = CommandReader::new(cmds, &session);
    reader.read_cmd_ifdef().expect("Should work");
    assert_eq!(reader.idx(), 2);
    assert_eq!(reader.skips(), &HashSet::new());
}

/// Test basic `read_cmd_if` stuff.
#[test]
fn test_command_read_if() {
    let session = literal(&["SHORT_VALUE", "öüä@"]);
    // With Else branch
    let cmds = &[
        (3, If(text("SHORT_VALUE"), text("SHORT_VALUE"))),
        (6, Else),
        (11, EndIf),
    ];
    let mut reader = CommandReader::new(cmds, &session);
    reader.read_cmd_if().expect("Should work");
    assert_eq!(reader.idx(), 3);
    assert_eq!(reader.skips(), &vec![7, 8, 9, 10].drain(..).collect());

    // Without Else branch
    let cmds = &[(4, If(text("öüä@"), text("öüä@"))), (8, EndIf)];
    let mut reader = CommandReader::new(cmds, &session);
    reader.read_cmd_if().expect("Should work");
    assert_eq!(reader.idx(), 2);
    assert_eq!(reader.skips(), &HashSet::new());

    // With no lines in between
    let cmds = &[(5, If(text("öüä@"), text("öüä@"))), (6, EndIf)];
    let mut reader = CommandReader::new(cmds, &session);
    reader.read_cmd_if().expect("Should work");
    assert_eq!(reader.idx(), 2);
    assert_eq!(reader.skips(), &HashSet::new());
}

#[test]
fn test_command_read() {
    let session = literal(&["SHORT_VALUE", "SOME", "SOME1"]);
    let cmds = &[
        (1, IfDef(text("SHORT_VALUE"))),
        (4, Else),
        (6, EndIf),
        (8, If(text("SOME"), text("SOME1"))),
        (10, EndIf),
    ];
    let skips = CommandReader::read(cmds, &session).expect("Should work");
    assert_eq!(skips, vec![5, 9].drain(..).collect())
}

#[test]
fn ifdef_with_else_keeps_one_branch() {
    let cmds = [(1, IfDef(text("A"))), (5, Else), (10, EndIf)];
    let mut session = Session::new();
    session.resolve("A", "value");
    assert_eq!(CommandReader::read(&cmds, &session), Ok(lines(&[6, 7, 8, 9])));
    session.resolve("A", " \t\n");
    assert_eq!(CommandReader::read(&cmds, &session), Ok(lines(&[2, 3, 4])));
    session.resolve("A", "");
    assert_eq!(CommandReader::read(&cmds, &session), Ok(lines(&[2, 3, 4])));
}

#[test]
fn ifndef_without_else_keeps_or_drops_the_block() {
    let cmds = [(1, IfNDef(text("A"))), (7, EndIf)];
    let mut session = Session::new();
    session.resolve("A", "  ");
    assert_eq!(CommandReader::read(&cmds, &session), Ok(lines(&[])));
    session.resolve("A", "x");
    assert_eq!(CommandReader::read(&cmds, &session), Ok(lines(&[2, 3, 4, 5, 6])));
}

#[test]
fn ifndef_with_else_keeps_one_branch() {
    let cmds = [(0, IfNDef(text("A"))), (3, Else), (6, EndIf)];
    let mut session = Session::new();
    session.resolve("A", "");
    let mut reader = CommandReader::new(&cmds, &session);
    reader.read_cmd_ifndef().expect("well formed");
    assert_eq!(reader.idx(), 3);
    assert_eq!(reader.skips(), &lines(&[4, 5]));
    session.resolve("A", "set");
    assert_eq!(CommandReader::read(&cmds, &session), Ok(lines(&[1, 2])));
}

#[test]
fn if_compares_trimmed_expansions() {
    let cmds = [(3, If(text("X"), text("Y"))), (6, Else), (11, EndIf)];
    let mut session = Session::new();
    session.resolve("X", " same\n");
    session.resolve("Y", "\tsame");
    assert_eq!(CommandReader::read(&cmds, &session), Ok(lines(&[7, 8, 9, 10])));
    session.resolve("Y", "other");
    assert_eq!(CommandReader::read(&cmds, &session), Ok(lines(&[4, 5])));
}

#[test]
fn evaluate_var_and_expr_ask_the_session() {
    let mut session = Session::new();
    assert_eq!(evaluate_var("$A", &session), Err(Error::UnresolvedVariable(text("$A"))));
    session.resolve("$A", " a ");
    assert_eq!(evaluate_var("$A", &session), Ok(true));
    assert_eq!(
        evaluate_expr("$A", "$B", &session),
        Err(Error::UnresolvedVariable(text("$B")))
    );
    assert_eq!(
        evaluate_expr("$B", "$C", &session),
        Err(Error::UnresolvedVariable(text("$B")))
    );
    session.resolve("$B", "a");
    assert_eq!(evaluate_expr("$A", "$B", &session), Ok(true));
    session.resolve("$B", "\u{a0}");
    assert_eq!(evaluate_expr("$A", "$B", &session), Ok(false));
    assert_eq!(evaluate_var("$B", &session), Ok(false));
}

#[test]
fn an_unknown_expansion_is_asked_for_at_the_end_of_its_block() {
    let cmds = [
        (0, IfDef(text("OUTER"))),
        (1, IfDef(text("INNER"))),
        (2, EndIf),
        (3, EndIf),
    ];
    let mut session = Session::new();
    assert_eq!(
        CommandReader::read(&cmds, &session),
        Err(Error::UnresolvedVariable(text("INNER")))
    );
    session.resolve("INNER", "1");
    assert_eq!(
        CommandReader::read(&cmds, &session),
        Err(Error::UnresolvedVariable(text("OUTER")))
    );
    session.resolve("OUTER", "1");
    assert_eq!(CommandReader::read(&cmds, &session), Ok(lines(&[])));
}

#[test]
fn yes_no_question_keeps_or_drops_its_block() {
    let cmds = [(2, Ask(text("Keep it?"))), (6, EndAsk)];
    let mut session = Session::new();
    assert_eq!(
        CommandReader::read(&cmds, &session),
        Err(Error::UnansweredQuestion(text("Keep it?"), vec![]))
    );
    session.answer("Keep it?", &vec![], Answer::YesNo(false));
    assert_eq!(CommandReader::read(&cmds, &session), Ok(lines(&[3, 4, 5])));
    session.answer("Keep it?", &vec![], Answer::YesNo(true));
    assert_eq!(CommandReader::read(&cmds, &session), Ok(lines(&[])));
}

fn choice() -> Vec<(usize, Command)> {
    vec![
        (1, Ask(text("Which?"))),
        (3, Command::Option(text("a"))),
        (6, Command::Option(text("b"))),
        (9, Command::Option(text("c"))),
        (12, EndAsk),
    ]
}

fn labels() -> Vec<String> {
    vec![text("a"), text("b"), text("c")]
}

#[test]
fn multiple_choice_keeps_the_selected_body() {
    let cmds = choice();
    let mut session = Session::new();
    assert_eq!(
        CommandReader::read(&cmds, &session),
        Err(Error::UnansweredQuestion(text("Which?"), labels()))
    );
    session.answer("Which?", &labels(), Answer::Option(1));
    assert_eq!(
        CommandReader::read(&cmds, &session),
        Ok(lines(&[2, 4, 5, 10, 11]))
    );
    let mut reader = CommandReader::new(&cmds, &session);
    reader.read_cmd_ask().expect("well formed");
    assert_eq!(reader.idx(), 5);
    assert_eq!(reader.skips(), &lines(&[2, 4, 5, 10, 11]));
    assert_eq!(reader.ask_question("Which?", &labels()), Ok(Answer::Option(1)));

    session.answer("Which?", &labels(), Answer::Option(0));
    assert_eq!(
        CommandReader::read(&cmds, &session),
        Ok(lines(&[2, 7, 8, 10, 11]))
    );
    session.answer("Which?", &labels(), Answer::Option(2));
    assert_eq!(
        CommandReader::read(&cmds, &session),
        Ok(lines(&[2, 4, 5, 7, 8]))
    );
}

#[test]
fn an_answer_that_selects_no_option_drops_every_segment() {
    let cmds = choice();
    let mut session = Session::new();
    session.answer("Which?", &labels(), Answer::Option(3));
    assert_eq!(
        CommandReader::read(&cmds, &session),
        Ok(lines(&[2, 4, 5, 7, 8, 10, 11]))
    );
}

#[test]
fn a_question_is_asked_once() {
    let cmds = [
        (0, Ask(text("Again?"))),
        (2, EndAsk),
        (4, Ask(text("Again?"))),
        (7, EndAsk),
        (8, Ask(text("Again?"))),
        (9, Command::Option(text("sure"))),
        (11, EndAsk),
    ];
    let mut session = Session::new();
    assert_eq!(
        CommandReader::read(&cmds, &session),
        Err(Error::UnansweredQuestion(text("Again?"), vec![]))
    );
    session.answer("Again?", &vec![], Answer::YesNo(false));
    // Both blocks without options use the one answer; the block with an
    // option is another question.
    assert_eq!(
        CommandReader::read(&cmds, &session),
        Err(Error::UnansweredQuestion(text("Again?"), vec![text("sure")]))
    );
    session.answer("Again?", &vec![text("sure")], Answer::Option(0));
    assert_eq!(CommandReader::read(&cmds, &session), Ok(lines(&[1, 5, 6])));
}

#[test]
fn stray_directives_are_errors() {
    let session = literal(&["A"]);
    for stray in [Else, EndIf, Command::Option(text("x")), EndAsk] {
        let cmds = [(4, Comment), (7, stray.clone())];
        assert_eq!(
            CommandReader::read(&cmds, &session),
            Err(Error::StrayDirective(7, stray.clone()))
        );
        let mut reader = CommandReader::new(&cmds[1..], &session);
        assert_eq!(reader.read_cmd(), Err(Error::StrayDirective(7, stray)));
    }
    // An option or the end of a question inside a conditional.
    let cmds = [(1, IfDef(text("A"))), (2, EndAsk), (3, EndIf)];
    assert_eq!(
        CommandReader::read(&cmds, &session),
        Err(Error::StrayDirective(2, EndAsk))
    );
    let cmds = [(1, IfDef(text("A"))), (2, Command::Option(text("o"))), (3, EndIf)];
    assert_eq!(
        CommandReader::read(&cmds, &session),
        Err(Error::StrayDirective(2, Command::Option(text("o"))))
    );
    // An else or the end of a conditional inside a question.
    let cmds = [(1, Ask(text("q"))), (2, Else), (3, EndAsk)];
    assert_eq!(CommandReader::read(&cmds, &session), Err(Error::StrayDirective(2, Else)));
    let cmds = [(1, Ask(text("q"))), (2, EndIf), (3, EndAsk)];
    assert_eq!(CommandReader::read(&cmds, &session), Err(Error::StrayDirective(2, EndIf)));
    // A second else.
    let cmds = [(1, IfDef(text("A"))), (2, Else), (3, Else), (4, EndIf)];
    assert_eq!(CommandReader::read(&cmds, &session), Err(Error::StrayDirective(3, Else)));
}

#[test]
fn unclosed_blocks_are_errors() {
    let session = literal(&["A", "B"]);
    let cmds = [(2, IfDef(text("A"))), (3, Else)];
    assert_eq!(
        CommandReader::read(&cmds, &session),
        Err(Error::MissingClosingDirective(2, IfDef(text("A"))))
    );
    let cmds = [(5, Ask(text("q"))), (6, Command::Option(text("o"))), (8, Comment)];
    assert_eq!(
        CommandReader::read(&cmds, &session),
        Err(Error::MissingClosingDirective(5, Ask(text("q"))))
    );
    // The innermost open block is the one reported.
    let cmds = [(1, IfNDef(text("A"))), (2, If(text("A"), text("B")))];
    assert_eq!(
        CommandReader::read(&cmds, &session),
        Err(Error::MissingClosingDirective(2, If(text("A"), text("B"))))
    );
    let cmds = [(1, IfNDef(text("A"))), (2, If(text("A"), text("B"))), (3, EndIf)];
    assert_eq!(
        CommandReader::read(&cmds, &session),
        Err(Error::MissingClosingDirective(1, IfNDef(text("A"))))
    );
}

#[test]
fn nested_blocks_drop_their_lines_whatever_the_outer_block_does() {
    let cmds = [
        (0, IfDef(text("OUTER"))),
        (2, IfDef(text("INNER"))),
        (4, Else),
        (6, EndIf),
        (8, Else),
        (10, Ask(text("q"))),
        (12, EndAsk),
        (14, EndIf),
    ];
    let mut session = Session::new();
    session.resolve("INNER", "yes");
    session.answer("q", &vec![], Answer::YesNo(false));
    session.resolve("OUTER", "yes");
    assert_eq!(
        CommandReader::read(&cmds, &session),
        Ok(lines(&[5, 9, 10, 11, 12, 13]))
    );
    session.resolve("OUTER", "");
    assert_eq!(
        CommandReader::read(&cmds, &session),
        Ok(lines(&[1, 2, 3, 4, 5, 6, 7, 11]))
    );
    // Running it again changes nothing.
    assert_eq!(
        CommandReader::read(&cmds, &session),
        CommandReader::read(&cmds, &session)
    );
}

#[test]
fn comments_and_empty_input_drop_nothing() {
    let session = Session::new();
    assert_eq!(CommandReader::read(&[], &session), Ok(lines(&[])));
    let cmds = [(0, Comment), (1, Comment)];
    assert_eq!(CommandReader::read(&cmds, &session), Ok(lines(&[])));
    let mut reader = CommandReader::new(&cmds, &session);
    assert_eq!(reader.read_comment(), Ok(()));
    assert_eq!(reader.idx(), 1);
}
