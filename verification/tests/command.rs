use dotfile_preprocessor::command::cmd_ask;
use dotfile_preprocessor::command::cmd_comment;
use dotfile_preprocessor::command::cmd_else;
use dotfile_preprocessor::command::cmd_endask;
use dotfile_preprocessor::command::cmd_endif;
use dotfile_preprocessor::command::cmd_if;
use dotfile_preprocessor::command::cmd_ifdef;
use dotfile_preprocessor::command::cmd_ifndef;
use dotfile_preprocessor::command::cmd_option;
use dotfile_preprocessor::command::parse_command;
use dotfile_preprocessor::command::rest;
use dotfile_preprocessor::command::tag_from_prefix;
use dotfile_preprocessor::command::tag_no_case;
use dotfile_preprocessor::command::ws;
use dotfile_preprocessor::command::ws_plus;
use dotfile_preprocessor::command::ws_star;
use dotfile_preprocessor::command::Command;
use dotfile_preprocessor::error::Error;

fn text(s: &str) -> String {
    s.to_string()
}

#[test]
fn test_ws() {
    assert_eq!(ws("  ").unwrap(), (" ", " "));
    assert_eq!(ws("\t ").unwrap(), (" ", "\t"));
    assert!(ws("\n").is_err());
    assert!(ws("x").is_err());
}

#[test]
fn test_ws_plus() {
    assert_eq!(ws_plus(" ").unwrap(), ("", " "));
    assert_eq!(ws_plus(" \t  \tx ").unwrap(), ("x ", " "));
    assert!(ws_plus("").is_err());
}

#[test]
fn test_ws_star() {
    assert_eq!(ws_star(" ").unwrap(), ("", " "));
    assert_eq!(ws_star(" \t\t").unwrap(), ("", " "));
    assert_eq!(ws_star("").unwrap(), ("", " "));
}

#[test]
fn test_tag_from_prefix() {
    let res = tag_from_prefix("~~~", "~~~ xyz");
    assert_eq!(res.unwrap(), (" xyz", "~~~"));
    let res = tag_from_prefix("~~~", "~~ xyz");
    assert!(res.is_err());
}

#[test]
fn test_cmd_ifdef() {
    let res = cmd_ifdef("iFDef blub");
    assert_eq!(res.unwrap(), ("", Command::IfDef(text("blub"))));
    let res = cmd_ifdef("iFDef x");
    assert_eq!(res.unwrap(), ("", Command::IfDef(text("x"))));
    let res = cmd_ifdef("IFdef blub\nblub");
    assert_eq!(res.unwrap(), ("\nblub", Command::IfDef(text("blub"))));
    let res = cmd_ifdef("iFDefblub");
    assert!(res.is_err());
}

#[test]
fn test_cmd_ifndef() {
    let res = cmd_ifndef("iFnDef blubarb");
    assert_eq!(res.unwrap(), ("", Command::IfNDef(text("blubarb"))));
    let res = cmd_ifndef("iFnDef x");
    assert_eq!(res.unwrap(), ("", Command::IfNDef(text("x"))));
    let res = cmd_ifndef("IFndef blub\nblub");
    assert_eq!(res.unwrap(), ("\nblub", Command::IfNDef(text("blub"))));
    let res = cmd_ifndef("iFNDefblub");
    assert!(res.is_err());
}

#[test]
fn test_cmd_if() {
    let res = cmd_if("iF x\t== \ty");
    assert_eq!(res.unwrap(), ("", Command::If(text("x"), text("y"))));
    let res = cmd_if("iF x == \t");
    assert!(res.is_err());
}

#[test]
fn test_cmd_else() {
    assert_eq!(cmd_else("elSExyz").unwrap(), ("xyz", Command::Else));
    assert!(cmd_else("elSxyz").is_err());
}

#[test]
fn test_cmd_endif() {
    assert_eq!(cmd_endif("ENDifblab").unwrap(), ("blab", Command::EndIf));
    assert!(cmd_else("EDIF").is_err());
}

#[test]
fn test_cmd_ask() {
    assert_eq!(
        cmd_ask("asK\t\tblamber\nblab").unwrap(),
        ("\nblab", Command::Ask(text("blamber")))
    );
    assert!(cmd_ask("ASK\t").is_err());
}

#[test]
fn test_cmd_option() {
    assert_eq!(
        cmd_option("OPTIOn\t one option\nnewline").unwrap(),
        ("\nnewline", Command::Option(text("one option")))
    );
    assert!(cmd_option("OPTIONN").is_err());
}

#[test]
fn test_cmd_endask() {
    assert_eq!(cmd_endask("endASKabc").unwrap(), ("abc", Command::EndAsk));
    assert!(cmd_endask("endas").is_err());
}

#[test]
fn test_comment() {
    assert_eq!(
        cmd_comment("# some comment").unwrap(),
        (" some comment", Command::Comment)
    );
    assert!(cmd_comment("// not a comment").is_err());
}

#[test]
fn command_test_from_line() {
    let res = Command::parse_from_line("~~~", "~~ another line");
    assert!(res.is_none());

    let res = Command::parse_from_line("~~~", "~~~eLsE");
    assert_eq!(res.unwrap().unwrap(), Command::Else);

    let res = Command::parse_from_line(" ", " iF abc ==\txyz\t");
    assert_eq!(res.unwrap().unwrap(), Command::If(text("abc"), text("xyz")));
}

#[test]
fn keywords_match_in_any_case_and_after_any_blanks() {
    let expected = Command::IfDef(text("X"));
    for line in ["ifdef X", "IFDEF  X", "IfDef\tX", "#ifdef X", "# \t iFdEf \t X"] {
        let prefix = if line.starts_with('#') { "#" } else { "" };
        assert_eq!(Command::parse_from_line(prefix, line), Some(Ok(expected.clone())));
    }
}

#[test]
fn a_line_without_the_prefix_is_no_directive() {
    assert_eq!(Command::parse_from_line("#", "ifdef X"), None);
    assert_eq!(Command::parse_from_line("#", " #ifdef X"), None);
    assert_eq!(Command::parse_from_line("#!", "#"), None);
    assert_eq!(Command::parse_from_line("#", ""), None);
    assert_eq!(Command::parse_from_line("//", "/ /else"), None);
}

#[test]
fn a_prefixed_line_that_is_no_directive_is_an_error() {
    assert_eq!(
        Command::parse_from_line("#!", "#!  bogus line"),
        Some(Err(Error::UnrecognizedDirective(text("bogus line"))))
    );
    assert_eq!(
        Command::parse_from_line("#!", "#!"),
        Some(Err(Error::UnrecognizedDirective(text(""))))
    );
    assert_eq!(
        Command::parse_from_line("#!", "#!ifdef"),
        Some(Err(Error::UnrecognizedDirective(text("ifdef"))))
    );
    assert_eq!(
        Command::parse_from_line("#!", "#!if a = b"),
        Some(Err(Error::UnrecognizedDirective(text("if a = b"))))
    );
    assert_eq!(
        Command::parse_from_line("#!", "#!ask"),
        Some(Err(Error::UnrecognizedDirective(text("ask"))))
    );
}

#[test]
fn each_directive_is_recognised() {
    let parse = |line: &str| Command::parse_from_line("~", line).unwrap().unwrap();
    assert_eq!(parse("~ifdef $HOME"), Command::IfDef(text("$HOME")));
    assert_eq!(parse("~ifndef ${HOME} "), Command::IfNDef(text("${HOME} ")));
    assert_eq!(parse("~if $A == b c"), Command::If(text("$A"), text("b c")));
    assert_eq!(parse("~else"), Command::Else);
    assert_eq!(parse("~endif"), Command::EndIf);
    assert_eq!(parse("~ask Install it?"), Command::Ask(text("Install it?")));
    assert_eq!(parse("~option the first"), Command::Option(text("the first")));
    assert_eq!(parse("~endask"), Command::EndAsk);
    assert_eq!(parse("~# anything"), Command::Comment);
}

#[test]
fn longer_keywords_win_over_if() {
    assert_eq!(
        parse_command("IFDEF a == b").unwrap(),
        ("", Command::IfDef(text("a == b")))
    );
    assert_eq!(
        parse_command("IFNDEF a == b").unwrap(),
        ("", Command::IfNDef(text("a == b")))
    );
    assert_eq!(
        parse_command("IF a == b").unwrap(),
        ("", Command::If(text("a"), text("b")))
    );
}

#[test]
fn comparison_splits_at_the_first_equals() {
    assert_eq!(
        cmd_if("if a === b == c").unwrap(),
        ("", Command::If(text("a"), text("= b == c")))
    );
    assert_eq!(cmd_if("if == b").unwrap(), ("", Command::If(text(""), text("b"))));
    assert!(cmd_if("if a ==").is_err());
    assert!(cmd_if("if a = = b").is_err());
    assert!(cmd_if("if a\n== b").is_err());
}

#[test]
fn rest_stops_at_a_line_break() {
    assert_eq!(rest("one\r\ntwo").unwrap(), ("\r\ntwo", "one"));
    assert_eq!(rest("one").unwrap(), ("", "one"));
    assert!(rest("\none").is_err());
    assert!(rest("").is_err());
}

#[test]
fn tag_no_case_matches_ascii_letters_only() {
    assert_eq!(tag_no_case("ASK", "aSk me").unwrap(), (" me", "aSk"));
    assert!(tag_no_case("ASK", "as").is_err());
    assert!(tag_no_case("ASK", "AS\u{212a} me").is_err());
    assert!(tag_no_case("#", "C").is_err());
}
