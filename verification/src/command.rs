//! The directive grammar: recognising a directive in one line of text.

use vstd::prelude::*;
use vstd::string::StrSliceExecFns;
use vstd::string::StringExecFns;
use crate::error::Error;
use crate::error::Failure;
use crate::text::CharClass;
use crate::text::run_len;
use crate::text::run_end;
use crate::text::to_chars;
use crate::text::trim;
use crate::text::trimmed;

verus! {

/// All possible preprocessor commands.
#[derive(Debug, PartialEq, Eq, Hash)]
pub enum Command {
    /// Keeps its first branch if the variable expression expands non-blank.
    IfDef(String),
    /// Keeps its first branch if the variable expression expands blank.
    IfNDef(String),
    /// Keeps its first branch if both expressions expand to the same text.
    If(String, String),
    /// Separates the two branches of a conditional.
    Else,
    /// Closes a conditional.
    EndIf,
    /// Opens a question, with its text.
    Ask(String),
    /// One choice of a question, with its label.
    Option(String),
    /// Closes a question.
    EndAsk,
    /// A directive line without effect.
    Comment,
}

/// A `Command` as a mathematical value.
pub enum Directive {
    IfDef(Seq<char>),
    IfNDef(Seq<char>),
    If(Seq<char>, Seq<char>),
    Else,
    EndIf,
    Ask(Seq<char>),
    Option(Seq<char>),
    EndAsk,
    Comment,
}

impl View for Command {
    type V = Directive;

    open spec fn view(&self) -> Directive {
        match self {
            Command::IfDef(var) => Directive::IfDef(var@),
            Command::IfNDef(var) => Directive::IfNDef(var@),
            Command::If(left, right) => Directive::If(left@, right@),
            Command::Else => Directive::Else,
            Command::EndIf => Directive::EndIf,
            Command::Ask(question) => Directive::Ask(question@),
            Command::Option(label) => Directive::Option(label@),
            Command::EndAsk => Directive::EndAsk,
            Command::Comment => Directive::Comment,
        }
    }
}

impl Clone for Command {
    fn clone(&self) -> (copy: Self)
        ensures
            copy@ == self@,
    {
        match self {
            Command::IfDef(var) => Command::IfDef(var.clone()),
            Command::IfNDef(var) => Command::IfNDef(var.clone()),
            Command::If(left, right) => Command::If(left.clone(), right.clone()),
            Command::Else => Command::Else,
            Command::EndIf => Command::EndIf,
            Command::Ask(question) => Command::Ask(question.clone()),
            Command::Option(label) => Command::Option(label.clone()),
            Command::EndAsk => Command::EndAsk,
            Command::Comment => Command::Comment,
        }
    }
}

/// The input does not begin with what a grammar rule asks for.
#[derive(Debug, Clone, Copy, PartialEq, Eq)]
pub struct Mismatch;

/// `c`, in upper case if it is an ASCII lower-case letter.
pub open spec fn upper(c: char) -> char {
    if 'a' <= c <= 'z' {
        ((c as int) - 32) as char
    } else {
        c
    }
}

/// Whether `s` begins with `keyword`, letters compared without regard to
/// ASCII case.
pub open spec fn starts_with_keyword(s: Seq<char>, keyword: Seq<char>) -> bool {
    &&& keyword.len() <= s.len()
    &&& forall|i: int| 0 <= i < keyword.len() ==> upper(#[trigger] s[i]) == upper(keyword[i])
}

/// A single blank: what is left after it.
pub open spec fn spec_ws(s: Seq<char>) -> Option<Seq<char>> {
    if s.len() > 0 && CharClass::Blank.holds(s[0]) {
        Some(s.skip(1))
    } else {
        None
    }
}

/// Any number of blanks: what is left after them.
pub open spec fn spec_ws_star(s: Seq<char>) -> Seq<char> {
    s.skip(run_len(s, CharClass::Blank) as int)
}

/// One or more blanks: what is left after them.
pub open spec fn spec_ws_plus(s: Seq<char>) -> Option<Seq<char>> {
    if run_len(s, CharClass::Blank) >= 1 {
        Some(spec_ws_star(s))
    } else {
        None
    }
}

/// The prefix, exactly: what is left after it.
pub open spec fn spec_tag(prefix: Seq<char>, s: Seq<char>) -> Option<Seq<char>> {
    if prefix.is_prefix_of(s) {
        Some(s.skip(prefix.len() as int))
    } else {
        None
    }
}

/// A keyword in any case: what is left after it.
pub open spec fn spec_tag_no_case(keyword: Seq<char>, s: Seq<char>) -> Option<Seq<char>> {
    if starts_with_keyword(s, keyword) {
        Some(s.skip(keyword.len() as int))
    } else {
        None
    }
}

/// The rest of the current line, which must not be empty: what follows the
/// line, and the line.
pub open spec fn spec_rest(s: Seq<char>) -> Option<(Seq<char>, Seq<char>)> {
    let n = run_len(s, CharClass::Inline) as int;
    if n >= 1 {
        Some((s.skip(n), s.take(n)))
    } else {
        None
    }
}

/// A keyword, one or more blanks and the rest of the line: what follows the
/// line, and the rest of the line as the argument.
pub open spec fn spec_keyword_arg(keyword: Seq<char>, s: Seq<char>) -> Option<
    (Seq<char>, Seq<char>),
> {
    match spec_tag_no_case(keyword, s) {
        Some(after_keyword) => match spec_ws_plus(after_keyword) {
            Some(after_blanks) => spec_rest(after_blanks),
            None => None,
        },
        None => None,
    }
}

/// The position of the first `==` in `s` at or after `from`.
pub open spec fn first_equals(s: Seq<char>, from: int) -> Option<int>
    decreases s.len() - from,
{
    if from < 0 || from + 1 >= s.len() {
        None
    } else if s[from] == '=' && s[from + 1] == '=' {
        Some(from)
    } else {
        first_equals(s, from + 1)
    }
}

/// The two sides of a comparison `left == right` that fills a line: both
/// trimmed; the right side must hold a character after the blanks that follow
/// `==`.
pub open spec fn spec_comparison(line: Seq<char>) -> Option<(Seq<char>, Seq<char>)> {
    match first_equals(line, 0) {
        Some(at) => {
            let right = spec_ws_star(line.skip(at + 2));
            if right.len() > 0 {
                Some((trimmed(line.take(at)), trimmed(right)))
            } else {
                None
            }
        },
        None => None,
    }
}

/// `IFDEF`, blanks and a variable expression: what follows the line, and
/// the directive.
pub open spec fn spec_cmd_ifdef(s: Seq<char>) -> Option<(Seq<char>, Directive)> {
    match spec_keyword_arg("IFDEF"@, s) {
        Some((rest, var)) => Some((rest, Directive::IfDef(var))),
        None => None,
    }
}

/// `IFNDEF`, blanks and a variable expression: what follows the line, and
/// the directive.
pub open spec fn spec_cmd_ifndef(s: Seq<char>) -> Option<(Seq<char>, Directive)> {
    match spec_keyword_arg("IFNDEF"@, s) {
        Some((rest, var)) => Some((rest, Directive::IfNDef(var))),
        None => None,
    }
}

/// `IF`, blanks and a comparison: what follows the line, and the directive.
pub open spec fn spec_cmd_if(s: Seq<char>) -> Option<(Seq<char>, Directive)> {
    match spec_keyword_arg("IF"@, s) {
        Some((rest, line)) => match spec_comparison(line) {
            Some((left, right)) => Some((rest, Directive::If(left, right))),
            None => None,
        },
        None => None,
    }
}

/// `ELSE`: what follows the keyword, and the directive.
pub open spec fn spec_cmd_else(s: Seq<char>) -> Option<(Seq<char>, Directive)> {
    match spec_tag_no_case("ELSE"@, s) {
        Some(rest) => Some((rest, Directive::Else)),
        None => None,
    }
}

/// `ENDIF`: what follows the keyword, and the directive.
pub open spec fn spec_cmd_endif(s: Seq<char>) -> Option<(Seq<char>, Directive)> {
    match spec_tag_no_case("ENDIF"@, s) {
        Some(rest) => Some((rest, Directive::EndIf)),
        None => None,
    }
}

/// `ASK`, blanks and a question: what follows the line, and the directive.
pub open spec fn spec_cmd_ask(s: Seq<char>) -> Option<(Seq<char>, Directive)> {
    match spec_keyword_arg("ASK"@, s) {
        Some((rest, question)) => Some((rest, Directive::Ask(question))),
        None => None,
    }
}

/// `OPTION`, blanks and a label: what follows the line, and the directive.
pub open spec fn spec_cmd_option(s: Seq<char>) -> Option<(Seq<char>, Directive)> {
    match spec_keyword_arg("OPTION"@, s) {
        Some((rest, label)) => Some((rest, Directive::Option(label))),
        None => None,
    }
}

/// `ENDASK`: what follows the keyword, and the directive.
pub open spec fn spec_cmd_endask(s: Seq<char>) -> Option<(Seq<char>, Directive)> {
    match spec_tag_no_case("ENDASK"@, s) {
        Some(rest) => Some((rest, Directive::EndAsk)),
        None => None,
    }
}

/// `#`: what follows it, and the directive.
pub open spec fn spec_cmd_comment(s: Seq<char>) -> Option<(Seq<char>, Directive)> {
    match spec_tag_no_case("#"@, s) {
        Some(rest) => Some((rest, Directive::Comment)),
        None => None,
    }
}

/// The first of two alternatives that matches.
pub open spec fn or_else(
    first: Option<(Seq<char>, Directive)>,
    second: Option<(Seq<char>, Directive)>,
) -> Option<(Seq<char>, Directive)> {
    if first is Some {
        first
    } else {
        second
    }
}

/// The directive that `s` begins with and what follows it. The rules are
/// tried in this order, so that `IF` does not take what `IFDEF` or `IFNDEF`
/// should.
pub open spec fn spec_parse_command(s: Seq<char>) -> Option<(Seq<char>, Directive)> {
    or_else(
        spec_cmd_ifdef(s),
        or_else(
            spec_cmd_ifndef(s),
            or_else(
                spec_cmd_if(s),
                or_else(
                    spec_cmd_else(s),
                    or_else(
                        spec_cmd_endif(s),
                        or_else(
                            spec_cmd_ask(s),
                            or_else(
                                spec_cmd_option(s),
                                or_else(spec_cmd_endask(s), spec_cmd_comment(s)),
                            ),
                        ),
                    ),
                ),
            ),
        ),
    )
}

/// What a line is: no directive line (`None`), a directive, or a directive
/// line that no rule of the grammar matches, with the text after the prefix
/// and the blanks that follow it.
pub open spec fn spec_parse_from_line(prefix: Seq<char>, input: Seq<char>) -> Option<
    Result<Directive, Failure>,
> {
    match spec_tag(prefix, input) {
        Some(after_prefix) => {
            let text = spec_ws_star(after_prefix);
            match spec_parse_command(text) {
                Some((_, directive)) => Some(Ok(directive)),
                None => Some(Err(Failure::UnrecognizedDirective(text))),
            }
        },
        None => None,
    }
}

/// Whether an outcome of a rule without a value is the one that the grammar
/// gives: the text left over, and the text that was matched.
pub open spec fn matched_as(
    outcome: Result<(&str, &str), Mismatch>,
    expected: Option<(Seq<char>, Seq<char>)>,
) -> bool {
    match expected {
        Some((rest, matched)) => outcome matches Ok((r, m)) && r@ == rest && m@ == matched,
        None => outcome is Err,
    }
}

/// Whether an outcome of a directive rule is the one that the grammar gives.
pub open spec fn parsed_as(
    outcome: Result<(&str, Command), Mismatch>,
    expected: Option<(Seq<char>, Directive)>,
) -> bool {
    match expected {
        Some((rest, directive)) => outcome matches Ok((r, cmd)) && r@ == rest && cmd@
            == directive,
        None => outcome is Err,
    }
}

/// `c`, in upper case if it is an ASCII lower-case letter.
pub fn to_upper(c: char) -> (u: char)
    ensures
        u == upper(c),
{
    if 'a' <= c && c <= 'z' {
        ((c as u8) - 32) as char
    } else {
        c
    }
}

/// Whether `chars` begins with `keyword`, letters compared without regard to
/// ASCII case.
fn begins_with_keyword(chars: &Vec<char>, keyword: &Vec<char>) -> (b: bool)
    ensures
        b == starts_with_keyword(chars@, keyword@),
{
    if keyword.len() > chars.len() {
        return false;
    }
    let mut i: usize = 0;
    while i < keyword.len()
        invariant
            i <= keyword.len() <= chars.len(),
            forall|j: int| 0 <= j < i ==> upper(#[trigger] chars@[j]) == upper(keyword@[j]),
        decreases keyword.len() - i,
    {
        if to_upper(chars[i]) != to_upper(keyword[i]) {
            return false;
        }
        i += 1;
    }
    true
}

/// Whether `chars` begins with `prefix`.
fn begins_with(chars: &Vec<char>, prefix: &Vec<char>) -> (b: bool)
    ensures
        b == prefix@.is_prefix_of(chars@),
{
    if prefix.len() > chars.len() {
        return false;
    }
    let mut i: usize = 0;
    while i < prefix.len()
        invariant
            i <= prefix.len() <= chars.len(),
            forall|j: int| 0 <= j < i ==> chars@[j] == prefix@[j],
        decreases prefix.len() - i,
    {
        if chars[i] != prefix[i] {
            assert(chars@.subrange(0, prefix@.len() as int)[i as int] != prefix@[i as int]);
            return false;
        }
        i += 1;
    }
    assert(chars@.subrange(0, prefix@.len() as int) =~= prefix@);
    true
}

/// Matches one space or tab.
pub fn ws(input: &str) -> (outcome: Result<(&str, &str), Mismatch>)
    ensures
        matched_as(
            outcome,
            match spec_ws(input@) {
                Some(rest) => Some((rest, input@.take(1))),
                None => None,
            },
        ),
{
    let chars = to_chars(input);
    if chars.len() > 0 && CharClass::Blank.contains(chars[0]) {
        Ok((input.substring_char(1, chars.len()), input.substring_char(0, 1)))
    } else {
        Err(Mismatch)
    }
}

/// Matches as many spaces and tabs as there are, and at least one. The value
/// is a single space, however many were matched.
pub fn ws_plus(input: &str) -> (outcome: Result<(&str, &str), Mismatch>)
    ensures
        matched_as(
            outcome,
            match spec_ws_plus(input@) {
                Some(rest) => Some((rest, seq![' '])),
                None => None,
            },
        ),
{
    let chars = to_chars(input);
    let end = run_end(&chars, 0, CharClass::Blank);
    if end >= 1 {
        proof {
            reveal_strlit(" ");
            assert(chars@.skip(0) == chars@);
            assert(" "@ == seq![' ']);
        }
        Ok((input.substring_char(end, chars.len()), " "))
    } else {
        proof {
            assert(chars@.skip(0) == chars@);
        }
        Err(Mismatch)
    }
}

/// Matches as many spaces and tabs as there are, none included. The value is
/// a single space, however many were matched.
pub fn ws_star(input: &str) -> (outcome: Result<(&str, &str), Mismatch>)
    ensures
        matched_as(outcome, Some((spec_ws_star(input@), seq![' ']))),
{
    let chars = to_chars(input);
    let end = run_end(&chars, 0, CharClass::Blank);
    proof {
        reveal_strlit(" ");
        assert(chars@.skip(0) == chars@);
        assert(" "@ == seq![' ']);
    }
    Ok((input.substring_char(end, chars.len()), " "))
}

/// Matches `prefix`, letter for letter.
pub fn tag_from_prefix<'a>(prefix: &'a str, input: &'a str) -> (outcome: Result<
    (&'a str, &'a str),
    Mismatch,
>)
    ensures
        matched_as(
            outcome,
            match spec_tag(prefix@, input@) {
                Some(rest) => Some((rest, prefix@)),
                None => None,
            },
        ),
{
    let chars = to_chars(input);
    let wanted = to_chars(prefix);
    if begins_with(&chars, &wanted) {
        Ok((input.substring_char(wanted.len(), chars.len()), prefix))
    } else {
        Err(Mismatch)
    }
}

/// Matches `keyword`, its letters in any case.
pub fn tag_no_case<'a>(keyword: &str, input: &'a str) -> (outcome: Result<
    (&'a str, &'a str),
    Mismatch,
>)
    ensures
        matched_as(
            outcome,
            match spec_tag_no_case(keyword@, input@) {
                Some(rest) => Some((rest, input@.take(keyword@.len() as int))),
                None => None,
            },
        ),
{
    let chars = to_chars(input);
    let wanted = to_chars(keyword);
    if begins_with_keyword(&chars, &wanted) {
        Ok(
            (
                input.substring_char(wanted.len(), chars.len()),
                input.substring_char(0, wanted.len()),
            ),
        )
    } else {
        Err(Mismatch)
    }
}

/// Matches the rest of the current line, up to a carriage return, a line
/// feed or the end of the input. The line must not be empty.
pub fn rest(input: &str) -> (outcome: Result<(&str, &str), Mismatch>)
    ensures
        matched_as(outcome, spec_rest(input@)),
{
    let chars = to_chars(input);
    let end = run_end(&chars, 0, CharClass::Inline);
    proof {
        assert(chars@.skip(0) == chars@);
    }
    if end >= 1 {
        Ok((input.substring_char(end, chars.len()), input.substring_char(0, end)))
    } else {
        Err(Mismatch)
    }
}

/// Matches `keyword` in any case, one or more blanks, and the rest of the
/// line, which is the value.
fn keyword_arg<'a>(keyword: &str, input: &'a str) -> (outcome: Result<
    (&'a str, &'a str),
    Mismatch,
>)
    ensures
        matched_as(outcome, spec_keyword_arg(keyword@, input@)),
{
    match tag_no_case(keyword, input) {
        Ok((after_keyword, _)) => match ws_plus(after_keyword) {
            Ok((after_blanks, _)) => rest(after_blanks),
            Err(e) => Err(e),
        },
        Err(e) => Err(e),
    }
}

/// The position of the first `==` in `chars`.
fn find_equals(chars: &Vec<char>) -> (at: Option<usize>)
    ensures
        match first_equals(chars@, 0) {
            Some(i) => at == Some(i as usize) && 0 <= i && i + 2 <= chars.len(),
            None => at is None,
        },
{
    if chars.len() < 2 {
        return None;
    }
    let mut i: usize = 0;
    while i < chars.len() - 1
        invariant
            2 <= chars.len(),
            i <= chars.len() - 1,
            first_equals(chars@, 0) == first_equals(chars@, i as int),
        decreases chars.len() - i,
    {
        if chars[i] == '=' && chars[i + 1] == '=' {
            return Some(i);
        }
        i += 1;
    }
    None
}

/// Splits a line `left == right` at its first `==` and trims both sides.
fn comparison(line: &str) -> (sides: Option<(&str, &str)>)
    ensures
        match spec_comparison(line@) {
            Some((left, right)) => sides matches Some((l, r)) && l@ == left && r@ == right,
            None => sides is None,
        },
{
    let chars = to_chars(line);
    match find_equals(&chars) {
        Some(at) => {
            let start = run_end(&chars, at + 2, CharClass::Blank);
            if start < chars.len() {
                let left = line.substring_char(0, at);
                let right = line.substring_char(start, chars.len());
                proof {
                    assert(chars@.skip(at + 2).skip(start - (at + 2)) == chars@.skip(
                        start as int,
                    ));
                }
                Some((trim(left), trim(right)))
            } else {
                proof {
                    assert(chars@.skip(at + 2).skip(start - (at + 2)) == chars@.skip(
                        start as int,
                    ));
                }
                None
            }
        },
        None => None,
    }
}

/// `IFDEF`, blanks, and a variable expression up to the end of the line.
pub fn cmd_ifdef(input: &str) -> (outcome: Result<(&str, Command), Mismatch>)
    ensures
        parsed_as(outcome, spec_cmd_ifdef(input@)),
{
    match keyword_arg("IFDEF", input) {
        Ok((rest, var)) => Ok((rest, Command::IfDef(String::from_str(var)))),
        Err(e) => Err(e),
    }
}

/// `IFNDEF`, blanks, and a variable expression up to the end of the line.
pub fn cmd_ifndef(input: &str) -> (outcome: Result<(&str, Command), Mismatch>)
    ensures
        parsed_as(outcome, spec_cmd_ifndef(input@)),
{
    match keyword_arg("IFNDEF", input) {
        Ok((rest, var)) => Ok((rest, Command::IfNDef(String::from_str(var)))),
        Err(e) => Err(e),
    }
}

/// `IF`, blanks, and a comparison `left == right` up to the end of the line.
pub fn cmd_if(input: &str) -> (outcome: Result<(&str, Command), Mismatch>)
    ensures
        parsed_as(outcome, spec_cmd_if(input@)),
{
    match keyword_arg("IF", input) {
        Ok((rest, line)) => match comparison(line) {
            Some((left, right)) => Ok(
                (rest, Command::If(String::from_str(left), String::from_str(right))),
            ),
            None => Err(Mismatch),
        },
        Err(e) => Err(e),
    }
}

/// `ELSE`.
pub fn cmd_else(input: &str) -> (outcome: Result<(&str, Command), Mismatch>)
    ensures
        parsed_as(outcome, spec_cmd_else(input@)),
{
    match tag_no_case("ELSE", input) {
        Ok((rest, _)) => Ok((rest, Command::Else)),
        Err(e) => Err(e),
    }
}

/// `ENDIF`.
pub fn cmd_endif(input: &str) -> (outcome: Result<(&str, Command), Mismatch>)
    ensures
        parsed_as(outcome, spec_cmd_endif(input@)),
{
    match tag_no_case("ENDIF", input) {
        Ok((rest, _)) => Ok((rest, Command::EndIf)),
        Err(e) => Err(e),
    }
}

/// `ASK`, blanks, and the question up to the end of the line.
pub fn cmd_ask(input: &str) -> (outcome: Result<(&str, Command), Mismatch>)
    ensures
        parsed_as(outcome, spec_cmd_ask(input@)),
{
    match keyword_arg("ASK", input) {
        Ok((rest, question)) => Ok((rest, Command::Ask(String::from_str(question)))),
        Err(e) => Err(e),
    }
}

/// `OPTION`, blanks, and the label up to the end of the line.
pub fn cmd_option(input: &str) -> (outcome: Result<(&str, Command), Mismatch>)
    ensures
        parsed_as(outcome, spec_cmd_option(input@)),
{
    match keyword_arg("OPTION", input) {
        Ok((rest, label)) => Ok((rest, Command::Option(String::from_str(label)))),
        Err(e) => Err(e),
    }
}

/// `ENDASK`.
pub fn cmd_endask(input: &str) -> (outcome: Result<(&str, Command), Mismatch>)
    ensures
        parsed_as(outcome, spec_cmd_endask(input@)),
{
    match tag_no_case("ENDASK", input) {
        Ok((rest, _)) => Ok((rest, Command::EndAsk)),
        Err(e) => Err(e),
    }
}

/// `#`.
pub fn cmd_comment(input: &str) -> (outcome: Result<(&str, Command), Mismatch>)
    ensures
        parsed_as(outcome, spec_cmd_comment(input@)),
{
    match tag_no_case("#", input) {
        Ok((rest, _)) => Ok((rest, Command::Comment)),
        Err(e) => Err(e),
    }
}

/// Matches the directive that `input` begins with: the first rule that
/// applies, in the order of the grammar.
pub fn parse_command(input: &str) -> (outcome: Result<(&str, Command), Mismatch>)
    ensures
        parsed_as(outcome, spec_parse_command(input@)),
{
    let outcome = cmd_ifdef(input);
    if outcome.is_ok() {
        return outcome;
    }
    let outcome = cmd_ifndef(input);
    if outcome.is_ok() {
        return outcome;
    }
    let outcome = cmd_if(input);
    if outcome.is_ok() {
        return outcome;
    }
    let outcome = cmd_else(input);
    if outcome.is_ok() {
        return outcome;
    }
    let outcome = cmd_endif(input);
    if outcome.is_ok() {
        return outcome;
    }
    let outcome = cmd_ask(input);
    if outcome.is_ok() {
        return outcome;
    }
    let outcome = cmd_option(input);
    if outcome.is_ok() {
        return outcome;
    }
    let outcome = cmd_endask(input);
    if outcome.is_ok() {
        return outcome;
    }
    cmd_comment(input)
}

impl Command {
    /// Parse a command from the given line.
    ///
    /// Returns `None` if the input does not start with `prefix`, the command
    /// if what follows the prefix is one, and an error with the text after
    /// the prefix if it is none.
    pub fn parse_from_line(prefix: &str, input: &str) -> (outcome: Option<Result<Command, Error>>)
        ensures
            outcome is None <==> !prefix@.is_prefix_of(input@),
            match spec_parse_from_line(prefix@, input@) {
                Some(Ok(directive)) => outcome matches Some(Ok(cmd)) && cmd@ == directive,
                Some(Err(failure)) => outcome matches Some(Err(e)) && e@ == failure,
                None => outcome is None,
            },
    {
        match tag_from_prefix(prefix, input) {
            Ok((after_prefix, _)) => match ws_star(after_prefix) {
                Ok((text, _)) => match parse_command(text) {
                    Ok((_, cmd)) => Some(Ok(cmd)),
                    Err(_) => Some(Err(Error::UnrecognizedDirective(String::from_str(text)))),
                },
                Err(_) => None,
            },
            Err(_) => None,
        }
    }
}

/// Whether `s` and `t` are the same text but for the ASCII case of letters
/// among their first `n` characters.
pub open spec fn same_but_for_case(s: Seq<char>, t: Seq<char>, n: int) -> bool {
    &&& s.len() == t.len()
    &&& forall|i: int| 0 <= i < s.len() && i < n ==> upper(#[trigger] s[i]) == upper(t[i])
    &&& forall|i: int| 0 <= i < s.len() && n <= i ==> #[trigger] s[i] == t[i]
}

/// Whether every character of `s` is a space or a tab.
pub open spec fn all_blank(s: Seq<char>) -> bool {
    forall|i: int| 0 <= i < s.len() ==> CharClass::Blank.holds(#[trigger] s[i])
}

/// The case of the letters of a keyword does not matter: two texts that
/// differ only in the case of letters within the keyword give the same
/// result, for a rule that is a keyword alone and for a rule that is a
/// keyword with an argument.
pub proof fn lemma_keyword_case_is_ignored(keyword: Seq<char>, s: Seq<char>, t: Seq<char>)
    requires
        same_but_for_case(s, t, keyword.len() as int),
    ensures
        spec_tag_no_case(keyword, s) == spec_tag_no_case(keyword, t),
        spec_keyword_arg(keyword, s) == spec_keyword_arg(keyword, t),
{
    if keyword.len() <= s.len() {
        assert(s.skip(keyword.len() as int) =~= t.skip(keyword.len() as int));
        if starts_with_keyword(s, keyword) {
            assert forall|i: int| 0 <= i < keyword.len() implies upper(#[trigger] t[i]) == upper(
                keyword[i],
            ) by {
                assert(upper(s[i]) == upper(t[i]));
            }
        }
        if starts_with_keyword(t, keyword) {
            assert forall|i: int| 0 <= i < keyword.len() implies upper(#[trigger] s[i]) == upper(
                keyword[i],
            ) by {
                assert(upper(s[i]) == upper(t[i]));
            }
        }
    }
}

/// A run of class characters before a text that does not begin with one is
/// the run of the whole.
pub proof fn lemma_run_len_of_concat(run: Seq<char>, tail: Seq<char>, class: CharClass)
    requires
        forall|i: int| 0 <= i < run.len() ==> class.holds(#[trigger] run[i]),
        tail.len() > 0 ==> !class.holds(tail[0]),
    ensures
        run_len(run + tail, class) == run.len(),
        (run + tail).skip(run.len() as int) == tail,
{
    let whole = run + tail;
    assert forall|i: int| 0 <= i < run.len() implies class.holds(#[trigger] whole[i]) by {
        assert(whole[i] == run[i]);
    }
    if run.len() < whole.len() {
        assert(whole[run.len() as int] == tail[0]);
    }
    crate::text::lemma_run_len_unique(whole, class, run.len() as int);
    assert(whole.skip(run.len() as int) =~= tail);
}

/// How many blanks stand between a keyword and its argument does not
/// matter, as long as there is one.
pub proof fn lemma_blanks_before_argument(
    keyword: Seq<char>,
    head: Seq<char>,
    blanks: Seq<char>,
    other_blanks: Seq<char>,
    argument: Seq<char>,
)
    requires
        head.len() == keyword.len(),
        blanks.len() > 0,
        other_blanks.len() > 0,
        all_blank(blanks),
        all_blank(other_blanks),
        argument.len() > 0 ==> !CharClass::Blank.holds(argument[0]),
    ensures
        spec_keyword_arg(keyword, head + blanks + argument) == spec_keyword_arg(
            keyword,
            head + other_blanks + argument,
        ),
{
    let s = head + blanks + argument;
    let t = head + other_blanks + argument;
    assert(s.skip(head.len() as int) =~= blanks + argument);
    assert(t.skip(head.len() as int) =~= other_blanks + argument);
    lemma_run_len_of_concat(blanks, argument, CharClass::Blank);
    lemma_run_len_of_concat(other_blanks, argument, CharClass::Blank);
    assert forall|i: int| 0 <= i < keyword.len() implies s[i] == t[i] by {
        assert(s[i] == head[i]);
        assert(t[i] == head[i]);
    }
    assert(starts_with_keyword(s, keyword) == starts_with_keyword(t, keyword));
}

/// The blanks between the prefix and the directive do not matter.
pub proof fn lemma_blanks_after_prefix(prefix: Seq<char>, blanks: Seq<char>, text: Seq<char>)
    requires
        all_blank(blanks),
    ensures
        spec_parse_from_line(prefix, prefix + blanks + text) == spec_parse_from_line(
            prefix,
            prefix + text,
        ),
{
    let s = prefix + blanks + text;
    let t = prefix + text;
    assert(s.subrange(0, prefix.len() as int) =~= prefix);
    assert(t.subrange(0, prefix.len() as int) =~= prefix);
    assert(s.skip(prefix.len() as int) =~= blanks + text);
    assert(t.skip(prefix.len() as int) =~= text);
    let inner = text.skip(run_len(text, CharClass::Blank) as int);
    let run = text.take(run_len(text, CharClass::Blank) as int);
    crate::text::lemma_run_len_is_maximal(text, CharClass::Blank);
    assert(text =~= run + inner);
    assert(blanks + text =~= (blanks + run) + inner);
    lemma_run_len_of_concat(blanks + run, inner, CharClass::Blank);
}

/// The keyword of the rule that gives a directive.
pub open spec fn keyword_of(directive: Directive) -> Seq<char> {
    match directive {
        Directive::IfDef(_) => "IFDEF"@,
        Directive::IfNDef(_) => "IFNDEF"@,
        Directive::If(_, _) => "IF"@,
        Directive::Else => "ELSE"@,
        Directive::EndIf => "ENDIF"@,
        Directive::Ask(_) => "ASK"@,
        Directive::Option(_) => "OPTION"@,
        Directive::EndAsk => "ENDASK"@,
        Directive::Comment => "#"@,
    }
}

/// Characters that are the same but for their case are blanks, line breaks
/// or equals signs together.
proof fn lemma_case_keeps_class(a: char, b: char)
    requires
        upper(a) == upper(b),
    ensures
        CharClass::Blank.holds(a) == CharClass::Blank.holds(b),
        CharClass::Inline.holds(a) == CharClass::Inline.holds(b),
        (a == '=') == (b == '='),
{
}

/// Texts that are the same but for case have the same runs of blanks and
/// the same first line.
proof fn lemma_case_keeps_runs(s: Seq<char>, t: Seq<char>, class: CharClass)
    requires
        same_but_for_case(s, t, s.len() as int),
        class is Blank || class is Inline,
    ensures
        run_len(s, class) == run_len(t, class),
{
    crate::text::lemma_run_len_is_maximal(s, class);
    let n = run_len(s, class) as int;
    assert forall|i: int| 0 <= i < n implies class.holds(#[trigger] t[i]) by {
        assert(class.holds(s[i]));
        lemma_case_keeps_class(s[i], t[i]);
    }
    if n < t.len() {
        lemma_case_keeps_class(s[n], t[n]);
    }
    crate::text::lemma_run_len_unique(t, class, n);
}

/// Texts that are the same but for case have their first `==` in the same
/// place.
proof fn lemma_case_keeps_equals(s: Seq<char>, t: Seq<char>, from: int)
    requires
        same_but_for_case(s, t, s.len() as int),
    ensures
        first_equals(s, from) == first_equals(t, from),
    decreases s.len() - from,
{
    if 0 <= from && from + 1 < s.len() {
        lemma_case_keeps_class(s[from], t[from]);
        lemma_case_keeps_class(s[from + 1], t[from + 1]);
        lemma_case_keeps_equals(s, t, from + 1);
    }
}

/// A part of texts that are the same but for case is the same but for
/// case.
proof fn lemma_case_of_parts(s: Seq<char>, t: Seq<char>, from: int, to: int)
    requires
        same_but_for_case(s, t, s.len() as int),
        0 <= from <= to <= s.len(),
    ensures
        same_but_for_case(
            s.subrange(from, to),
            t.subrange(from, to),
            s.subrange(from, to).len() as int,
        ),
{
    let a = s.subrange(from, to);
    let b = t.subrange(from, to);
    assert forall|i: int| 0 <= i < a.len() implies upper(#[trigger] a[i]) == upper(b[i]) by {
        assert(a[i] == s[from + i]);
        assert(b[i] == t[from + i]);
        assert(upper(s[from + i]) == upper(t[from + i]));
    }
}

/// The argument that a rule found, if it found one.
spec fn argument_of(found: Option<(Seq<char>, Seq<char>)>) -> Seq<char> {
    match found {
        Some((_, argument)) => argument,
        None => Seq::empty(),
    }
}

/// Whether a rule applies does not depend on the case of any letter: for
/// texts that are the same but for case, a keyword matches both or neither,
/// an argument follows in both or in neither, and the arguments are the
/// same but for case.
proof fn lemma_case_keeps_rule(keyword: Seq<char>, s: Seq<char>, t: Seq<char>)
    requires
        same_but_for_case(s, t, s.len() as int),
    ensures
        spec_tag_no_case(keyword, s) is Some <==> spec_tag_no_case(keyword, t) is Some,
        spec_keyword_arg(keyword, s) is Some <==> spec_keyword_arg(keyword, t) is Some,
        spec_keyword_arg(keyword, s) matches Some((_, line)) ==> same_but_for_case(
            line,
            argument_of(spec_keyword_arg(keyword, t)),
            line.len() as int,
        ),
{
    if keyword.len() <= s.len() {
        if starts_with_keyword(s, keyword) {
            assert forall|i: int| 0 <= i < keyword.len() implies upper(#[trigger] t[i]) == upper(
                keyword[i],
            ) by {
                assert(upper(s[i]) == upper(t[i]));
            }
        }
        if starts_with_keyword(t, keyword) {
            assert forall|i: int| 0 <= i < keyword.len() implies upper(#[trigger] s[i]) == upper(
                keyword[i],
            ) by {
                assert(upper(s[i]) == upper(t[i]));
            }
        }
        let k = keyword.len() as int;
        let (s1, t1) = (s.skip(k), t.skip(k));
        lemma_case_of_parts(s, t, k, s.len() as int);
        assert(s1 == s.subrange(k, s.len() as int));
        assert(t1 == t.subrange(k, t.len() as int));
        lemma_case_keeps_runs(s1, t1, CharClass::Blank);
        crate::text::lemma_run_len_bound(s1, CharClass::Blank);
        let b = run_len(s1, CharClass::Blank) as int;
        let (s2, t2) = (s1.skip(b), t1.skip(b));
        lemma_case_of_parts(s1, t1, b, s1.len() as int);
        assert(s2 == s1.subrange(b, s1.len() as int));
        assert(t2 == t1.subrange(b, t1.len() as int));
        lemma_case_keeps_runs(s2, t2, CharClass::Inline);
        crate::text::lemma_run_len_bound(s2, CharClass::Inline);
        let l = run_len(s2, CharClass::Inline) as int;
        lemma_case_of_parts(s2, t2, 0, l);
        assert(s2.take(l) == s2.subrange(0, l));
        assert(t2.take(l) == t2.subrange(0, l));
    }
}

/// Whether a line is a comparison does not depend on the case of any
/// letter.
proof fn lemma_case_keeps_comparison(line: Seq<char>, other: Seq<char>)
    requires
        same_but_for_case(line, other, line.len() as int),
    ensures
        spec_comparison(line) is Some <==> spec_comparison(other) is Some,
{
    lemma_case_keeps_equals(line, other, 0);
    lemma_first_equals_bound(line, 0);
    if let Some(at) = first_equals(line, 0) {
        let (s1, t1) = (line.skip(at + 2), other.skip(at + 2));
        lemma_case_of_parts(line, other, at + 2, line.len() as int);
        assert(s1 == line.subrange(at + 2, line.len() as int));
        assert(t1 == other.subrange(at + 2, other.len() as int));
        lemma_case_keeps_runs(s1, t1, CharClass::Blank);
        crate::text::lemma_run_len_bound(s1, CharClass::Blank);
        crate::text::lemma_run_len_bound(t1, CharClass::Blank);
    }
}

/// Where the first `==` is, there is room for it.
proof fn lemma_first_equals_bound(s: Seq<char>, from: int)
    requires
        0 <= from,
    ensures
        first_equals(s, from) matches Some(at) ==> from <= at && at + 2 <= s.len(),
    decreases s.len() - from,
{
    if from + 1 < s.len() && !(s[from] == '=' && s[from + 1] == '=') {
        lemma_first_equals_bound(s, from + 1);
    }
}

/// What a text begins with is the same directive whatever the case of the
/// letters of its keyword: two texts that differ only in the case of
/// letters among their first `n` characters give the same result, if the
/// keyword of the directive that the first one begins with has `n`
/// characters or more.
pub proof fn lemma_directive_case_is_ignored(s: Seq<char>, t: Seq<char>, n: int)
    requires
        same_but_for_case(s, t, n),
        spec_parse_command(s) matches Some((_, directive)) ==> n <= keyword_of(directive).len(),
    ensures
        spec_parse_command(s) == spec_parse_command(t),
{
    assert(same_but_for_case(s, t, s.len() as int)) by {
        assert forall|i: int| 0 <= i < s.len() implies upper(#[trigger] s[i]) == upper(t[i]) by {
            if n <= i {
                assert(s[i] == t[i]);
            }
        }
    }
    lemma_case_keeps_rule("IFDEF"@, s, t);
    lemma_case_keeps_rule("IFNDEF"@, s, t);
    lemma_case_keeps_rule("IF"@, s, t);
    lemma_case_keeps_rule("ELSE"@, s, t);
    lemma_case_keeps_rule("ENDIF"@, s, t);
    lemma_case_keeps_rule("ASK"@, s, t);
    lemma_case_keeps_rule("OPTION"@, s, t);
    lemma_case_keeps_rule("ENDASK"@, s, t);
    lemma_case_keeps_rule("#"@, s, t);
    if let Some((_, line)) = spec_keyword_arg("IF"@, s) {
        lemma_case_keeps_comparison(line, argument_of(spec_keyword_arg("IF"@, t)));
    }
    match spec_parse_command(s) {
        Some((_, directive)) => {
            let keyword = keyword_of(directive);
            assert(same_but_for_case(s, t, keyword.len() as int)) by {
                assert forall|i: int| 0 <= i < s.len() && keyword.len() <= i implies #[trigger] s[i]
                    == t[i] by {
                    assert(n <= i);
                }
            }
            lemma_keyword_case_is_ignored(keyword, s, t);
        },
        None => {},
    }
}

} // verus!
