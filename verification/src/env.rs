//! Expansion of variable expressions: `$NAME` and `${NAME}` stand for the
//! value of an environment variable, `$(command)` for what a shell command
//! prints. A backslash before the dollar sign leaves the reference alone.
//!
//! The library neither reads the environment nor runs a command. It is told
//! the variables, and it is told the output of each command that it asks
//! for.

use vstd::prelude::*;
use vstd::string::StringExecFns;
use crate::error::Error;
use crate::error::Failure;
use crate::pattern::captured;
use crate::pattern::captures;
use crate::pattern::group;
use crate::pattern::group_text;
use crate::pattern::interleave;
use crate::pattern::interleaved;
use crate::pattern::regex_groups;
use crate::pattern::regex_pieces;
use crate::pattern::split;
use crate::table::Table;
use crate::text::texts;
use crate::text::trim_line_feeds;
use crate::text::without_trailing_line_feeds;

verus! {

/// A reference `$NAME`, with the character before it.
pub const RE_DOLLAR: &'static str = r"([^\\]|^)\$([a-zA-Z_]+)";

/// A reference `${NAME}`, with the character before it.
pub const RE_DOLLAR_BRACES: &'static str = r"([^\\]|^)\$\{([a-zA-Z_]+)\}";

/// A substitution `$(command)`, with the character before it.
pub const RE_DOLLAR_PARENS: &'static str = r"([^\\]|^)\$\((.+?[^\\])\)";

/// One shell command that was run.
struct Run {
    command: String,
    stdout: Option<String>,
}

/// What the shell commands that were run have printed. A later entry
/// replaces an earlier one for the same command.
pub struct Outputs {
    runs: Vec<Run>,
}

/// What the latest run of this command printed.
spec fn find_run(runs: Seq<Run>, command: Seq<char>) -> Option<Option<Seq<char>>>
    decreases runs.len(),
{
    if runs.len() == 0 {
        None
    } else if runs.last().command@ == command {
        Some(runs.last().stdout.deep_view())
    } else {
        find_run(runs.drop_last(), command)
    }
}

impl View for Outputs {
    /// For each command that was run: what it printed, or `None` if it
    /// failed.
    type V = Map<Seq<char>, Option<Seq<char>>>;

    closed spec fn view(&self) -> Map<Seq<char>, Option<Seq<char>>> {
        Map::new(
            |command: Seq<char>| find_run(self.runs@, command) is Some,
            |command: Seq<char>| find_run(self.runs@, command)->0,
        )
    }
}

impl Outputs {
    /// No command was run yet.
    pub fn new() -> (outputs: Outputs)
        ensures
            outputs@ == Map::<Seq<char>, Option<Seq<char>>>::empty(),
    {
        let outputs = Outputs { runs: Vec::new() };
        assert(outputs@ =~= Map::<Seq<char>, Option<Seq<char>>>::empty());
        outputs
    }

    /// Records that `command` was run: what it printed if it succeeded,
    /// `None` if it failed.
    pub fn record(&mut self, command: &str, stdout: Option<&str>)
        ensures
            final(self)@ == old(self)@.insert(
                command@,
                match stdout {
                    Some(text) => Some(text@),
                    None => None,
                },
            ),
    {
        let stdout = match stdout {
            Some(text) => Some(String::from_str(text)),
            None => None,
        };
        self.runs.push(Run { command: String::from_str(command), stdout });
        proof {
            assert(self.runs@.drop_last() == old(self).runs@);
            assert(self@ =~= old(self)@.insert(command@, stdout.deep_view()));
        }
    }

    /// Whether `command` was run, and if so what it printed or that it
    /// failed.
    pub fn get(&self, command: &str) -> (run: Option<Option<&str>>)
        ensures
            match run {
                Some(Some(text)) => self@.contains_key(command@) && self@[command@] == Some(
                    text@,
                ),
                Some(None) => self@.contains_key(command@) && self@[command@] is None,
                None => !self@.contains_key(command@),
            },
    {
        let wanted = String::from_str(command);
        let mut i: usize = self.runs.len();
        assert(self.runs@.take(i as int) == self.runs@);
        while i > 0
            invariant
                i <= self.runs.len(),
                wanted@ == command@,
                find_run(self.runs@, command@) == find_run(self.runs@.take(i as int), command@),
            decreases i,
        {
            i -= 1;
            proof {
                assert(self.runs@.take(i + 1).drop_last() == self.runs@.take(i as int));
            }
            if self.runs[i].command == wanted {
                return match &self.runs[i].stdout {
                    Some(text) => Some(Some(text.as_str())),
                    None => Some(None),
                };
            }
        }
        None
    }
}

/// What an expansion comes to.
pub enum Expanded {
    /// The expanded text.
    Text(Seq<char>),
    /// The output of this command has to be known first.
    CommandNotRun(Seq<char>),
    /// A pattern of this module does not compile.
    FailedToParseRegex,
}

/// Whether `outcome` is what `expected` says.
pub open spec fn expanded_as(outcome: Result<String, Error>, expected: Expanded) -> bool {
    match expected {
        Expanded::Text(text) => outcome matches Ok(expanded) && expanded@ == text,
        Expanded::CommandNotRun(command) => outcome matches Err(e) && e@
            == Failure::CommandNotRun(command),
        Expanded::FailedToParseRegex => outcome matches Err(e) && e@ is FailedToParseRegex,
    }
}

/// What a reference to a variable is replaced with: the character before
/// it, and the value of the variable, which is empty if there is no such
/// variable.
pub open spec fn variable_replacement(
    variables: Map<Seq<char>, Seq<char>>,
    of_match: Seq<Option<Seq<char>>>,
) -> Seq<char> {
    let name = group(of_match, 2);
    group(of_match, 1) + if variables.contains_key(name) {
        variables[name]
    } else {
        Seq::empty()
    }
}

/// The pieces of a text put together again, with each match between them
/// replaced as a reference to a variable.
pub open spec fn with_references_replaced(
    pieces: Seq<Seq<char>>,
    groups: Seq<Seq<Option<Seq<char>>>>,
    variables: Map<Seq<char>, Seq<char>>,
) -> Seq<char> {
    interleaved(
        pieces,
        groups.map_values(
            |of_match: Seq<Option<Seq<char>>>| variable_replacement(variables, of_match),
        ),
    )
}

/// `text` with each match of `pattern` replaced as a reference to a
/// variable.
pub open spec fn spec_expand_references(
    pattern: Seq<char>,
    text: Seq<char>,
    variables: Map<Seq<char>, Seq<char>>,
) -> Expanded {
    match (regex_pieces(pattern, text), regex_groups(pattern, text)) {
        (Some(pieces), Some(groups)) => Expanded::Text(
            with_references_replaced(pieces, groups, variables),
        ),
        _ => Expanded::FailedToParseRegex,
    }
}

/// `text` with the references `$NAME` replaced, and then the references
/// `${NAME}` in what that gave.
pub open spec fn spec_expand_env(
    text: Seq<char>,
    variables: Map<Seq<char>, Seq<char>>,
) -> Expanded {
    match spec_expand_references(RE_DOLLAR@, text, variables) {
        Expanded::Text(simple) => spec_expand_references(RE_DOLLAR_BRACES@, simple, variables),
        other => other,
    }
}

/// What a substitution is replaced with: the character before it and what
/// the command printed, less the line feeds at its end; nothing at all if
/// the command failed.
pub open spec fn command_replacement(
    outputs: Map<Seq<char>, Option<Seq<char>>>,
    of_match: Seq<Option<Seq<char>>>,
) -> Seq<char> {
    match outputs[group(of_match, 2)] {
        Some(stdout) => group(of_match, 1) + without_trailing_line_feeds(stdout),
        None => Seq::empty(),
    }
}

/// The command of the first match whose command was not run.
pub open spec fn first_command_not_run(
    outputs: Map<Seq<char>, Option<Seq<char>>>,
    groups: Seq<Seq<Option<Seq<char>>>>,
) -> Option<Seq<char>>
    decreases groups.len(),
{
    if groups.len() == 0 {
        None
    } else {
        let command = group(groups[0], 2);
        if outputs.contains_key(command) {
            first_command_not_run(outputs, groups.drop_first())
        } else {
            Some(command)
        }
    }
}

/// The pieces of a text put together again, with each match between them
/// replaced as a substitution; or the first command that has to be run
/// before that can be done.
pub open spec fn with_commands_replaced(
    pieces: Seq<Seq<char>>,
    groups: Seq<Seq<Option<Seq<char>>>>,
    outputs: Map<Seq<char>, Option<Seq<char>>>,
) -> Expanded {
    match first_command_not_run(outputs, groups) {
        Some(command) => Expanded::CommandNotRun(command),
        None => Expanded::Text(
            interleaved(
                pieces,
                groups.map_values(
                    |of_match: Seq<Option<Seq<char>>>| command_replacement(outputs, of_match),
                ),
            ),
        ),
    }
}

/// `text` with each substitution `$(command)` replaced.
pub open spec fn spec_expand_subst(
    text: Seq<char>,
    outputs: Map<Seq<char>, Option<Seq<char>>>,
) -> Expanded {
    match (regex_pieces(RE_DOLLAR_PARENS@, text), regex_groups(RE_DOLLAR_PARENS@, text)) {
        (Some(pieces), Some(groups)) => with_commands_replaced(pieces, groups, outputs),
        _ => Expanded::FailedToParseRegex,
    }
}

/// `text` with its substitutions replaced, and then the references to
/// variables in what that gave.
pub open spec fn spec_expand(
    text: Seq<char>,
    variables: Map<Seq<char>, Seq<char>>,
    outputs: Map<Seq<char>, Option<Seq<char>>>,
) -> Expanded {
    match spec_expand_subst(text, outputs) {
        Expanded::Text(substituted) => spec_expand_env(substituted, variables),
        other => other,
    }
}

/// Puts the pieces of a text together again, with each match between them
/// replaced as a reference to a variable. `groups` holds what the groups of
/// each match captured: group 1 the character before the reference, group 2
/// the name of the variable.
pub fn replace_references(
    pieces: &Vec<String>,
    groups: &Vec<Vec<Option<String>>>,
    variables: &Table,
) -> (text: String)
    ensures
        text@ == with_references_replaced(texts(pieces@), captured(groups@), variables@),
{
    let ghost wanted = captured(groups@).map_values(
        |of_match: Seq<Option<Seq<char>>>| variable_replacement(variables@, of_match),
    );
    let mut replacements: Vec<String> = Vec::new();
    let mut i: usize = 0;
    while i < groups.len()
        invariant
            i <= groups.len(),
            replacements@.len() == i,
            wanted == captured(groups@).map_values(
                |of_match: Seq<Option<Seq<char>>>| variable_replacement(variables@, of_match),
            ),
            forall|j: int| 0 <= j < i ==> (#[trigger] replacements@[j])@ == wanted[j],
        decreases groups.len() - i,
    {
        let mut replacement = String::from_str(group_text(&groups[i], 1));
        match variables.get(group_text(&groups[i], 2)) {
            Some(value) => {
                replacement.append(value);
            },
            None => {
                assert(replacement@ + Seq::<char>::empty() == replacement@);
            },
        }
        replacements.push(replacement);
        i += 1;
    }
    proof {
        assert(texts(replacements@) =~= wanted);
    }
    interleave(pieces, &replacements)
}

/// Replaces each match of `pattern` in `text` as a reference to a variable.
fn expand_references(pattern: &str, text: &str, variables: &Table) -> (outcome: Result<
    String,
    Error,
>)
    ensures
        expanded_as(outcome, spec_expand_references(pattern@, text@, variables@)),
{
    let pieces = match split(pattern, text) {
        Ok(pieces) => pieces,
        Err(message) => {
            return Err(Error::FailedToParseRegex(message));
        },
    };
    let groups = match captures(pattern, text) {
        Ok(groups) => groups,
        Err(message) => {
            return Err(Error::FailedToParseRegex(message));
        },
    };
    Ok(replace_references(&pieces, &groups, variables))
}

/// Expands the references `$NAME` and `${NAME}` in `s` to the values that
/// `variables` gives to the names. A name without a value expands to
/// nothing.
pub fn expand_env(s: &str, variables: &Table) -> (outcome: Result<String, Error>)
    ensures
        expanded_as(outcome, spec_expand_env(s@, variables@)),
{
    match expand_references(RE_DOLLAR, s, variables) {
        Ok(simple) => expand_references(RE_DOLLAR_BRACES, simple.as_str(), variables),
        Err(e) => Err(e),
    }
}

/// Puts the pieces of a text together again, with each match between them
/// replaced as a substitution. `groups` holds what the groups of each match
/// captured: group 1 the character before the substitution, group 2 the
/// command. If a command was not run yet, it is named in the error: the
/// first such command.
pub fn replace_commands(
    pieces: &Vec<String>,
    groups: &Vec<Vec<Option<String>>>,
    outputs: &Outputs,
) -> (outcome: Result<String, Error>)
    ensures
        expanded_as(
            outcome,
            with_commands_replaced(texts(pieces@), captured(groups@), outputs@),
        ),
{
    let ghost wanted = captured(groups@).map_values(
        |of_match: Seq<Option<Seq<char>>>| command_replacement(outputs@, of_match),
    );
    let mut replacements: Vec<String> = Vec::new();
    let mut i: usize = 0;
    proof {
        assert(captured(groups@).skip(0) == captured(groups@));
    }
    while i < groups.len()
        invariant
            i <= groups.len(),
            replacements@.len() == i,
            wanted == captured(groups@).map_values(
                |of_match: Seq<Option<Seq<char>>>| command_replacement(outputs@, of_match),
            ),
            forall|j: int| 0 <= j < i ==> (#[trigger] replacements@[j])@ == wanted[j],
            first_command_not_run(outputs@, captured(groups@)) == first_command_not_run(
                outputs@,
                captured(groups@).skip(i as int),
            ),
        decreases groups.len() - i,
    {
        let command = group_text(&groups[i], 2);
        proof {
            let rest = captured(groups@).skip(i as int);
            assert(rest[0] == groups@[i as int].deep_view());
            assert(rest.drop_first() == captured(groups@).skip(i + 1));
        }
        match outputs.get(command) {
            Some(Some(stdout)) => {
                let mut replacement = String::from_str(group_text(&groups[i], 1));
                let printed = trim_line_feeds(stdout);
                replacement.append(printed.as_str());
                replacements.push(replacement);
            },
            Some(None) => {
                replacements.push(String::new());
            },
            None => {
                return Err(Error::CommandNotRun(String::from_str(command)));
            },
        }
        i += 1;
    }
    proof {
        assert(texts(replacements@) =~= wanted);
    }
    Ok(interleave(pieces, &replacements))
}

/// Expands the substitutions `$(command)` in `s` to what `outputs` holds
/// for the commands. If a command was not run yet, it is named in the
/// error: the first such command in `s`.
pub fn expand_subst(s: &str, outputs: &Outputs) -> (outcome: Result<String, Error>)
    ensures
        expanded_as(outcome, spec_expand_subst(s@, outputs@)),
{
    let pieces = match split(RE_DOLLAR_PARENS, s) {
        Ok(pieces) => pieces,
        Err(message) => {
            return Err(Error::FailedToParseRegex(message));
        },
    };
    let groups = match captures(RE_DOLLAR_PARENS, s) {
        Ok(groups) => groups,
        Err(message) => {
            return Err(Error::FailedToParseRegex(message));
        },
    };
    replace_commands(&pieces, &groups, outputs)
}

/// Expands `s`: first its substitutions `$(command)`, then the references
/// `$NAME` and `${NAME}` in the result.
pub fn expand(s: &str, variables: &Table, outputs: &Outputs) -> (outcome: Result<String, Error>)
    ensures
        expanded_as(outcome, spec_expand(s@, variables@, outputs@)),
{
    match expand_subst(s, outputs) {
        Ok(substituted) => expand_env(substituted.as_str(), variables),
        Err(e) => Err(e),
    }
}

} // verus!
