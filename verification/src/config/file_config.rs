//! The configuration of a single file, and what it makes of the file's
//! content.

use std::collections::HashSet;
use vstd::prelude::*;
use vstd::string::StringExecFns;
use crate::command::Command;
use crate::command::Directive;
use crate::command::spec_parse_from_line;
use crate::command_reader::CommandReader;
use crate::command_reader::located;
use crate::env::Expanded;
use crate::env::Outputs;
use crate::env::expand;
use crate::env::spec_expand;
use crate::error::Error;
use crate::error::Failure;
use crate::pattern::captured;
use crate::pattern::captures;
use crate::pattern::escape;
use crate::pattern::group;
use crate::pattern::group_text;
use crate::pattern::interleave;
use crate::pattern::interleaved;
use crate::pattern::regex_escaped;
use crate::pattern::regex_groups;
use crate::pattern::regex_pieces;
use crate::pattern::split;
use crate::semantics::evaluate;
use crate::session::Knowledge;
use crate::session::Session;
use crate::table::Table;
use crate::text::join;
use crate::text::joined;
use crate::text::lines_of;
use crate::text::split_lines;
use crate::text::texts;

verus! {

broadcast use vstd::std_specs::hash::group_hash_axioms;

/// What is appended to the path of a source file to name its preprocessed
/// copy.
pub const COMPILED_SUFFIX: &'static str = ".preprocessed";

/// An opening and a closing character sequence.
/// These delimit strings that need special treatment.
#[derive(Debug, PartialEq, Eq)]
pub struct Escape {
    /// Starting sequence. I.e. `{{-`
    pub start: String,
    /// Ending sequence. I.e. `-}}`
    pub end: String,
}

/// An `Escape` as a mathematical value.
pub struct EscapeView {
    pub start: Seq<char>,
    pub end: Seq<char>,
}

impl View for Escape {
    type V = EscapeView;

    open spec fn view(&self) -> EscapeView {
        EscapeView { start: self.start@, end: self.end@ }
    }
}

impl Clone for Escape {
    fn clone(&self) -> (copy: Self)
        ensures
            copy@ == self@,
    {
        Escape { start: self.start.clone(), end: self.end.clone() }
    }
}

/// Configuration for a single dotfile.
#[derive(Debug, PartialEq, Eq)]
pub struct FileConfig {
    /// Source file that will be read and preprocessed.
    pub source: String,
    /// Target path that will link to the preprocessed file.
    pub target: String,
    /// Escape sequence to use for this configuration.
    pub escape: Option<Escape>,
    /// Line prefix for commands.
    pub prefix: Option<String>,
    /// Remove instructions after processing?
    pub remove_instructions: Option<bool>,
}

/// A `FileConfig` as a mathematical value.
pub struct FileConfigView {
    pub source: Seq<char>,
    pub target: Seq<char>,
    pub escape: Option<EscapeView>,
    pub prefix: Option<Seq<char>>,
    pub remove_instructions: Option<bool>,
}

/// An optional escape as a mathematical value.
pub open spec fn escape_view(escape: Option<Escape>) -> Option<EscapeView> {
    match escape {
        Some(escape) => Some(escape@),
        None => None,
    }
}

/// An optional prefix as a mathematical value.
pub open spec fn prefix_view(prefix: Option<String>) -> Option<Seq<char>> {
    match prefix {
        Some(prefix) => Some(prefix@),
        None => None,
    }
}

impl View for FileConfig {
    type V = FileConfigView;

    open spec fn view(&self) -> FileConfigView {
        FileConfigView {
            source: self.source@,
            target: self.target@,
            escape: escape_view(self.escape),
            prefix: prefix_view(self.prefix),
            remove_instructions: self.remove_instructions,
        }
    }
}

/// The configuration with each option that is not set taken from the
/// defaults. Whether instructions are removed is always set afterwards.
pub open spec fn supplemented(
    config: FileConfigView,
    escape: Option<EscapeView>,
    remove_instructions: bool,
    prefix: Option<Seq<char>>,
) -> FileConfigView {
    FileConfigView {
        source: config.source,
        target: config.target,
        escape: if config.escape is None {
            escape
        } else {
            config.escape
        },
        prefix: if config.prefix is None {
            prefix
        } else {
            config.prefix
        },
        remove_instructions: if config.remove_instructions is None {
            Some(remove_instructions)
        } else {
            config.remove_instructions
        },
    }
}

impl Escape {
    /// The pattern that finds what stands between the escape sequences.
    ///
    /// It matches the character before `start`, `start`, the shortest text
    /// that does not end with a backslash, and `end`. It does not match if
    /// `start` is preceded by a backslash.
    pub open spec fn spec_to_regex(self) -> Seq<char> {
        r"([^\\])"@ + regex_escaped(self.start@) + r"(.*?[^\\])"@ + regex_escaped(self.end@)
    }

    /// The pattern that finds what stands between the escape sequences.
    pub fn to_regex(&self) -> (pattern: String)
        ensures
            pattern@ == self.spec_to_regex(),
    {
        let mut pattern = String::from_str(r"([^\\])");
        pattern.append(escape(self.start.as_str()).as_str());
        pattern.append(r"(.*?[^\\])");
        pattern.append(escape(self.end.as_str()).as_str());
        pattern
    }
}

impl FileConfig {
    /// Replace `None`s with the given defaults.
    /// Defined values (`Some`s) will not be changed.
    pub fn supplement(
        &mut self,
        escape: &Option<Escape>,
        remove_instructions: bool,
        prefix: &Option<String>,
    )
        ensures
            final(self)@ == supplemented(
                old(self)@,
                escape_view(*escape),
                remove_instructions,
                prefix_view(*prefix),
            ),
    {
        if self.escape.is_none() {
            self.escape = match escape {
                Some(escape) => Some(escape.clone()),
                None => None,
            };
        }
        if self.remove_instructions.is_none() {
            self.remove_instructions = Some(remove_instructions);
        }
        if self.prefix.is_none() {
            self.prefix = match prefix {
                Some(prefix) => Some(prefix.clone()),
                None => None,
            };
        }
    }

    /// Get the path for storing the preprocessed file: the path of the
    /// source file, with `COMPILED_SUFFIX` appended.
    pub fn temp_path(&self, source_path: &str) -> (path: String)
        ensures
            path@ == source_path@ + COMPILED_SUFFIX@,
    {
        let mut path = String::from_str(source_path);
        path.append(COMPILED_SUFFIX);
        path
    }

    /// Whether what stands at the target path has to be removed before the
    /// link is created there. `existing` is `None` if nothing stands there,
    /// and else says whether it is a symbolic link. An old link is removed;
    /// anything else is not touched, and the link cannot be created.
    pub fn check_target(target_path: &str, existing: Option<bool>) -> (outcome: Result<bool, Error>)
        ensures
            match existing {
                None => outcome == Ok::<bool, Error>(false),
                Some(true) => outcome == Ok::<bool, Error>(true),
                Some(false) => outcome matches Err(e) && e@ == Failure::TargetAlreadyExists(
                    target_path@,
                ),
            },
    {
        match existing {
            None => Ok(false),
            Some(true) => Ok(true),
            Some(false) => Err(Error::TargetAlreadyExists(String::from_str(target_path))),
        }
    }

    /// Get the pattern for finding escapes in the source file.
    /// This is `None` if no escape sequence was specified.
    pub fn escape_regex(&self) -> (pattern: Option<String>)
        ensures
            match self.escape {
                Some(escape) => pattern matches Some(p) && p@ == escape.spec_to_regex(),
                None => pattern is None,
            },
    {
        match &self.escape {
            Some(escape) => Some(escape.to_regex()),
            None => None,
        }
    }
}

/// The directives among `lines`, each with the index of its line; or the
/// failure of the first directive line that is no directive.
pub open spec fn directives(prefix: Seq<char>, lines: Seq<Seq<char>>) -> Result<
    Seq<(usize, Directive)>,
    Failure,
>
    decreases lines.len(),
{
    if lines.len() == 0 {
        Ok(Seq::empty())
    } else {
        match directives(prefix, lines.drop_last()) {
            Ok(found) => match spec_parse_from_line(prefix, lines.last()) {
                Some(Ok(directive)) => Ok(found.push(((lines.len() - 1) as usize, directive))),
                Some(Err(failure)) => Err(failure),
                None => Ok(found),
            },
            Err(failure) => Err(failure),
        }
    }
}

/// The lines that directives stand on.
pub open spec fn directive_lines(cmds: Seq<(usize, Directive)>) -> Set<usize> {
    Set::new(|line: usize| exists|i: int| 0 <= i < cmds.len() && (#[trigger] cmds[i]).0 == line)
}

/// The lines whose index is not in `dropped`, in their order.
pub open spec fn kept(lines: Seq<Seq<char>>, dropped: Set<usize>) -> Seq<Seq<char>>
    decreases lines.len(),
{
    if lines.len() == 0 {
        Seq::empty()
    } else if dropped.contains((lines.len() - 1) as usize) {
        kept(lines.drop_last(), dropped)
    } else {
        kept(lines.drop_last(), dropped).push(lines.last())
    }
}

/// What the directives of a file make of its content.
///
/// Without a prefix there are no directives, and the content stays as it
/// is. Otherwise the directive lines are parsed and evaluated, which gives
/// the lines to drop; the directive lines are dropped as well if `remove`
/// says so. If no line is dropped the content stays as it is; else it is
/// the lines that are left, joined by line feeds.
pub open spec fn spec_preprocess_instructions(
    prefix: Option<Seq<char>>,
    remove: bool,
    content: Seq<char>,
    know: Knowledge,
) -> Result<Seq<char>, Failure> {
    match prefix {
        Some(prefix) => match directives(prefix, lines_of(content)) {
            Ok(cmds) => match evaluate(cmds, know) {
                Ok(skips) => {
                    let dropped = if remove {
                        skips + directive_lines(cmds)
                    } else {
                        skips
                    };
                    if dropped.is_empty() {
                        Ok(content)
                    } else {
                        Ok(joined(kept(lines_of(content), dropped), seq!['\n']))
                    }
                },
                Err(failure) => Err(failure),
            },
            Err(failure) => Err(failure),
        },
        None => Ok(content),
    }
}

/// What a key between the escape sequences is replaced with: if the
/// substitutions hold the key, the expansion of the character before the
/// escape and the replacement of the key; else that character and the
/// expansion of the key.
pub open spec fn substitution(
    substitutions: Map<Seq<char>, Seq<char>>,
    variables: Map<Seq<char>, Seq<char>>,
    outputs: Map<Seq<char>, Option<Seq<char>>>,
    of_match: Seq<Option<Seq<char>>>,
) -> Expanded {
    let before = group(of_match, 1);
    let key = group(of_match, 2);
    if substitutions.contains_key(key) {
        match spec_expand(before, variables, outputs) {
            Expanded::Text(expanded) => Expanded::Text(expanded + substitutions[key]),
            other => other,
        }
    } else {
        match spec_expand(key, variables, outputs) {
            Expanded::Text(expanded) => Expanded::Text(before + expanded),
            other => other,
        }
    }
}

/// The replacements of the matches, or what the first match that has none
/// comes to instead.
pub open spec fn substitutions_of(
    substitutions: Map<Seq<char>, Seq<char>>,
    variables: Map<Seq<char>, Seq<char>>,
    outputs: Map<Seq<char>, Option<Seq<char>>>,
    groups: Seq<Seq<Option<Seq<char>>>>,
) -> Result<Seq<Seq<char>>, Expanded>
    decreases groups.len(),
{
    if groups.len() == 0 {
        Ok(Seq::empty())
    } else {
        match substitutions_of(substitutions, variables, outputs, groups.drop_last()) {
            Ok(replacements) => match substitution(
                substitutions,
                variables,
                outputs,
                groups.last(),
            ) {
                Expanded::Text(replacement) => Ok(replacements.push(replacement)),
                other => Err(other),
            },
            Err(other) => Err(other),
        }
    }
}

/// The pieces of a text put together again, with each match between them
/// replaced as an escape; or what the first match that has no replacement
/// comes to instead.
pub open spec fn with_escapes_replaced(
    pieces: Seq<Seq<char>>,
    groups: Seq<Seq<Option<Seq<char>>>>,
    substitutions: Map<Seq<char>, Seq<char>>,
    variables: Map<Seq<char>, Seq<char>>,
    outputs: Map<Seq<char>, Option<Seq<char>>>,
) -> Expanded {
    match substitutions_of(substitutions, variables, outputs, groups) {
        Ok(replacements) => Expanded::Text(interleaved(pieces, replacements)),
        Err(other) => other,
    }
}

/// `content` with each escape replaced, where `pattern` finds the escapes.
pub open spec fn spec_preprocess_substitutions(
    pattern: Option<Seq<char>>,
    content: Seq<char>,
    substitutions: Map<Seq<char>, Seq<char>>,
    variables: Map<Seq<char>, Seq<char>>,
    outputs: Map<Seq<char>, Option<Seq<char>>>,
) -> Expanded {
    match pattern {
        Some(pattern) => match (regex_pieces(pattern, content), regex_groups(pattern, content)) {
            (Some(pieces), Some(groups)) => with_escapes_replaced(
                pieces,
                groups,
                substitutions,
                variables,
                outputs,
            ),
            _ => Expanded::FailedToParseRegex,
        },
        None => Expanded::Text(content),
    }
}

/// Puts the pieces of a text together again, with each match between them
/// replaced as an escape. `groups` holds what the groups of each match
/// captured: group 1 the character before the escape, group 2 the key
/// between the escape sequences.
pub fn replace_escapes(
    pieces: &Vec<String>,
    groups: &Vec<Vec<Option<String>>>,
    substitutions: &Table,
    variables: &Table,
    outputs: &Outputs,
) -> (outcome: Result<String, Error>)
    ensures
        crate::env::expanded_as(
            outcome,
            with_escapes_replaced(
                texts(pieces@),
                captured(groups@),
                substitutions@,
                variables@,
                outputs@,
            ),
        ),
{
    let mut replacements: Vec<String> = Vec::new();
    let mut i: usize = 0;
    proof {
        assert(texts(replacements@) =~= Seq::<Seq<char>>::empty());
    }
    while i < groups.len()
        invariant
            i <= groups.len(),
            substitutions_of(
                substitutions@,
                variables@,
                outputs@,
                captured(groups@).take(i as int),
            ) == Ok::<Seq<Seq<char>>, Expanded>(texts(replacements@)),
        decreases groups.len() - i,
    {
        let ghost before = texts(replacements@);
        proof {
            let grown = captured(groups@).take(i + 1);
            assert(grown.drop_last() == captured(groups@).take(i as int));
            assert(grown.last() == groups@[i as int].deep_view());
        }
        let prefix = group_text(&groups[i], 1);
        let key = group_text(&groups[i], 2);
        let replacement = match substitutions.get(key) {
            Some(value) => match expand(prefix, variables, outputs) {
                Ok(mut expanded) => {
                    expanded.append(value);
                    expanded
                },
                Err(e) => {
                    proof {
                        lemma_substitutions_fail(
                            substitutions@,
                            variables@,
                            outputs@,
                            captured(groups@),
                            i + 1,
                        );
                    }
                    return Err(e);
                },
            },
            None => match expand(key, variables, outputs) {
                Ok(expanded) => {
                    let mut replacement = String::from_str(prefix);
                    replacement.append(expanded.as_str());
                    replacement
                },
                Err(e) => {
                    proof {
                        lemma_substitutions_fail(
                            substitutions@,
                            variables@,
                            outputs@,
                            captured(groups@),
                            i + 1,
                        );
                    }
                    return Err(e);
                },
            },
        };
        replacements.push(replacement);
        proof {
            assert(texts(replacements@) =~= before.push(replacement@));
        }
        i += 1;
    }
    proof {
        assert(captured(groups@).take(groups@.len() as int) == captured(groups@));
    }
    Ok(interleave(pieces, &replacements))
}

/// Parses the directive lines among `lines`, each with the index of its
/// line. Fails with the first directive line that is no directive.
pub fn parse_lines(prefix: &str, lines: &Vec<String>) -> (outcome: Result<
    Vec<(usize, Command)>,
    Error,
>)
    ensures
        match directives(prefix@, texts(lines@)) {
            Ok(cmds) => outcome matches Ok(cmd_lines) && located(cmd_lines@) == cmds,
            Err(failure) => outcome matches Err(e) && e@ == failure,
        },
{
    let mut cmd_lines: Vec<(usize, Command)> = Vec::new();
    let mut line_nr: usize = 0;
    proof {
        assert(located(cmd_lines@) =~= Seq::<(usize, Directive)>::empty());
    }
    while line_nr < lines.len()
        invariant
            line_nr <= lines.len(),
            directives(prefix@, texts(lines@).take(line_nr as int)) == Ok::<
                Seq<(usize, Directive)>,
                Failure,
            >(located(cmd_lines@)),
        decreases lines.len() - line_nr,
    {
        proof {
            let grown = texts(lines@).take(line_nr + 1);
            assert(grown.drop_last() == texts(lines@).take(line_nr as int));
            assert(grown.last() == lines@[line_nr as int]@);
        }
        let ghost found = located(cmd_lines@);
        match Command::parse_from_line(prefix, lines[line_nr].as_str()) {
            Some(Ok(cmd)) => {
                cmd_lines.push((line_nr, cmd));
                proof {
                    assert(located(cmd_lines@) =~= found.push((line_nr, cmd@)));
                }
            },
            Some(Err(e)) => {
                proof {
                    lemma_directives_fail(prefix@, texts(lines@), line_nr + 1);
                }
                return Err(e);
            },
            None => {},
        }
        line_nr += 1;
    }
    proof {
        assert(texts(lines@).take(lines@.len() as int) == texts(lines@));
    }
    Ok(cmd_lines)
}

/// Adds the lines that the directives stand on to the lines to drop.
fn skip_directive_lines(skips: &mut HashSet<usize>, cmd_lines: &Vec<(usize, Command)>)
    ensures
        final(skips)@ == old(skips)@ + directive_lines(located(cmd_lines@)),
{
    let ghost cmds = located(cmd_lines@);
    let mut i: usize = 0;
    proof {
        assert(skips@ + directive_lines(cmds.take(0)) =~= skips@);
    }
    while i < cmd_lines.len()
        invariant
            i <= cmd_lines.len(),
            cmds == located(cmd_lines@),
            skips@ == old(skips)@ + directive_lines(cmds.take(i as int)),
        decreases cmd_lines.len() - i,
    {
        skips.insert(cmd_lines[i].0);
        proof {
            let line_i = cmd_lines@[i as int].0;
            assert(cmds.take(i + 1)[i as int].0 == line_i);
            assert forall|line: usize|
                directive_lines(cmds.take(i + 1)).contains(line) <==> directive_lines(
                    cmds.take(i as int),
                ).contains(line) || line == line_i by {
                if directive_lines(cmds.take(i as int)).contains(line) {
                    let j = choose|j: int|
                        0 <= j < i && (#[trigger] cmds.take(i as int)[j]).0 == line;
                    assert(cmds.take(i + 1)[j].0 == line);
                }
                if directive_lines(cmds.take(i + 1)).contains(line) {
                    let j = choose|j: int|
                        0 <= j < i + 1 && (#[trigger] cmds.take(i + 1)[j]).0 == line;
                    if j < i {
                        assert(cmds.take(i as int)[j].0 == line);
                    }
                }
            }
            assert(skips@ =~= old(skips)@ + directive_lines(cmds.take(i + 1)));
        }
        i += 1;
    }
    proof {
        assert(cmds.take(cmd_lines@.len() as int) == cmds);
    }
}

/// The lines whose index is not among `skips`.
fn remaining(lines: &Vec<String>, skips: &HashSet<usize>) -> (remaining_lines: Vec<String>)
    ensures
        texts(remaining_lines@) == kept(texts(lines@), skips@),
{
    let mut remaining_lines: Vec<String> = Vec::new();
    let mut i: usize = 0;
    proof {
        assert(texts(remaining_lines@) =~= Seq::<Seq<char>>::empty());
    }
    while i < lines.len()
        invariant
            i <= lines.len(),
            texts(remaining_lines@) == kept(texts(lines@).take(i as int), skips@),
        decreases lines.len() - i,
    {
        let ghost before = texts(remaining_lines@);
        proof {
            let grown = texts(lines@).take(i + 1);
            assert(grown.drop_last() == texts(lines@).take(i as int));
            assert(grown.last() == lines@[i as int]@);
        }
        if !skips.contains(&i) {
            remaining_lines.push(lines[i].clone());
            proof {
                assert(texts(remaining_lines@) =~= before.push(lines@[i as int]@));
            }
        }
        i += 1;
    }
    proof {
        assert(texts(lines@).take(lines@.len() as int) == texts(lines@));
    }
    remaining_lines
}

impl FileConfig {
    /// The pattern that finds the escapes of this file, if it has escape
    /// sequences.
    pub open spec fn spec_escape_regex(&self) -> Option<Seq<char>> {
        match self.escape {
            Some(escape) => Some(escape.spec_to_regex()),
            None => None,
        }
    }

    /// Whether the directive lines are dropped: as the configuration says,
    /// and if it does not say, they are.
    pub open spec fn removes_instructions(&self) -> bool {
        match self.remove_instructions {
            Some(remove) => remove,
            None => true,
        }
    }

    /// Preprocess instructions: drops the lines that the directives of
    /// `content` say to drop.
    pub fn preprocess_instructions(&self, content: &str, session: &Session) -> (outcome: Result<
        String,
        Error,
    >)
        ensures
            match spec_preprocess_instructions(
                prefix_view(self.prefix),
                self.removes_instructions(),
                content@,
                session@,
            ) {
                Ok(text) => outcome matches Ok(processed) && processed@ == text,
                Err(failure) => outcome matches Err(e) && e@ == failure,
            },
    {
        let prefix = match &self.prefix {
            Some(prefix) => prefix,
            None => {
                // Do nothing
                return Ok(String::from_str(content));
            },
        };
        let lines = split_lines(content);
        let cmd_lines = match parse_lines(prefix.as_str(), &lines) {
            Ok(cmd_lines) => cmd_lines,
            Err(e) => {
                return Err(e);
            },
        };
        let mut skips = match CommandReader::read(cmd_lines.as_slice(), session) {
            Ok(skips) => skips,
            Err(e) => {
                return Err(e);
            },
        };
        // Add command lines to skip if necessary
        let remove = match self.remove_instructions {
            Some(remove) => remove,
            None => true,
        };
        if remove {
            skip_directive_lines(&mut skips, &cmd_lines);
        }
        if skips.is_empty() {
            Ok(String::from_str(content))
        } else {
            let remaining_lines = remaining(&lines, &skips);
            proof {
                reveal_strlit("\n");
                assert("\n"@ =~= seq!['\n']);
            }
            Ok(join(&remaining_lines, "\n"))
        }
    }

    /// Preprocess substitutions.
    ///
    /// Assuming the escape sequences `{++` and `++}` are used, this replaces
    /// all occurences of `{++KEY++}` with the `VALUE` that `substitutions`
    /// hold for `KEY`, and with the expansion of `KEY` if they hold none.
    /// The content is unaltered if no escape sequences are defined, or none
    /// is used in it.
    pub fn preprocess_substitutions(
        &self,
        content: &str,
        substitutions: &Table,
        variables: &Table,
        outputs: &Outputs,
    ) -> (outcome: Result<String, Error>)
        ensures
            crate::env::expanded_as(
                outcome,
                spec_preprocess_substitutions(
                    self.spec_escape_regex(),
                    content@,
                    substitutions@,
                    variables@,
                    outputs@,
                ),
            ),
    {
        let pattern = match self.escape_regex() {
            Some(pattern) => pattern,
            None => {
                return Ok(String::from_str(content));
            },
        };
        let pieces = match split(pattern.as_str(), content) {
            Ok(pieces) => pieces,
            Err(message) => {
                return Err(Error::FailedToParseRegex(message));
            },
        };
        let groups = match captures(pattern.as_str(), content) {
            Ok(groups) => groups,
            Err(message) => {
                return Err(Error::FailedToParseRegex(message));
            },
        };
        replace_escapes(&pieces, &groups, substitutions, variables, outputs)
    }

    /// Preprocess the content of this configuration's file.
    ///
    /// 1) Evaluate preprocessor instructions.
    /// 2) Replace substitutions.
    pub fn preprocess(
        &self,
        content: &str,
        substitutions: &Table,
        session: &Session,
        variables: &Table,
        outputs: &Outputs,
    ) -> (outcome: Result<String, Error>)
        ensures
            match spec_preprocess_instructions(
                prefix_view(self.prefix),
                self.removes_instructions(),
                content@,
                session@,
            ) {
                Ok(text) => crate::env::expanded_as(
                    outcome,
                    spec_preprocess_substitutions(
                        self.spec_escape_regex(),
                        text,
                        substitutions@,
                        variables@,
                        outputs@,
                    ),
                ),
                Err(failure) => outcome matches Err(e) && e@ == failure,
            },
    {
        // Evaluate preprocessor instructions.
        let new_content = match self.preprocess_instructions(content, session) {
            Ok(new_content) => new_content,
            Err(e) => {
                return Err(e);
            },
        };
        // Replace substitutions.
        self.preprocess_substitutions(new_content.as_str(), substitutions, variables, outputs)
    }
}

/// Once a directive line is no directive, no further line changes the
/// failure.
proof fn lemma_directives_fail(prefix: Seq<char>, lines: Seq<Seq<char>>, n: int)
    requires
        0 <= n <= lines.len(),
        directives(prefix, lines.take(n)) is Err,
    ensures
        directives(prefix, lines) == directives(prefix, lines.take(n)),
    decreases lines.len() - n,
{
    if n < lines.len() {
        assert(lines.take(n + 1).drop_last() == lines.take(n));
        lemma_directives_fail(prefix, lines, n + 1);
    } else {
        assert(lines.take(n) == lines);
    }
}

/// Once a match has no replacement, no further match changes what comes
/// instead.
proof fn lemma_substitutions_fail(
    substitutions: Map<Seq<char>, Seq<char>>,
    variables: Map<Seq<char>, Seq<char>>,
    outputs: Map<Seq<char>, Option<Seq<char>>>,
    groups: Seq<Seq<Option<Seq<char>>>>,
    n: int,
)
    requires
        0 <= n <= groups.len(),
        substitutions_of(substitutions, variables, outputs, groups.take(n)) is Err,
    ensures
        substitutions_of(substitutions, variables, outputs, groups) == substitutions_of(
            substitutions,
            variables,
            outputs,
            groups.take(n),
        ),
    decreases groups.len() - n,
{
    if n < groups.len() {
        assert(groups.take(n + 1).drop_last() == groups.take(n));
        lemma_substitutions_fail(substitutions, variables, outputs, groups, n + 1);
    } else {
        assert(groups.take(n) == groups);
    }
}

} // verus!
