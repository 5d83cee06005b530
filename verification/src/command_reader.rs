//! The block evaluator: one pass over the directives of a file that finds
//! the lines to drop.

use std::collections::HashSet;
use vstd::prelude::*;
use vstd::pervasive::unreached;
use vstd::string::StringExecFns;
use crate::command::Command;
use crate::command::Directive;
use crate::error::Error;
use crate::error::Failure;
use crate::semantics::Step;
use crate::semantics::and_skips;
use crate::semantics::answer_skips;
use crate::semantics::between;
use crate::semantics::bounds;
use crate::semantics::branch_skips;
use crate::semantics::choice_skips;
use crate::semantics::condition;
use crate::semantics::eval_block;
use crate::semantics::eval_from;
use crate::semantics::evaluate;
use crate::semantics::in_segment;
use crate::semantics::is_conditional;
use crate::semantics::lemma_block_advances;
use crate::semantics::scan_conditional;
use crate::semantics::scan_question;
use crate::semantics::segment_skips;
use crate::semantics::spec_evaluate_expr;
use crate::semantics::spec_evaluate_var;
use crate::session::Answer;
use crate::session::Knowledge;
use crate::session::Session;
use crate::session::copy_labels;
use crate::text::same_text;
use crate::text::trim;

verus! {

broadcast use vstd::std_specs::hash::group_hash_axioms;

/// The commands of a file with their lines, as mathematical values.
pub open spec fn located(cmds: Seq<(usize, Command)>) -> Seq<(usize, Directive)> {
    cmds.map_values(|located: (usize, Command)| (located.0, located.1@))
}

/// Evaluate the given variable.
///
/// This is true if what `var` expands to holds more than whitespace. It
/// fails if the session does not know the expansion.
pub fn evaluate_var(var: &str, session: &Session) -> (outcome: Result<bool, Error>)
    ensures
        match spec_evaluate_var(var@, session@) {
            Ok(defined) => outcome == Ok::<bool, Error>(defined),
            Err(failure) => outcome matches Err(e) && e@ == failure,
        },
{
    match session.expansion(var) {
        Some(value) => Ok(!trim(value).is_empty()),
        None => Err(Error::UnresolvedVariable(String::from_str(var))),
    }
}

/// Evaluate the given expressions.
///
/// This is true if both expand to the same text, whitespace around it
/// aside. It fails if the session does not know one of the expansions; if it
/// knows neither, it names the first.
pub fn evaluate_expr(var1: &str, var2: &str, session: &Session) -> (outcome: Result<bool, Error>)
    ensures
        match spec_evaluate_expr(var1@, var2@, session@) {
            Ok(equal) => outcome == Ok::<bool, Error>(equal),
            Err(failure) => outcome matches Err(e) && e@ == failure,
        },
{
    match session.expansion(var1) {
        Some(left) => match session.expansion(var2) {
            Some(right) => Ok(same_text(trim(left), trim(right))),
            None => Err(Error::UnresolvedVariable(String::from_str(var2))),
        },
        None => Err(Error::UnresolvedVariable(String::from_str(var1))),
    }
}

/// Whether the first branch of the conditional that `opener` opens is kept.
fn evaluate_condition(opener: &Command, session: &Session) -> (outcome: Result<bool, Error>)
    ensures
        match condition(opener@, session@) {
            Ok(holds) => outcome == Ok::<bool, Error>(holds),
            Err(failure) => outcome matches Err(e) && e@ == failure,
        },
{
    match opener {
        Command::IfDef(var) => evaluate_var(var.as_str(), session),
        Command::IfNDef(var) => match evaluate_var(var.as_str(), session) {
            Ok(defined) => Ok(!defined),
            Err(e) => Err(e),
        },
        Command::If(var1, var2) => evaluate_expr(var1.as_str(), var2.as_str(), session),
        _ => Ok(true),
    }
}

/// Reader of commands: it goes through the commands of a file block by
/// block and collects the lines to drop.
pub struct CommandReader<'a> {
    idx: usize,
    skips: HashSet<usize>,
    cmds: &'a [(usize, Command)],
    session: &'a Session,
}

impl<'a> CommandReader<'a> {
    /// The index of the command that is read next.
    pub closed spec fn position(&self) -> int {
        self.idx as int
    }

    /// The lines dropped so far.
    pub closed spec fn dropped(&self) -> Set<usize> {
        self.skips@
    }

    /// The commands that are read.
    pub closed spec fn program(&self) -> Seq<(usize, Directive)> {
        located(self.cmds@)
    }

    /// What is known of expansions and answers.
    pub closed spec fn knowledge(&self) -> Knowledge {
        self.session@
    }

    /// Whether the reader went from `self` to `after` as `step` says: on
    /// success it stands at the step's end and has dropped the step's lines
    /// as well; on failure it reports the step's failure.
    pub open spec fn advanced(&self, after: &Self, outcome: Result<(), Error>, step: Step) -> bool {
        &&& after.program() == self.program()
        &&& after.knowledge() == self.knowledge()
        &&& match step {
            Step::Done { next, skips } => {
                &&& outcome is Ok
                &&& after.position() == next
                &&& after.dropped() == self.dropped() + skips
            },
            Step::Failed(failure) => outcome matches Err(e) && e@ == failure,
        }
    }

    /// Whether there is a command left to read.
    pub open spec fn has_next(&self) -> bool {
        0 <= self.position() < self.program().len()
    }

    /// The command that is read next.
    pub open spec fn next(&self) -> Directive
        recommends
            self.has_next(),
    {
        self.program()[self.position()].1
    }

    /// Create a new CommandReader, that will read the given commands.
    pub fn new(cmds: &'a [(usize, Command)], session: &'a Session) -> (reader: Self)
        ensures
            reader.position() == 0,
            reader.dropped() == Set::<usize>::empty(),
            reader.program() == located(cmds@),
            reader.knowledge() == session@,
    {
        CommandReader { idx: 0, skips: HashSet::new(), cmds, session }
    }

    /// The index of the command that is read next.
    pub fn idx(&self) -> (idx: usize)
        ensures
            idx == self.position(),
    {
        self.idx
    }

    /// The lines dropped so far.
    pub fn skips(&self) -> (skips: &HashSet<usize>)
        ensures
            skips@ == self.dropped(),
    {
        &self.skips
    }

    /// Read and evaluate the given commands.
    ///
    /// Returns the set of lines to skip, or the first failure: a directive
    /// without its block, a block without its end, an unknown expansion or
    /// an unanswered question.
    pub fn read(cmds: &'a [(usize, Command)], session: &'a Session) -> (outcome: Result<
        HashSet<usize>,
        Error,
    >)
        ensures
            match evaluate(located(cmds@), session@) {
                Ok(skips) => outcome matches Ok(set) && set@ == skips,
                Err(failure) => outcome matches Err(e) && e@ == failure,
            },
    {
        let mut reader = Self::new(cmds, session);
        proof {
            let whole = evaluate(located(cmds@), session@);
            if let Ok(skips) = whole {
                assert(reader.skips@ + skips =~= skips);
            }
        }
        while reader.idx < cmds.len()
            invariant
                reader.program() == located(cmds@),
                reader.knowledge() == session@,
                reader.idx <= cmds@.len(),
                evaluate(located(cmds@), session@) == and_skips(
                    eval_from(located(cmds@), session@, reader.idx as int),
                    reader.skips@,
                ),
            decreases cmds@.len() - reader.idx,
        {
            proof {
                lemma_block_advances(located(cmds@), session@, reader.idx as int);
            }
            let ghost before = reader.skips@;
            let ghost at = reader.idx as int;
            match reader.read_cmd() {
                Ok(()) => {
                    proof {
                        let step = eval_block(located(cmds@), session@, at);
                        let more = eval_from(located(cmds@), session@, reader.idx as int);
                        if let Ok(skips) = more {
                            assert(before + (step->skips + skips) =~= (before + step->skips)
                                + skips);
                        }
                    }
                },
                Err(e) => {
                    return Err(e);
                },
            }
        }
        proof {
            assert(reader.skips@ + Set::<usize>::empty() =~= reader.skips@);
        }
        Ok(reader.skips)
    }

    /// Drops the lines strictly between `from` and `to`.
    fn skip_between(&mut self, from: usize, to: usize)
        ensures
            final(self).idx == old(self).idx,
            final(self).cmds == old(self).cmds,
            final(self).session == old(self).session,
            final(self).skips@ == old(self).skips@ + between(from, to),
    {
        if from < to {
            let mut line: usize = from + 1;
            while line < to
                invariant
                    from < line <= to,
                    self.idx == old(self).idx,
                    self.cmds == old(self).cmds,
                    self.session == old(self).session,
                    self.skips@ == old(self).skips@ + between(from, line),
                decreases to - line,
            {
                self.skips.insert(line);
                proof {
                    assert(between(from, line).insert(line) =~= between(from, (line + 1) as usize));
                    assert((old(self).skips@ + between(from, line)).insert(line) =~= old(
                        self,
                    ).skips@ + between(from, line).insert(line));
                }
                line += 1;
            }
        } else {
            assert(old(self).skips@ + between(from, to) =~= old(self).skips@);
        }
    }

    /// Drops the branch of a conditional that is not taken.
    fn skip_branch(
        &mut self,
        holds: bool,
        open_line: usize,
        else_line: Option<usize>,
        close_line: usize,
    )
        ensures
            final(self).idx == old(self).idx,
            final(self).cmds == old(self).cmds,
            final(self).session == old(self).session,
            final(self).skips@ == old(self).skips@ + branch_skips(
                holds,
                open_line,
                else_line,
                close_line,
            ),
    {
        match (holds, else_line) {
            (true, Some(middle)) => self.skip_between(middle, close_line),
            (true, None) => {
                assert(self.skips@ + Set::<usize>::empty() =~= self.skips@);
            },
            (false, Some(middle)) => self.skip_between(open_line, middle),
            (false, None) => self.skip_between(open_line, close_line),
        }
    }

    /// Drops every segment of a question but the body of the option
    /// `selected`.
    fn skip_choice(
        &mut self,
        selected: usize,
        open_line: usize,
        option_lines: &Vec<usize>,
        close_line: usize,
    )
        ensures
            final(self).idx == old(self).idx,
            final(self).cmds == old(self).cmds,
            final(self).session == old(self).session,
            final(self).skips@ == old(self).skips@ + choice_skips(
                selected,
                open_line,
                option_lines@,
                close_line,
            ),
    {
        let ghost bounds = bounds(open_line, option_lines@, close_line);
        let mut last: usize = open_line;
        let mut keep: bool = false;
        let mut i: usize = 0;
        proof {
            assert(self.skips@ + segment_skips(selected, bounds, 0) =~= self.skips@);
        }
        while i < option_lines.len()
            invariant
                i <= option_lines.len(),
                bounds == crate::semantics::bounds(open_line, option_lines@, close_line),
                last == bounds[i as int],
                keep == (i == selected + 1),
                self.idx == old(self).idx,
                self.cmds == old(self).cmds,
                self.session == old(self).session,
                self.skips@ == old(self).skips@ + segment_skips(selected, bounds, i as int),
            decreases option_lines.len() - i,
        {
            let line = option_lines[i];
            let ghost before = self.skips@;
            if !keep {
                self.skip_between(last, line);
            }
            proof {
                let grown = segment_skips(selected, bounds, i + 1);
                let known = segment_skips(selected, bounds, i as int);
                assert(bounds[i + 1] == line);
                assert forall|l: usize| grown.contains(l) <==> known.contains(l) || (!keep
                    && between(last, line).contains(l)) by {
                    if !keep && between(last, line).contains(l) {
                        assert(in_segment(bounds, i as int, l));
                    }
                }
                assert(self.skips@ =~= old(self).skips@ + grown);
            }
            keep = i == selected;
            last = line;
            i += 1;
        }
        let ghost n = option_lines@.len() as int;
        if !keep {
            self.skip_between(last, close_line);
        }
        proof {
            let grown = segment_skips(selected, bounds, n + 1);
            let known = segment_skips(selected, bounds, n);
            assert(bounds[n + 1] == close_line);
            assert forall|l: usize| grown.contains(l) <==> known.contains(l) || (!keep && between(
                last,
                close_line,
            ).contains(l)) by {
                if !keep && between(last, close_line).contains(l) {
                    assert(in_segment(bounds, n, l));
                }
            }
            assert(self.skips@ =~= old(self).skips@ + grown);
        }
    }

    /// Drops what the answer to a question does not keep.
    fn skip_answer(
        &mut self,
        answer: Answer,
        open_line: usize,
        option_lines: &Vec<usize>,
        close_line: usize,
    )
        ensures
            final(self).idx == old(self).idx,
            final(self).cmds == old(self).cmds,
            final(self).session == old(self).session,
            final(self).skips@ == old(self).skips@ + answer_skips(
                answer,
                open_line,
                option_lines@,
                close_line,
            ),
    {
        match answer {
            Answer::Option(selected) => self.skip_choice(
                selected,
                open_line,
                option_lines,
                close_line,
            ),
            Answer::YesNo(keep) => {
                if !keep {
                    self.skip_between(open_line, close_line);
                } else {
                    assert(self.skips@ + Set::<usize>::empty() =~= self.skips@);
                }
            },
        }
    }

    /// Ask the user the given question.
    ///
    /// The answer is the one that the session holds for the question with
    /// these options. If it holds none, the question has yet to be put to
    /// the user: that is the failure returned.
    pub fn ask_question(&self, question: &str, options: &Vec<String>) -> (outcome: Result<
        Answer,
        Error,
    >)
        ensures
            match outcome {
                Ok(answer) => {
                    &&& self.knowledge().answers.contains_key((question@, options.deep_view()))
                    &&& self.knowledge().answers[(question@, options.deep_view())] == answer
                },
                Err(e) => {
                    &&& !self.knowledge().answers.contains_key((question@, options.deep_view()))
                    &&& e@ == Failure::UnansweredQuestion(question@, options.deep_view())
                },
            },
    {
        match self.session.answered(question, options) {
            Some(answer) => Ok(answer),
            None => Err(
                Error::UnansweredQuestion(String::from_str(question), copy_labels(options)),
            ),
        }
    }

    /// Read a comment: it is passed over.
    pub fn read_comment(&mut self) -> (outcome: Result<(), Error>)
        requires
            old(self).has_next(),
            old(self).next() is Comment,
        ensures
            old(self).advanced(
                final(self),
                outcome,
                eval_block(old(self).program(), old(self).knowledge(), old(self).position()),
            ),
    {
        proof {
            vstd::slice::axiom_spec_len(self.cmds);
        }
        self.idx += 1;
        proof {
            assert(self.skips@ + Set::<usize>::empty() =~= self.skips@);
        }
        Ok(())
    }

    /// Read the command at the current position: a whole block, if it opens
    /// one.
    pub fn read_cmd(&mut self) -> (outcome: Result<(), Error>)
        requires
            old(self).has_next(),
        ensures
            old(self).advanced(
                final(self),
                outcome,
                eval_block(old(self).program(), old(self).knowledge(), old(self).position()),
            ),
        decreases old(self).program().len() - old(self).position(), 2int,
    {
        let cmds = self.cmds;
        match &cmds[self.idx].1 {
            Command::IfDef(_) => self.read_cmd_ifdef(),
            Command::IfNDef(_) => self.read_cmd_ifndef(),
            Command::If(_, _) => self.read_cmd_if(),
            Command::Ask(_) => self.read_cmd_ask(),
            Command::Comment => self.read_comment(),
            stray => Err(Error::StrayDirective(cmds[self.idx].0, stray.clone())),
        }
    }

    /// Read the block that the `IfDef` at the current position opens.
    pub fn read_cmd_ifdef(&mut self) -> (outcome: Result<(), Error>)
        requires
            old(self).has_next(),
            old(self).next() is IfDef,
        ensures
            old(self).advanced(
                final(self),
                outcome,
                eval_block(old(self).program(), old(self).knowledge(), old(self).position()),
            ),
        decreases old(self).program().len() - old(self).position(), 1int,
    {
        self.read_conditional()
    }

    /// Read the block that the `IfNDef` at the current position opens.
    pub fn read_cmd_ifndef(&mut self) -> (outcome: Result<(), Error>)
        requires
            old(self).has_next(),
            old(self).next() is IfNDef,
        ensures
            old(self).advanced(
                final(self),
                outcome,
                eval_block(old(self).program(), old(self).knowledge(), old(self).position()),
            ),
        decreases old(self).program().len() - old(self).position(), 1int,
    {
        self.read_conditional()
    }

    /// Read the block that the `If` at the current position opens.
    pub fn read_cmd_if(&mut self) -> (outcome: Result<(), Error>)
        requires
            old(self).has_next(),
            old(self).next() is If,
        ensures
            old(self).advanced(
                final(self),
                outcome,
                eval_block(old(self).program(), old(self).knowledge(), old(self).position()),
            ),
        decreases old(self).program().len() - old(self).position(), 1int,
    {
        self.read_conditional()
    }

    /// Read the conditional that the command at the current position opens:
    /// its nested blocks, at most one `Else`, and its `EndIf`, at which the
    /// condition is evaluated and the branch not taken is dropped.
    fn read_conditional(&mut self) -> (outcome: Result<(), Error>)
        requires
            old(self).has_next(),
            is_conditional(old(self).next()),
        ensures
            old(self).advanced(
                final(self),
                outcome,
                eval_block(old(self).program(), old(self).knowledge(), old(self).position()),
            ),
        decreases old(self).program().len() - old(self).position(), 0int,
    {
        let cmds = self.cmds;
        let session = self.session;
        let open = self.idx;
        let open_line = cmds[open].0;
        let ghost program = located(cmds@);
        let ghost know = session@;
        let ghost whole = scan_conditional(program, know, open as int, open + 1, None);
        assert(program[open as int] == (cmds@[open as int].0, cmds@[open as int].1@));
        assert(eval_block(program, know, open as int) == whole);
        let mut else_line: Option<usize> = None;
        let ghost mut added: Set<usize> = Set::empty();
        self.idx += 1;
        proof {
            assert(self.skips@ + added =~= self.skips@);
            assert(whole.with(added) == whole) by {
                if let Step::Done { next, skips } = whole {
                    assert(added + skips =~= skips);
                }
            }
        }
        while self.idx < cmds.len()
            invariant
                self.program() == program,
                self.knowledge() == know,
                cmds == old(self).cmds,
                session == old(self).session,
                program == located(cmds@),
                know == session@,
                open == old(self).idx,
                open < self.idx <= cmds@.len(),
                eval_block(program, know, open as int) == whole,
                open_line == cmds@[open as int].0,
                is_conditional(cmds@[open as int].1@),
                self.skips@ == old(self).skips@ + added,
                whole == scan_conditional(
                    program,
                    know,
                    open as int,
                    self.idx as int,
                    else_line,
                ).with(added),
            decreases cmds@.len() - self.idx,
        {
            let at = self.idx;
            let line = cmds[at].0;
            assert(program[at as int] == (cmds@[at as int].0, cmds@[at as int].1@));
            match &cmds[at].1 {
                Command::Else => {
                    if else_line.is_some() {
                        return Err(Error::StrayDirective(line, Command::Else));
                    }
                    else_line = Some(line);
                    self.idx += 1;
                },
                Command::EndIf => {
                    let holds = match evaluate_condition(&cmds[open].1, session) {
                        Ok(holds) => holds,
                        Err(e) => {
                            return Err(e);
                        },
                    };
                    self.skip_branch(holds, open_line, else_line, line);
                    self.idx += 1;
                    proof {
                        let own = branch_skips(holds, open_line, else_line, line);
                        assert(self.skips@ =~= old(self).skips@ + (added + own));
                    }
                    return Ok(());
                },
                _ => {
                    proof {
                        lemma_block_advances(program, know, at as int);
                    }
                    let ghost before = self.skips@;
                    match self.read_cmd() {
                        Ok(()) => {
                            proof {
                                let inner = eval_block(program, know, at as int)->skips;
                                let rest = scan_conditional(
                                    program,
                                    know,
                                    open as int,
                                    self.idx as int,
                                    else_line,
                                );
                                assert(rest.with(inner).with(added) == rest.with(added + inner))
                                    by {
                                    if let Step::Done { next, skips } = rest {
                                        assert(added + (inner + skips) =~= (added + inner)
                                            + skips);
                                    }
                                }
                                assert(self.skips@ =~= old(self).skips@ + (added + inner));
                                added = added + inner;
                            }
                        },
                        Err(e) => {
                            return Err(e);
                        },
                    }
                },
            }
        }
        Err(Error::MissingClosingDirective(open_line, cmds[open].1.clone()))
    }

    /// Read the block that the `Ask` at the current position opens: its
    /// nested blocks, its options, and its `EndAsk`, at which the question is
    /// answered and what the answer does not keep is dropped.
    pub fn read_cmd_ask(&mut self) -> (outcome: Result<(), Error>)
        requires
            old(self).has_next(),
            old(self).next() is Ask,
        ensures
            old(self).advanced(
                final(self),
                outcome,
                eval_block(old(self).program(), old(self).knowledge(), old(self).position()),
            ),
        decreases old(self).program().len() - old(self).position(), 1int,
    {
        let cmds = self.cmds;
        let session = self.session;
        let open = self.idx;
        let open_line = cmds[open].0;
        let question: &String = match &cmds[open].1 {
            Command::Ask(question) => question,
            _ => unreached(),
        };
        let ghost program = located(cmds@);
        let ghost know = session@;
        let ghost whole = scan_question(
            program,
            know,
            open as int,
            open + 1,
            Seq::empty(),
            Seq::empty(),
        );
        assert(program[open as int] == (cmds@[open as int].0, cmds@[open as int].1@));
        assert(eval_block(program, know, open as int) == whole);
        let mut options: Vec<String> = Vec::new();
        let mut option_lines: Vec<usize> = Vec::new();
        let ghost mut added: Set<usize> = Set::empty();
        self.idx += 1;
        proof {
            assert(self.skips@ + added =~= self.skips@);
            assert(options.deep_view() =~= Seq::<Seq<char>>::empty());
            assert(whole.with(added) == whole) by {
                if let Step::Done { next, skips } = whole {
                    assert(added + skips =~= skips);
                }
            }
        }
        while self.idx < cmds.len()
            invariant
                self.program() == program,
                self.knowledge() == know,
                cmds == old(self).cmds,
                session == old(self).session,
                program == located(cmds@),
                know == session@,
                open == old(self).idx,
                open < self.idx <= cmds@.len(),
                eval_block(program, know, open as int) == whole,
                open_line == cmds@[open as int].0,
                cmds@[open as int].1@ == Directive::Ask(question@),
                self.skips@ == old(self).skips@ + added,
                whole == scan_question(
                    program,
                    know,
                    open as int,
                    self.idx as int,
                    options.deep_view(),
                    option_lines@,
                ).with(added),
            decreases cmds@.len() - self.idx,
        {
            let at = self.idx;
            let line = cmds[at].0;
            assert(program[at as int] == (cmds@[at as int].0, cmds@[at as int].1@));
            match &cmds[at].1 {
                Command::Option(label) => {
                    let ghost labels = options.deep_view();
                    options.push(label.clone());
                    option_lines.push(line);
                    self.idx += 1;
                    proof {
                        assert(options.deep_view() =~= labels.push(label@));
                    }
                },
                Command::EndAsk => {
                    let answer = match self.ask_question(question.as_str(), &options) {
                        Ok(answer) => answer,
                        Err(e) => {
                            return Err(e);
                        },
                    };
                    self.skip_answer(answer, open_line, &option_lines, line);
                    self.idx += 1;
                    proof {
                        let own = answer_skips(answer, open_line, option_lines@, line);
                        assert(self.skips@ =~= old(self).skips@ + (added + own));
                    }
                    return Ok(());
                },
                _ => {
                    proof {
                        lemma_block_advances(program, know, at as int);
                    }
                    match self.read_cmd() {
                        Ok(()) => {
                            proof {
                                let inner = eval_block(program, know, at as int)->skips;
                                let rest = scan_question(
                                    program,
                                    know,
                                    open as int,
                                    self.idx as int,
                                    options.deep_view(),
                                    option_lines@,
                                );
                                assert(rest.with(inner).with(added) == rest.with(added + inner))
                                    by {
                                    if let Step::Done { next, skips } = rest {
                                        assert(added + (inner + skips) =~= (added + inner)
                                            + skips);
                                    }
                                }
                                assert(self.skips@ =~= old(self).skips@ + (added + inner));
                                added = added + inner;
                            }
                        },
                        Err(e) => {
                            return Err(e);
                        },
                    }
                },
            }
        }
        Err(Error::MissingClosingDirective(open_line, cmds[open].1.clone()))
    }
}

} // verus!
