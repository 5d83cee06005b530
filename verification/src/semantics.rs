//! What a sequence of located directives means: which lines it drops, or how
//! it fails. This is the yardstick that the command reader is proved against.
//!
//! A located directive is a pair of the line it stands on and the directive.
//! Blocks are found by one pass from left to right. An opening directive
//! starts a block that runs to its closing directive; blocks nest.

use vstd::prelude::*;
use crate::command::Directive;
use crate::error::Failure;
use crate::session::Answer;
use crate::session::Knowledge;
use crate::text::trimmed;

verus! {

/// How the evaluation of one block ends.
pub enum Step {
    /// The block is closed. Evaluation goes on at index `next`, and the lines
    /// in `skips` are dropped.
    Done { next: int, skips: Set<usize> },
    /// The block is malformed, or something it depends on is not known.
    Failed(Failure),
}

impl Step {
    /// The same step, with `more` lines dropped if it is done.
    pub open spec fn with(self, more: Set<usize>) -> Step {
        match self {
            Step::Done { next, skips } => Step::Done { next, skips: more + skips },
            Step::Failed(failure) => self,
        }
    }
}

/// The lines strictly between `from` and `to`.
pub open spec fn between(from: usize, to: usize) -> Set<usize> {
    Set::new(|line: usize| from < line < to)
}

/// Whether `text` is empty but for whitespace.
pub open spec fn is_blank(text: Seq<char>) -> bool {
    trimmed(text).len() == 0
}

/// Whether the variable expression `var` expands to something that is not
/// blank.
pub open spec fn spec_evaluate_var(var: Seq<char>, know: Knowledge) -> Result<bool, Failure> {
    if know.expansions.contains_key(var) {
        Ok(!is_blank(know.expansions[var]))
    } else {
        Err(Failure::UnresolvedVariable(var))
    }
}

/// Whether the two expressions expand to the same text, whitespace around it
/// aside. The left one is asked for first.
pub open spec fn spec_evaluate_expr(left: Seq<char>, right: Seq<char>, know: Knowledge) -> Result<
    bool,
    Failure,
> {
    if !know.expansions.contains_key(left) {
        Err(Failure::UnresolvedVariable(left))
    } else if !know.expansions.contains_key(right) {
        Err(Failure::UnresolvedVariable(right))
    } else {
        Ok(trimmed(know.expansions[left]) == trimmed(know.expansions[right]))
    }
}

/// Whether the directive opens a conditional.
pub open spec fn is_conditional(directive: Directive) -> bool {
    directive is IfDef || directive is IfNDef || directive is If
}

/// Whether the directive opens a block.
pub open spec fn is_opener(directive: Directive) -> bool {
    is_conditional(directive) || directive is Ask
}

/// Whether the directive only has a meaning inside a block.
pub open spec fn is_inner(directive: Directive) -> bool {
    directive is Else || directive is EndIf || directive is Option || directive is EndAsk
}

/// Whether the first branch of the conditional opened by `opener` is kept.
pub open spec fn condition(opener: Directive, know: Knowledge) -> Result<bool, Failure> {
    match opener {
        Directive::IfDef(var) => spec_evaluate_var(var, know),
        Directive::IfNDef(var) => match spec_evaluate_var(var, know) {
            Ok(defined) => Ok(!defined),
            Err(failure) => Err(failure),
        },
        Directive::If(left, right) => spec_evaluate_expr(left, right, know),
        _ => Ok(true),
    }
}

/// The lines that a conditional drops by itself, its nested blocks aside:
/// the branch that is not taken.
pub open spec fn branch_skips(
    holds: bool,
    open_line: usize,
    else_line: Option<usize>,
    close_line: usize,
) -> Set<usize> {
    match (holds, else_line) {
        (true, None) => Set::empty(),
        (true, Some(middle)) => between(middle, close_line),
        (false, None) => between(open_line, close_line),
        (false, Some(middle)) => between(open_line, middle),
    }
}

/// The lines that bound the segments of a question with options: the line of
/// `Ask`, the lines of the options, the line of `EndAsk`. Segment `i` lies
/// between bounds `i` and `i + 1`; segment 0 belongs to no option, segment
/// `i + 1` is the body of option `i`.
pub open spec fn bounds(open_line: usize, option_lines: Seq<usize>, close_line: usize) -> Seq<
    usize,
> {
    seq![open_line] + option_lines + seq![close_line]
}

/// Whether `line` lies in segment `i`: strictly between bounds `i` and
/// `i + 1`.
pub open spec fn in_segment(bounds: Seq<usize>, i: int, line: usize) -> bool {
    bounds[i] < line < bounds[i + 1]
}

/// The lines of the segments before segment `upto`, but for the body of the
/// option `selected`.
pub open spec fn segment_skips(selected: usize, bounds: Seq<usize>, upto: int) -> Set<usize> {
    Set::new(
        |line: usize|
            exists|i: int|
                0 <= i < upto && i != selected + 1 && #[trigger] in_segment(bounds, i, line),
    )
}

/// The lines of all segments but the body of the option `selected`.
pub open spec fn choice_skips(
    selected: usize,
    open_line: usize,
    option_lines: Seq<usize>,
    close_line: usize,
) -> Set<usize> {
    segment_skips(
        selected,
        bounds(open_line, option_lines, close_line),
        option_lines.len() as int + 1,
    )
}

/// The lines that a question drops by itself, its nested blocks aside.
pub open spec fn answer_skips(
    answer: Answer,
    open_line: usize,
    option_lines: Seq<usize>,
    close_line: usize,
) -> Set<usize> {
    match answer {
        Answer::YesNo(keep) => if keep {
            Set::empty()
        } else {
            between(open_line, close_line)
        },
        Answer::Option(selected) => choice_skips(selected, open_line, option_lines, close_line),
    }
}

/// The block, or the single directive, at index `at`.
///
/// A conditional or a question is scanned to its end. A comment is passed
/// over. A directive that only has a meaning inside a block is stray here.
pub open spec fn eval_block(cmds: Seq<(usize, Directive)>, know: Knowledge, at: int) -> Step
    recommends
        0 <= at < cmds.len(),
    decreases cmds.len() - at, 0int,
    when 0 <= at < cmds.len()
{
    let (line, directive) = cmds[at];
    match directive {
        Directive::IfDef(_) | Directive::IfNDef(_) | Directive::If(_, _) => scan_conditional(
            cmds,
            know,
            at,
            at + 1,
            None,
        ),
        Directive::Ask(_) => scan_question(cmds, know, at, at + 1, Seq::empty(), Seq::empty()),
        Directive::Comment => Step::Done { next: at + 1, skips: Set::empty() },
        _ => Step::Failed(Failure::StrayDirective(line, directive)),
    }
}

/// The rest of the conditional opened at index `open`, from index `at` on,
/// where `else_line` is the line of the `Else` seen so far.
///
/// `EndIf` closes the block: the condition is evaluated, and the branch not
/// taken is dropped. An `Else` is noted; a second one is stray. Anything
/// else is a nested block or a stray directive, and its lines are dropped
/// whatever becomes of this block. (The test on `next` is there to show
/// that the scan ends; it always holds.)
pub open spec fn scan_conditional(
    cmds: Seq<(usize, Directive)>,
    know: Knowledge,
    open: int,
    at: int,
    else_line: Option<usize>,
) -> Step
    recommends
        0 <= open < at,
        open < cmds.len(),
    decreases cmds.len() - at, 1int,
    when 0 <= at
{
    if at >= cmds.len() {
        Step::Failed(Failure::MissingClosingDirective(cmds[open].0, cmds[open].1))
    } else {
        let (line, directive) = cmds[at];
        match directive {
            Directive::Else => if else_line is Some {
                Step::Failed(Failure::StrayDirective(line, directive))
            } else {
                scan_conditional(cmds, know, open, at + 1, Some(line))
            },
            Directive::EndIf => match condition(cmds[open].1, know) {
                Ok(holds) => Step::Done {
                    next: at + 1,
                    skips: branch_skips(holds, cmds[open].0, else_line, line),
                },
                Err(failure) => Step::Failed(failure),
            },
            _ => match eval_block(cmds, know, at) {
                Step::Done { next, skips } => if at < next <= cmds.len() {
                    scan_conditional(cmds, know, open, next, else_line).with(skips)
                } else {
                    Step::Done { next, skips }
                },
                Step::Failed(failure) => Step::Failed(failure),
            },
        }
    }
}

/// The rest of the question opened at index `open`, from index `at` on,
/// where `labels` and `option_lines` are the labels and lines of the options
/// seen so far.
///
/// `EndAsk` closes the block: the answer to the question with its options is
/// looked up, and all but what it selects is dropped. An `Option` is noted.
/// Anything else is a nested block or a stray directive. (The test on
/// `next` is there to show that the scan ends; it always holds.)
pub open spec fn scan_question(
    cmds: Seq<(usize, Directive)>,
    know: Knowledge,
    open: int,
    at: int,
    labels: Seq<Seq<char>>,
    option_lines: Seq<usize>,
) -> Step
    recommends
        0 <= open < at,
        open < cmds.len(),
        cmds[open].1 is Ask,
    decreases cmds.len() - at, 1int,
    when 0 <= at
{
    if at >= cmds.len() {
        Step::Failed(Failure::MissingClosingDirective(cmds[open].0, cmds[open].1))
    } else {
        let (line, directive) = cmds[at];
        match directive {
            Directive::Option(label) => scan_question(
                cmds,
                know,
                open,
                at + 1,
                labels.push(label),
                option_lines.push(line),
            ),
            Directive::EndAsk => {
                let question = cmds[open].1->Ask_0;
                if know.answers.contains_key((question, labels)) {
                    Step::Done {
                        next: at + 1,
                        skips: answer_skips(
                            know.answers[(question, labels)],
                            cmds[open].0,
                            option_lines,
                            line,
                        ),
                    }
                } else {
                    Step::Failed(Failure::UnansweredQuestion(question, labels))
                }
            },
            _ => match eval_block(cmds, know, at) {
                Step::Done { next, skips } => if at < next <= cmds.len() {
                    scan_question(cmds, know, open, next, labels, option_lines).with(skips)
                } else {
                    Step::Done { next, skips }
                },
                Step::Failed(failure) => Step::Failed(failure),
            },
        }
    }
}

/// The lines dropped by the blocks from index `at` to the end of the
/// sequence, or the first failure among them.
pub open spec fn eval_from(cmds: Seq<(usize, Directive)>, know: Knowledge, at: int) -> Result<
    Set<usize>,
    Failure,
>
    decreases cmds.len() - at,
{
    if at < 0 || at >= cmds.len() {
        Ok(Set::empty())
    } else {
        match eval_block(cmds, know, at) {
            Step::Done { next, skips } => if at < next <= cmds.len() {
                match eval_from(cmds, know, next) {
                    Ok(more) => Ok(skips + more),
                    Err(failure) => Err(failure),
                }
            } else {
                Ok(skips)
            },
            Step::Failed(failure) => Err(failure),
        }
    }
}

/// The lines that the whole sequence drops, or its first failure.
pub open spec fn evaluate(cmds: Seq<(usize, Directive)>, know: Knowledge) -> Result<
    Set<usize>,
    Failure,
> {
    eval_from(cmds, know, 0)
}

/// The same outcome, with `more` lines dropped if it is a success.
pub open spec fn and_skips(outcome: Result<Set<usize>, Failure>, more: Set<usize>) -> Result<
    Set<usize>,
    Failure,
> {
    match outcome {
        Ok(skips) => Ok(more + skips),
        Err(failure) => Err(failure),
    }
}

/// A block that is done ends after where it began, and within the sequence.
/// So the guards on `next` in the definitions above always hold.
pub proof fn lemma_block_advances(cmds: Seq<(usize, Directive)>, know: Knowledge, at: int)
    requires
        0 <= at < cmds.len(),
    ensures
        eval_block(cmds, know, at) matches Step::Done { next, .. } ==> at < next <= cmds.len(),
    decreases cmds.len() - at, 0int,
{
    let (line, directive) = cmds[at];
    match directive {
        Directive::IfDef(_) | Directive::IfNDef(_) | Directive::If(_, _) => {
            lemma_conditional_advances(cmds, know, at, at + 1, None);
        },
        Directive::Ask(_) => {
            lemma_question_advances(cmds, know, at, at + 1, Seq::empty(), Seq::empty());
        },
        _ => {},
    }
}

/// A conditional that is done ends after the point it was scanned from.
pub proof fn lemma_conditional_advances(
    cmds: Seq<(usize, Directive)>,
    know: Knowledge,
    open: int,
    at: int,
    else_line: Option<usize>,
)
    requires
        0 <= at <= cmds.len(),
    ensures
        scan_conditional(cmds, know, open, at, else_line) matches Step::Done { next, .. } ==> at
            < next <= cmds.len(),
    decreases cmds.len() - at, 1int,
{
    if at < cmds.len() {
        let (line, directive) = cmds[at];
        match directive {
            Directive::Else => {
                if else_line is None {
                    lemma_conditional_advances(cmds, know, open, at + 1, Some(line));
                }
            },
            Directive::EndIf => {},
            _ => {
                lemma_block_advances(cmds, know, at);
                if let Step::Done { next, skips } = eval_block(cmds, know, at) {
                    lemma_conditional_advances(cmds, know, open, next, else_line);
                }
            },
        }
    }
}

/// A question that is done ends after the point it was scanned from.
pub proof fn lemma_question_advances(
    cmds: Seq<(usize, Directive)>,
    know: Knowledge,
    open: int,
    at: int,
    labels: Seq<Seq<char>>,
    option_lines: Seq<usize>,
)
    requires
        0 <= at <= cmds.len(),
    ensures
        scan_question(cmds, know, open, at, labels, option_lines) matches Step::Done {
            next,
            ..
        } ==> at < next <= cmds.len(),
    decreases cmds.len() - at, 1int,
{
    if at < cmds.len() {
        let (line, directive) = cmds[at];
        match directive {
            Directive::Option(label) => {
                lemma_question_advances(
                    cmds,
                    know,
                    open,
                    at + 1,
                    labels.push(label),
                    option_lines.push(line),
                );
            },
            Directive::EndAsk => {},
            _ => {
                lemma_block_advances(cmds, know, at);
                if let Step::Done { next, skips } = eval_block(cmds, know, at) {
                    lemma_question_advances(cmds, know, open, next, labels, option_lines);
                }
            },
        }
    }
}

} // verus!
