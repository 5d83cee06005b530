//! What holds of every directive sequence, proved from the definitions in
//! `semantics`: which directives are stray, that a block that is not closed
//! fails and what its failure holds, what a block without nested blocks
//! drops, that an answered question is not asked again, that the lines of a
//! nested block are dropped whatever becomes of the block around it, which
//! body a selection keeps, and the ways in which an evaluation can fail.

use vstd::prelude::*;
use crate::command::Directive;
use crate::error::Failure;
use crate::semantics::Step;
use crate::semantics::answer_skips;
use crate::semantics::between;
use crate::semantics::branch_skips;
use crate::semantics::condition;
use crate::semantics::bounds;
use crate::semantics::choice_skips;
use crate::semantics::eval_block;
use crate::semantics::eval_from;
use crate::semantics::evaluate;
use crate::semantics::in_segment;
use crate::semantics::is_conditional;
use crate::semantics::is_inner;
use crate::semantics::is_opener;
use crate::semantics::lemma_block_advances;
use crate::semantics::scan_conditional;
use crate::semantics::scan_question;
use crate::session::Answer;
use crate::session::Knowledge;

verus! {

/// Whether the evaluation that starts at index `from` comes to index `at`
/// between two blocks: the blocks from `from` on are done, one after the
/// other, and one of them ends where `at` begins.
pub open spec fn reaches(cmds: Seq<(usize, Directive)>, know: Knowledge, from: int, at: int) -> bool
    decreases cmds.len() - from,
{
    if from == at {
        true
    } else if 0 <= from < at && from < cmds.len() {
        match eval_block(cmds, know, from) {
            Step::Done { next, skips } => from < next <= cmds.len() && reaches(
                cmds,
                know,
                next,
                at,
            ),
            Step::Failed(_) => false,
        }
    } else {
        false
    }
}

/// An `Else`, `EndIf`, `Option` or `EndAsk` outside of every block is stray:
/// the evaluation fails with it as soon as it comes to it.
pub proof fn lemma_stray_outside_blocks(cmds: Seq<(usize, Directive)>, know: Knowledge, at: int)
    requires
        0 <= at < cmds.len(),
        is_inner(cmds[at].1),
        reaches(cmds, know, 0, at),
    ensures
        evaluate(cmds, know) == Err::<Set<usize>, Failure>(
            Failure::StrayDirective(cmds[at].0, cmds[at].1),
        ),
{
    lemma_stray_from(cmds, know, 0, at);
}

/// The same, for an evaluation that starts at index `from`.
pub proof fn lemma_stray_from(cmds: Seq<(usize, Directive)>, know: Knowledge, from: int, at: int)
    requires
        0 <= from <= at < cmds.len(),
        is_inner(cmds[at].1),
        reaches(cmds, know, from, at),
    ensures
        eval_from(cmds, know, from) == Err::<Set<usize>, Failure>(
            Failure::StrayDirective(cmds[at].0, cmds[at].1),
        ),
    decreases cmds.len() - from,
{
    if from < at {
        let next = eval_block(cmds, know, from)->next;
        assert(reaches(cmds, know, next, at));
        lemma_stray_from(cmds, know, next, at);
    }
}

/// Inside a conditional, an `Option` or an `EndAsk` that no nested question
/// takes is stray, and so is a second `Else`.
pub proof fn lemma_stray_in_conditional(
    cmds: Seq<(usize, Directive)>,
    know: Knowledge,
    open: int,
    at: int,
    else_line: Option<usize>,
)
    requires
        0 <= at < cmds.len(),
        cmds[at].1 is Option || cmds[at].1 is EndAsk || (cmds[at].1 is Else && else_line is Some),
    ensures
        scan_conditional(cmds, know, open, at, else_line) == Step::Failed(
            Failure::StrayDirective(cmds[at].0, cmds[at].1),
        ),
{
    assert(is_inner(cmds[at].1) ==> eval_block(cmds, know, at) == Step::Failed(
        Failure::StrayDirective(cmds[at].0, cmds[at].1),
    ));
}

/// Inside a question, an `Else` or an `EndIf` that no nested conditional
/// takes is stray.
pub proof fn lemma_stray_in_question(
    cmds: Seq<(usize, Directive)>,
    know: Knowledge,
    open: int,
    at: int,
    labels: Seq<Seq<char>>,
    option_lines: Seq<usize>,
)
    requires
        0 <= at < cmds.len(),
        cmds[at].1 is Else || cmds[at].1 is EndIf,
    ensures
        scan_question(cmds, know, open, at, labels, option_lines) == Step::Failed(
            Failure::StrayDirective(cmds[at].0, cmds[at].1),
        ),
{
    assert(eval_block(cmds, know, at) == Step::Failed(
        Failure::StrayDirective(cmds[at].0, cmds[at].1),
    ));
}

/// A conditional fails if no `EndIf` follows.
pub proof fn lemma_unclosed_conditional_fails(
    cmds: Seq<(usize, Directive)>,
    know: Knowledge,
    open: int,
    at: int,
    else_line: Option<usize>,
)
    requires
        0 <= at <= cmds.len(),
        forall|j: int| at <= j < cmds.len() ==> !((#[trigger] cmds[j]).1 is EndIf),
    ensures
        scan_conditional(cmds, know, open, at, else_line) is Failed,
    decreases cmds.len() - at,
{
    if at < cmds.len() {
        let (line, directive) = cmds[at];
        match directive {
            Directive::Else => {
                if else_line is None {
                    lemma_unclosed_conditional_fails(cmds, know, open, at + 1, Some(line));
                }
            },
            Directive::EndIf => {},
            _ => {
                lemma_block_advances(cmds, know, at);
                if let Step::Done { next, skips } = eval_block(cmds, know, at) {
                    lemma_unclosed_conditional_fails(cmds, know, open, next, else_line);
                }
            },
        }
    }
}

/// A question fails if no `EndAsk` follows.
pub proof fn lemma_unclosed_question_fails(
    cmds: Seq<(usize, Directive)>,
    know: Knowledge,
    open: int,
    at: int,
    labels: Seq<Seq<char>>,
    option_lines: Seq<usize>,
)
    requires
        0 <= at <= cmds.len(),
        forall|j: int| at <= j < cmds.len() ==> !((#[trigger] cmds[j]).1 is EndAsk),
    ensures
        scan_question(cmds, know, open, at, labels, option_lines) is Failed,
    decreases cmds.len() - at,
{
    if at < cmds.len() {
        let (line, directive) = cmds[at];
        match directive {
            Directive::Option(label) => {
                lemma_unclosed_question_fails(
                    cmds,
                    know,
                    open,
                    at + 1,
                    labels.push(label),
                    option_lines.push(line),
                );
            },
            Directive::EndAsk => {},
            _ => {
                lemma_block_advances(cmds, know, at);
                if let Step::Done { next, skips } = eval_block(cmds, know, at) {
                    lemma_unclosed_question_fails(cmds, know, open, next, labels, option_lines);
                }
            },
        }
    }
}

/// An opening directive whose closing directive never comes makes the
/// evaluation of its block fail.
pub proof fn lemma_unclosed_block_fails(cmds: Seq<(usize, Directive)>, know: Knowledge, open: int)
    requires
        0 <= open < cmds.len(),
        is_conditional(cmds[open].1) ==> forall|j: int|
            open < j < cmds.len() ==> !((#[trigger] cmds[j]).1 is EndIf),
        cmds[open].1 is Ask ==> forall|j: int|
            open < j < cmds.len() ==> !((#[trigger] cmds[j]).1 is EndAsk),
        is_opener(cmds[open].1),
    ensures
        eval_block(cmds, know, open) is Failed,
{
    if is_conditional(cmds[open].1) {
        lemma_unclosed_conditional_fails(cmds, know, open, open + 1, None);
    } else {
        lemma_unclosed_question_fails(cmds, know, open, open + 1, Seq::empty(), Seq::empty());
    }
}

/// An opening directive that only comments follow, if anything, fails as
/// a block that is not closed, and the failure holds its line and itself.
pub proof fn lemma_opener_before_the_end(
    cmds: Seq<(usize, Directive)>,
    know: Knowledge,
    open: int,
)
    requires
        0 <= open < cmds.len(),
        is_opener(cmds[open].1),
        forall|j: int| open < j < cmds.len() ==> (#[trigger] cmds[j]).1 is Comment,
    ensures
        eval_block(cmds, know, open) == Step::Failed(
            Failure::MissingClosingDirective(cmds[open].0, cmds[open].1),
        ),
{
    if is_conditional(cmds[open].1) {
        lemma_comments_in_conditional(cmds, know, open, open + 1);
    } else {
        lemma_comments_in_question(cmds, know, open, open + 1);
    }
}

proof fn lemma_comments_in_conditional(
    cmds: Seq<(usize, Directive)>,
    know: Knowledge,
    open: int,
    at: int,
)
    requires
        0 <= open < at <= cmds.len(),
        forall|j: int| at <= j < cmds.len() ==> (#[trigger] cmds[j]).1 is Comment,
    ensures
        scan_conditional(cmds, know, open, at, None) == Step::Failed(
            Failure::MissingClosingDirective(cmds[open].0, cmds[open].1),
        ),
    decreases cmds.len() - at,
{
    if at < cmds.len() {
        assert(cmds[at].1 is Comment);
        assert(eval_block(cmds, know, at) == Step::Done { next: at + 1, skips: Set::empty() });
        lemma_comments_in_conditional(cmds, know, open, at + 1);
    }
}

proof fn lemma_comments_in_question(
    cmds: Seq<(usize, Directive)>,
    know: Knowledge,
    open: int,
    at: int,
)
    requires
        0 <= open < at <= cmds.len(),
        forall|j: int| at <= j < cmds.len() ==> (#[trigger] cmds[j]).1 is Comment,
    ensures
        scan_question(cmds, know, open, at, Seq::empty(), Seq::empty()) == Step::Failed(
            Failure::MissingClosingDirective(cmds[open].0, cmds[open].1),
        ),
    decreases cmds.len() - at,
{
    if at < cmds.len() {
        assert(cmds[at].1 is Comment);
        assert(eval_block(cmds, know, at) == Step::Done { next: at + 1, skips: Set::empty() });
        lemma_comments_in_question(cmds, know, open, at + 1);
    }
}

/// Whether the failure is that of a block that is not closed, and names an
/// opening directive of the sequence at index `from` or later, with its
/// line.
pub open spec fn names_an_opener(
    cmds: Seq<(usize, Directive)>,
    from: int,
    failure: Failure,
) -> bool {
    failure matches Failure::MissingClosingDirective(line, directive) ==> exists|j: int|
        from <= j < cmds.len() && #[trigger] cmds[j] == (line, directive) && is_opener(directive)
}

/// The failure of a block that is not closed always holds an opening
/// directive of the sequence and the line that it stands on.
pub proof fn lemma_missing_closing_names_an_opener(
    cmds: Seq<(usize, Directive)>,
    know: Knowledge,
    at: int,
)
    requires
        0 <= at < cmds.len(),
    ensures
        eval_block(cmds, know, at) matches Step::Failed(failure) ==> names_an_opener(
            cmds,
            at,
            failure,
        ),
    decreases cmds.len() - at, 0int,
{
    let (line, directive) = cmds[at];
    match directive {
        Directive::IfDef(_) | Directive::IfNDef(_) | Directive::If(_, _) => {
            lemma_conditional_names_an_opener(cmds, know, at, at + 1, None);
        },
        Directive::Ask(_) => {
            lemma_question_names_an_opener(cmds, know, at, at + 1, Seq::empty(), Seq::empty());
        },
        _ => {},
    }
}

proof fn lemma_conditional_names_an_opener(
    cmds: Seq<(usize, Directive)>,
    know: Knowledge,
    open: int,
    at: int,
    else_line: Option<usize>,
)
    requires
        0 <= open < at <= cmds.len(),
        is_conditional(cmds[open].1),
    ensures
        scan_conditional(cmds, know, open, at, else_line) matches Step::Failed(failure)
            ==> names_an_opener(cmds, open, failure),
    decreases cmds.len() - at, 1int,
{
    if at < cmds.len() {
        let (line, directive) = cmds[at];
        match directive {
            Directive::Else => {
                if else_line is None {
                    lemma_conditional_names_an_opener(cmds, know, open, at + 1, Some(line));
                }
            },
            Directive::EndIf => {},
            _ => {
                lemma_block_advances(cmds, know, at);
                lemma_missing_closing_names_an_opener(cmds, know, at);
                match eval_block(cmds, know, at) {
                    Step::Done { next, skips } => {
                        lemma_conditional_names_an_opener(cmds, know, open, next, else_line);
                    },
                    Step::Failed(failure) => {
                        if let Failure::MissingClosingDirective(l, d) = failure {
                            let j = choose|j: int|
                                at <= j < cmds.len() && #[trigger] cmds[j] == (l, d) && is_opener(
                                    d,
                                );
                            assert(open <= j < cmds.len() && cmds[j] == (l, d));
                        }
                    },
                }
            },
        }
    } else {
        assert(cmds[open] == (cmds[open].0, cmds[open].1));
    }
}

proof fn lemma_question_names_an_opener(
    cmds: Seq<(usize, Directive)>,
    know: Knowledge,
    open: int,
    at: int,
    labels: Seq<Seq<char>>,
    option_lines: Seq<usize>,
)
    requires
        0 <= open < at <= cmds.len(),
        cmds[open].1 is Ask,
    ensures
        scan_question(cmds, know, open, at, labels, option_lines) matches Step::Failed(failure)
            ==> names_an_opener(cmds, open, failure),
    decreases cmds.len() - at, 1int,
{
    if at < cmds.len() {
        let (line, directive) = cmds[at];
        match directive {
            Directive::Option(label) => {
                lemma_question_names_an_opener(
                    cmds,
                    know,
                    open,
                    at + 1,
                    labels.push(label),
                    option_lines.push(line),
                );
            },
            Directive::EndAsk => {},
            _ => {
                lemma_block_advances(cmds, know, at);
                lemma_missing_closing_names_an_opener(cmds, know, at);
                match eval_block(cmds, know, at) {
                    Step::Done { next, skips } => {
                        lemma_question_names_an_opener(
                            cmds,
                            know,
                            open,
                            next,
                            labels,
                            option_lines,
                        );
                    },
                    Step::Failed(failure) => {
                        if let Failure::MissingClosingDirective(l, d) = failure {
                            let j = choose|j: int|
                                at <= j < cmds.len() && #[trigger] cmds[j] == (l, d) && is_opener(
                                    d,
                                );
                            assert(open <= j < cmds.len() && cmds[j] == (l, d));
                        }
                    },
                }
            },
        }
    } else {
        assert(cmds[open] == (cmds[open].0, cmds[open].1));
    }
}

/// A question without options whose answer is no drops every line strictly
/// between its `Ask` and its `EndAsk`; one whose answer is yes drops
/// nothing. Comments may stand between the two.
pub proof fn lemma_yes_no_question(
    cmds: Seq<(usize, Directive)>,
    know: Knowledge,
    open: int,
    close: int,
    keep: bool,
)
    requires
        0 <= open < close < cmds.len(),
        cmds[open].1 is Ask,
        cmds[close].1 is EndAsk,
        forall|j: int| open < j < close ==> (#[trigger] cmds[j]).1 is Comment,
        know.answers.contains_key((cmds[open].1->Ask_0, Seq::empty())),
        know.answers[(cmds[open].1->Ask_0, Seq::empty())] == Answer::YesNo(keep),
    ensures
        eval_block(cmds, know, open) == (Step::Done {
            next: close + 1,
            skips: if keep {
                Set::empty()
            } else {
                between(cmds[open].0, cmds[close].0)
            },
        }),
{
    lemma_yes_no_from(cmds, know, open, open + 1, close, keep);
}

proof fn lemma_yes_no_from(
    cmds: Seq<(usize, Directive)>,
    know: Knowledge,
    open: int,
    at: int,
    close: int,
    keep: bool,
)
    requires
        0 <= open < at <= close < cmds.len(),
        cmds[open].1 is Ask,
        cmds[close].1 is EndAsk,
        forall|j: int| at <= j < close ==> (#[trigger] cmds[j]).1 is Comment,
        know.answers.contains_key((cmds[open].1->Ask_0, Seq::empty())),
        know.answers[(cmds[open].1->Ask_0, Seq::empty())] == Answer::YesNo(keep),
    ensures
        scan_question(cmds, know, open, at, Seq::empty(), Seq::empty()) == (Step::Done {
            next: close + 1,
            skips: if keep {
                Set::empty()
            } else {
                between(cmds[open].0, cmds[close].0)
            },
        }),
    decreases close - at,
{
    if at < close {
        assert(cmds[at].1 is Comment);
        assert(eval_block(cmds, know, at) == Step::Done { next: at + 1, skips: Set::empty() });
        lemma_yes_no_from(cmds, know, open, at + 1, close, keep);
        let rest = scan_question(cmds, know, open, at + 1, Seq::empty(), Seq::empty());
        assert(Set::<usize>::empty() + rest->skips =~= rest->skips);
    }
}

/// A question that the session holds an answer to is not asked again: the
/// evaluation of a block never fails for want of that answer. So once an
/// answer is recorded, every block with that question and those options
/// takes it.
pub proof fn lemma_answered_question_is_not_asked(
    cmds: Seq<(usize, Directive)>,
    know: Knowledge,
    at: int,
    question: Seq<char>,
    labels: Seq<Seq<char>>,
)
    requires
        0 <= at < cmds.len(),
        know.answers.contains_key((question, labels)),
    ensures
        eval_block(cmds, know, at) != Step::Failed(Failure::UnansweredQuestion(question, labels)),
    decreases cmds.len() - at, 0int,
{
    let (line, directive) = cmds[at];
    match directive {
        Directive::IfDef(_) | Directive::IfNDef(_) | Directive::If(_, _) => {
            lemma_answered_in_conditional(cmds, know, at, at + 1, None, question, labels);
        },
        Directive::Ask(_) => {
            lemma_answered_in_question(
                cmds,
                know,
                at,
                at + 1,
                Seq::empty(),
                Seq::empty(),
                question,
                labels,
            );
        },
        _ => {},
    }
}

proof fn lemma_answered_in_conditional(
    cmds: Seq<(usize, Directive)>,
    know: Knowledge,
    open: int,
    at: int,
    else_line: Option<usize>,
    question: Seq<char>,
    labels: Seq<Seq<char>>,
)
    requires
        0 <= open < at <= cmds.len(),
        is_conditional(cmds[open].1),
        know.answers.contains_key((question, labels)),
    ensures
        scan_conditional(cmds, know, open, at, else_line) != Step::Failed(
            Failure::UnansweredQuestion(question, labels),
        ),
    decreases cmds.len() - at, 1int,
{
    if at < cmds.len() {
        let (line, directive) = cmds[at];
        match directive {
            Directive::Else => {
                if else_line is None {
                    lemma_answered_in_conditional(
                        cmds,
                        know,
                        open,
                        at + 1,
                        Some(line),
                        question,
                        labels,
                    );
                }
            },
            Directive::EndIf => {},
            _ => {
                lemma_block_advances(cmds, know, at);
                lemma_answered_question_is_not_asked(cmds, know, at, question, labels);
                if let Step::Done { next, skips } = eval_block(cmds, know, at) {
                    lemma_answered_in_conditional(
                        cmds,
                        know,
                        open,
                        next,
                        else_line,
                        question,
                        labels,
                    );
                }
            },
        }
    }
}

proof fn lemma_answered_in_question(
    cmds: Seq<(usize, Directive)>,
    know: Knowledge,
    open: int,
    at: int,
    seen: Seq<Seq<char>>,
    option_lines: Seq<usize>,
    question: Seq<char>,
    labels: Seq<Seq<char>>,
)
    requires
        0 <= open < at <= cmds.len(),
        cmds[open].1 is Ask,
        know.answers.contains_key((question, labels)),
    ensures
        scan_question(cmds, know, open, at, seen, option_lines) != Step::Failed(
            Failure::UnansweredQuestion(question, labels),
        ),
    decreases cmds.len() - at, 1int,
{
    if at < cmds.len() {
        let (line, directive) = cmds[at];
        match directive {
            Directive::Option(label) => {
                lemma_answered_in_question(
                    cmds,
                    know,
                    open,
                    at + 1,
                    seen.push(label),
                    option_lines.push(line),
                    question,
                    labels,
                );
            },
            Directive::EndAsk => {},
            _ => {
                lemma_block_advances(cmds, know, at);
                lemma_answered_question_is_not_asked(cmds, know, at, question, labels);
                if let Step::Done { next, skips } = eval_block(cmds, know, at) {
                    lemma_answered_in_question(
                        cmds,
                        know,
                        open,
                        next,
                        seen,
                        option_lines,
                        question,
                        labels,
                    );
                }
            },
        }
    }
}

/// The same for a whole sequence: it never fails for want of an answer
/// that the session holds.
pub proof fn lemma_answered_question_is_not_asked_again(
    cmds: Seq<(usize, Directive)>,
    know: Knowledge,
    from: int,
    question: Seq<char>,
    labels: Seq<Seq<char>>,
)
    requires
        0 <= from,
        know.answers.contains_key((question, labels)),
    ensures
        eval_from(cmds, know, from) != Err::<Set<usize>, Failure>(
            Failure::UnansweredQuestion(question, labels),
        ),
    decreases cmds.len() - from,
{
    if from < cmds.len() {
        lemma_answered_question_is_not_asked(cmds, know, from, question, labels);
        if let Step::Done { next, skips } = eval_block(cmds, know, from) {
            if from < next <= cmds.len() {
                lemma_answered_question_is_not_asked_again(cmds, know, next, question, labels);
            }
        }
    }
}

/// Every block of a sequence that evaluates drops its lines, however deep
/// it is nested and whatever becomes of the blocks around it: the block at
/// index `at`, taken by itself, is done, and the lines that it drops are
/// among those that the sequence drops.
pub proof fn lemma_every_block_drops_its_lines(
    cmds: Seq<(usize, Directive)>,
    know: Knowledge,
    at: int,
)
    requires
        0 <= at < cmds.len(),
        is_opener(cmds[at].1),
        evaluate(cmds, know) is Ok,
    ensures
        eval_block(cmds, know, at) is Done,
        eval_block(cmds, know, at)->skips.subset_of(evaluate(cmds, know)->Ok_0),
{
    lemma_blocks_of_sequence(cmds, know, 0, at);
}

/// The same, for the sequence from index `from` on.
pub proof fn lemma_blocks_of_sequence(
    cmds: Seq<(usize, Directive)>,
    know: Knowledge,
    from: int,
    at: int,
)
    requires
        0 <= from <= at < cmds.len(),
        is_opener(cmds[at].1),
        eval_from(cmds, know, from) is Ok,
    ensures
        eval_block(cmds, know, at) is Done,
        eval_block(cmds, know, at)->skips.subset_of(eval_from(cmds, know, from)->Ok_0),
    decreases cmds.len() - from,
{
    lemma_block_advances(cmds, know, from);
    let next = eval_block(cmds, know, from)->next;
    if at < next {
        lemma_blocks_of_block(cmds, know, from, at);
    } else {
        lemma_blocks_of_sequence(cmds, know, next, at);
    }
}

/// The same, for the blocks inside the block at index `outer`, itself
/// included.
pub proof fn lemma_blocks_of_block(
    cmds: Seq<(usize, Directive)>,
    know: Knowledge,
    outer: int,
    at: int,
)
    requires
        0 <= outer <= at < cmds.len(),
        is_opener(cmds[at].1),
        eval_block(cmds, know, outer) is Done,
        at < eval_block(cmds, know, outer)->next,
    ensures
        eval_block(cmds, know, at) is Done,
        eval_block(cmds, know, at)->skips.subset_of(eval_block(cmds, know, outer)->skips),
    decreases cmds.len() - outer, 0int,
{
    if outer < at {
        let (line, directive) = cmds[outer];
        match directive {
            Directive::IfDef(_) | Directive::IfNDef(_) | Directive::If(_, _) => {
                lemma_blocks_of_conditional(cmds, know, outer, outer + 1, None, at);
            },
            Directive::Ask(_) => {
                lemma_blocks_of_question(
                    cmds,
                    know,
                    outer,
                    outer + 1,
                    Seq::empty(),
                    Seq::empty(),
                    at,
                );
            },
            _ => {},
        }
    }
}

proof fn lemma_blocks_of_conditional(
    cmds: Seq<(usize, Directive)>,
    know: Knowledge,
    open: int,
    from: int,
    else_line: Option<usize>,
    at: int,
)
    requires
        0 <= open < from <= at < cmds.len(),
        is_opener(cmds[at].1),
        scan_conditional(cmds, know, open, from, else_line) is Done,
        at < scan_conditional(cmds, know, open, from, else_line)->next,
    ensures
        eval_block(cmds, know, at) is Done,
        eval_block(cmds, know, at)->skips.subset_of(
            scan_conditional(cmds, know, open, from, else_line)->skips,
        ),
    decreases cmds.len() - from, 1int,
{
    let (line, directive) = cmds[from];
    match directive {
        Directive::Else => {
            lemma_blocks_of_conditional(cmds, know, open, from + 1, Some(line), at);
        },
        Directive::EndIf => {},
        _ => {
            lemma_block_advances(cmds, know, from);
            let next = eval_block(cmds, know, from)->next;
            if at < next {
                lemma_blocks_of_block(cmds, know, from, at);
            } else {
                lemma_blocks_of_conditional(cmds, know, open, next, else_line, at);
            }
        },
    }
}

proof fn lemma_blocks_of_question(
    cmds: Seq<(usize, Directive)>,
    know: Knowledge,
    open: int,
    from: int,
    labels: Seq<Seq<char>>,
    option_lines: Seq<usize>,
    at: int,
)
    requires
        0 <= open < from <= at < cmds.len(),
        is_opener(cmds[at].1),
        scan_question(cmds, know, open, from, labels, option_lines) is Done,
        at < scan_question(cmds, know, open, from, labels, option_lines)->next,
    ensures
        eval_block(cmds, know, at) is Done,
        eval_block(cmds, know, at)->skips.subset_of(
            scan_question(cmds, know, open, from, labels, option_lines)->skips,
        ),
    decreases cmds.len() - from, 1int,
{
    let (line, directive) = cmds[from];
    match directive {
        Directive::Option(label) => {
            lemma_blocks_of_question(
                cmds,
                know,
                open,
                from + 1,
                labels.push(label),
                option_lines.push(line),
                at,
            );
        },
        Directive::EndAsk => {},
        _ => {
            lemma_block_advances(cmds, know, from);
            let next = eval_block(cmds, know, from)->next;
            if at < next {
                lemma_blocks_of_block(cmds, know, from, at);
            } else {
                lemma_blocks_of_question(cmds, know, open, next, labels, option_lines, at);
            }
        },
    }
}

/// Whether the lines increase strictly.
pub open spec fn increasing(lines: Seq<usize>) -> bool {
    forall|i: int, j: int| 0 <= i < j < lines.len() ==> lines[i] < lines[j]
}

/// Where the lines of a question and of its options follow each other as
/// they should, the body of the selected option is kept.
pub proof fn lemma_selected_body_is_kept(
    selected: usize,
    open_line: usize,
    option_lines: Seq<usize>,
    close_line: usize,
    line: usize,
)
    requires
        increasing(bounds(open_line, option_lines, close_line)),
        selected < option_lines.len(),
        in_segment(bounds(open_line, option_lines, close_line), selected + 1, line),
    ensures
        !choice_skips(selected, open_line, option_lines, close_line).contains(line),
{
    let bounds = bounds(open_line, option_lines, close_line);
    assert forall|i: int|
        0 <= i <= option_lines.len() && i != selected + 1 implies !#[trigger] in_segment(
            bounds,
            i,
            line,
        ) by {
        if i < selected + 1 {
            assert(bounds[i + 1] <= bounds[selected + 1]);
        } else {
            assert(bounds[selected + 2] <= bounds[i]);
        }
    }
}

/// Where the lines of a question and of its options follow each other as
/// they should, every line between `Ask` and `EndAsk` is dropped that is
/// neither the line of an option nor in the body of the selected option.
pub proof fn lemma_other_bodies_are_dropped(
    selected: usize,
    open_line: usize,
    option_lines: Seq<usize>,
    close_line: usize,
    line: usize,
)
    requires
        increasing(bounds(open_line, option_lines, close_line)),
        open_line < line < close_line,
        !option_lines.contains(line),
        !in_segment(bounds(open_line, option_lines, close_line), selected + 1, line),
    ensures
        choice_skips(selected, open_line, option_lines, close_line).contains(line),
{
    let bounds = bounds(open_line, option_lines, close_line);
    let i = lemma_segment_of(bounds, line, bounds.len() - 1);
    if 1 <= i + 1 <= option_lines.len() {
        assert(bounds[i + 1] == option_lines[i]);
    }
    assert(in_segment(bounds, i, line));
}

/// The last bound before `upto` that is below `line`; `line` is not above
/// the bound after it.
proof fn lemma_segment_of(bounds: Seq<usize>, line: usize, upto: int) -> (i: int)
    requires
        1 <= upto < bounds.len(),
        bounds[0] < line <= bounds[upto],
    ensures
        0 <= i < upto,
        bounds[i] < line <= bounds[i + 1],
    decreases upto,
{
    if bounds[upto - 1] < line {
        upto - 1
    } else {
        lemma_segment_of(bounds, line, upto - 1)
    }
}

/// Whether the failure is one of the four that an evaluation can end in:
/// a stray directive, a block that is not closed, an expansion that is not
/// known, a question that is not answered.
pub open spec fn is_failure_of_evaluation(failure: Failure) -> bool {
    ||| failure is StrayDirective
    ||| failure is MissingClosingDirective
    ||| failure is UnresolvedVariable
    ||| failure is UnansweredQuestion
}

/// A block fails in one of these four ways, if it fails.
pub proof fn lemma_failures_of_block(cmds: Seq<(usize, Directive)>, know: Knowledge, at: int)
    requires
        0 <= at < cmds.len(),
    ensures
        eval_block(cmds, know, at) matches Step::Failed(failure) ==> is_failure_of_evaluation(
            failure,
        ),
    decreases cmds.len() - at, 0int,
{
    let (line, directive) = cmds[at];
    match directive {
        Directive::IfDef(_) | Directive::IfNDef(_) | Directive::If(_, _) => {
            lemma_failures_of_conditional(cmds, know, at, at + 1, None);
        },
        Directive::Ask(_) => {
            lemma_failures_of_question(cmds, know, at, at + 1, Seq::empty(), Seq::empty());
        },
        _ => {},
    }
}

proof fn lemma_failures_of_conditional(
    cmds: Seq<(usize, Directive)>,
    know: Knowledge,
    open: int,
    at: int,
    else_line: Option<usize>,
)
    requires
        0 <= open < at <= cmds.len(),
        is_conditional(cmds[open].1),
    ensures
        scan_conditional(cmds, know, open, at, else_line) matches Step::Failed(failure)
            ==> is_failure_of_evaluation(failure),
    decreases cmds.len() - at, 1int,
{
    if at < cmds.len() {
        let (line, directive) = cmds[at];
        match directive {
            Directive::Else => {
                if else_line is None {
                    lemma_failures_of_conditional(cmds, know, open, at + 1, Some(line));
                }
            },
            Directive::EndIf => {},
            _ => {
                lemma_block_advances(cmds, know, at);
                lemma_failures_of_block(cmds, know, at);
                if let Step::Done { next, skips } = eval_block(cmds, know, at) {
                    lemma_failures_of_conditional(cmds, know, open, next, else_line);
                }
            },
        }
    }
}

proof fn lemma_failures_of_question(
    cmds: Seq<(usize, Directive)>,
    know: Knowledge,
    open: int,
    at: int,
    labels: Seq<Seq<char>>,
    option_lines: Seq<usize>,
)
    requires
        0 <= open < at <= cmds.len(),
        cmds[open].1 is Ask,
    ensures
        scan_question(cmds, know, open, at, labels, option_lines) matches Step::Failed(failure)
            ==> is_failure_of_evaluation(failure),
    decreases cmds.len() - at, 1int,
{
    if at < cmds.len() {
        let (line, directive) = cmds[at];
        match directive {
            Directive::Option(label) => {
                lemma_failures_of_question(
                    cmds,
                    know,
                    open,
                    at + 1,
                    labels.push(label),
                    option_lines.push(line),
                );
            },
            Directive::EndAsk => {},
            _ => {
                lemma_block_advances(cmds, know, at);
                lemma_failures_of_block(cmds, know, at);
                if let Step::Done { next, skips } = eval_block(cmds, know, at) {
                    lemma_failures_of_question(cmds, know, open, next, labels, option_lines);
                }
            },
        }
    }
}

/// A sequence fails in one of these four ways, if it fails.
pub proof fn lemma_failures_of_sequence(cmds: Seq<(usize, Directive)>, know: Knowledge, from: int)
    requires
        0 <= from,
    ensures
        eval_from(cmds, know, from) matches Err(failure) ==> is_failure_of_evaluation(failure),
    decreases cmds.len() - from,
{
    if from < cmds.len() {
        lemma_failures_of_block(cmds, know, from);
        if let Step::Done { next, skips } = eval_block(cmds, know, from) {
            if from < next <= cmds.len() {
                lemma_failures_of_sequence(cmds, know, next);
            }
        }
    }
}

/// A conditional without an `Else` and without nested blocks keeps its
/// lines if its condition holds, and else drops every line strictly between
/// its opening directive and its `EndIf`. Comments may stand between the
/// two.
pub proof fn lemma_plain_conditional(
    cmds: Seq<(usize, Directive)>,
    know: Knowledge,
    open: int,
    close: int,
    holds: bool,
)
    requires
        0 <= open < close < cmds.len(),
        is_conditional(cmds[open].1),
        cmds[close].1 is EndIf,
        forall|j: int| open < j < close ==> (#[trigger] cmds[j]).1 is Comment,
        condition(cmds[open].1, know) == Ok::<bool, Failure>(holds),
    ensures
        eval_block(cmds, know, open) == (Step::Done {
            next: close + 1,
            skips: if holds {
                Set::empty()
            } else {
                between(cmds[open].0, cmds[close].0)
            },
        }),
{
    lemma_comments_before_endif(cmds, know, open, open + 1, close, None);
}

/// A conditional with an `Else` and without nested blocks drops the lines
/// strictly between `Else` and `EndIf` if its condition holds, and else the
/// lines strictly between its opening directive and `Else`. Comments may
/// stand between the three.
pub proof fn lemma_conditional_with_else(
    cmds: Seq<(usize, Directive)>,
    know: Knowledge,
    open: int,
    middle: int,
    close: int,
    holds: bool,
)
    requires
        0 <= open < middle < close < cmds.len(),
        is_conditional(cmds[open].1),
        cmds[middle].1 is Else,
        cmds[close].1 is EndIf,
        forall|j: int| open < j < close && j != middle ==> (#[trigger] cmds[j]).1 is Comment,
        condition(cmds[open].1, know) == Ok::<bool, Failure>(holds),
    ensures
        eval_block(cmds, know, open) == (Step::Done {
            next: close + 1,
            skips: if holds {
                between(cmds[middle].0, cmds[close].0)
            } else {
                between(cmds[open].0, cmds[middle].0)
            },
        }),
{
    lemma_comments_before_else(cmds, know, open, open + 1, middle);
    lemma_comments_before_endif(cmds, know, open, middle + 1, close, Some(cmds[middle].0));
}

/// Over comments that an `Else` follows, the scan of a conditional goes on
/// behind the `Else`.
proof fn lemma_comments_before_else(
    cmds: Seq<(usize, Directive)>,
    know: Knowledge,
    open: int,
    at: int,
    middle: int,
)
    requires
        0 <= at <= middle < cmds.len(),
        forall|j: int| at <= j < middle ==> (#[trigger] cmds[j]).1 is Comment,
        cmds[middle].1 is Else,
    ensures
        scan_conditional(cmds, know, open, at, None) == scan_conditional(
            cmds,
            know,
            open,
            middle + 1,
            Some(cmds[middle].0),
        ),
    decreases middle - at,
{
    if at < middle {
        assert(cmds[at].1 is Comment);
        assert(eval_block(cmds, know, at) == Step::Done { next: at + 1, skips: Set::empty() });
        lemma_comments_before_else(cmds, know, open, at + 1, middle);
        let rest = scan_conditional(cmds, know, open, at + 1, None);
        if let Step::Done { next, skips } = rest {
            assert(Set::<usize>::empty() + skips =~= skips);
        }
    }
}

/// Over comments that an `EndIf` follows, the scan of a conditional comes
/// to the `EndIf`, where the condition decides.
proof fn lemma_comments_before_endif(
    cmds: Seq<(usize, Directive)>,
    know: Knowledge,
    open: int,
    at: int,
    close: int,
    else_line: Option<usize>,
)
    requires
        0 <= at <= close < cmds.len(),
        cmds[close].1 is EndIf,
        forall|j: int| at <= j < close ==> (#[trigger] cmds[j]).1 is Comment,
    ensures
        scan_conditional(cmds, know, open, at, else_line) == (match condition(
            cmds[open].1,
            know,
        ) {
            Ok(holds) => Step::Done {
                next: close + 1,
                skips: branch_skips(holds, cmds[open].0, else_line, cmds[close].0),
            },
            Err(failure) => Step::Failed(failure),
        }),
    decreases close - at,
{
    if at < close {
        assert(cmds[at].1 is Comment);
        assert(eval_block(cmds, know, at) == Step::Done { next: at + 1, skips: Set::empty() });
        lemma_comments_before_endif(cmds, know, open, at + 1, close, else_line);
        let rest = scan_conditional(cmds, know, open, at + 1, else_line);
        if let Step::Done { next, skips } = rest {
            assert(Set::<usize>::empty() + skips =~= skips);
        }
    }
}

/// The labels of the options among the directives from index `from` up to
/// index `to`, in their order.
pub open spec fn labels_between(cmds: Seq<(usize, Directive)>, from: int, to: int) -> Seq<
    Seq<char>,
>
    decreases to - from,
{
    if from >= to {
        Seq::empty()
    } else {
        match cmds[from].1 {
            Directive::Option(label) => seq![label] + labels_between(cmds, from + 1, to),
            _ => labels_between(cmds, from + 1, to),
        }
    }
}

/// The lines of the options among the directives from index `from` up to
/// index `to`, in their order.
pub open spec fn lines_between(cmds: Seq<(usize, Directive)>, from: int, to: int) -> Seq<usize>
    decreases to - from,
{
    if from >= to {
        Seq::empty()
    } else {
        match cmds[from].1 {
            Directive::Option(_) => seq![cmds[from].0] + lines_between(cmds, from + 1, to),
            _ => lines_between(cmds, from + 1, to),
        }
    }
}

/// A question without nested blocks is the question of its text with the
/// labels of its options. If the session holds the answer, the block drops
/// what the answer does not keep, given the lines of `Ask`, of the options
/// and of `EndAsk`; if not, that question is what the block fails with.
/// Comments may stand anywhere in the block.
pub proof fn lemma_plain_question(
    cmds: Seq<(usize, Directive)>,
    know: Knowledge,
    open: int,
    close: int,
)
    requires
        0 <= open < close < cmds.len(),
        cmds[open].1 is Ask,
        cmds[close].1 is EndAsk,
        forall|j: int|
            open < j < close ==> (#[trigger] cmds[j]).1 is Option || cmds[j].1 is Comment,
    ensures
        ({
            let question = (cmds[open].1->Ask_0, labels_between(cmds, open + 1, close));
            eval_block(cmds, know, open) == if know.answers.contains_key(question) {
                Step::Done {
                    next: close + 1,
                    skips: answer_skips(
                        know.answers[question],
                        cmds[open].0,
                        lines_between(cmds, open + 1, close),
                        cmds[close].0,
                    ),
                }
            } else {
                Step::Failed(Failure::UnansweredQuestion(question.0, question.1))
            }
        }),
{
    lemma_options_before_endask(cmds, know, open, open + 1, close, Seq::empty(), Seq::empty());
    assert(Seq::<Seq<char>>::empty() + labels_between(cmds, open + 1, close) =~= labels_between(
        cmds,
        open + 1,
        close,
    ));
    assert(Seq::<usize>::empty() + lines_between(cmds, open + 1, close) =~= lines_between(
        cmds,
        open + 1,
        close,
    ));
}

/// Over options and comments that an `EndAsk` follows, the scan of a
/// question notes the options and comes to the `EndAsk`, where the answer
/// decides.
proof fn lemma_options_before_endask(
    cmds: Seq<(usize, Directive)>,
    know: Knowledge,
    open: int,
    at: int,
    close: int,
    labels: Seq<Seq<char>>,
    option_lines: Seq<usize>,
)
    requires
        0 <= at <= close < cmds.len(),
        cmds[close].1 is EndAsk,
        forall|j: int|
            at <= j < close ==> (#[trigger] cmds[j]).1 is Option || cmds[j].1 is Comment,
    ensures
        ({
            let question = (cmds[open].1->Ask_0, labels + labels_between(cmds, at, close));
            let scanned = scan_question(cmds, know, open, at, labels, option_lines);
            scanned == if know.answers.contains_key(question) {
                Step::Done {
                    next: close + 1,
                    skips: answer_skips(
                        know.answers[question],
                        cmds[open].0,
                        option_lines + lines_between(cmds, at, close),
                        cmds[close].0,
                    ),
                }
            } else {
                Step::Failed(Failure::UnansweredQuestion(question.0, question.1))
            }
        }),
    decreases close - at,
{
    if at < close {
        let (line, directive) = cmds[at];
        assert(directive is Option || directive is Comment);
        match directive {
            Directive::Option(label) => {
                lemma_options_before_endask(
                    cmds,
                    know,
                    open,
                    at + 1,
                    close,
                    labels.push(label),
                    option_lines.push(line),
                );
                assert(labels.push(label) + labels_between(cmds, at + 1, close) =~= labels
                    + labels_between(cmds, at, close));
                assert(option_lines.push(line) + lines_between(cmds, at + 1, close)
                    =~= option_lines + lines_between(cmds, at, close));
            },
            _ => {
                assert(eval_block(cmds, know, at) == Step::Done {
                    next: at + 1,
                    skips: Set::empty(),
                });
                lemma_options_before_endask(
                    cmds,
                    know,
                    open,
                    at + 1,
                    close,
                    labels,
                    option_lines,
                );
                let rest = scan_question(cmds, know, open, at + 1, labels, option_lines);
                if let Step::Done { next, skips } = rest {
                    assert(Set::<usize>::empty() + skips =~= skips);
                }
            },
        }
    } else {
        assert(labels + labels_between(cmds, at, close) =~= labels);
        assert(option_lines + lines_between(cmds, at, close) =~= option_lines);
    }
}

} // verus!
