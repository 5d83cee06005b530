//! What one evaluation of a file knows of the world outside it: how variable
//! expressions expand, and how the questions asked so far were answered.

use vstd::prelude::*;
use vstd::string::StringExecFns;
use crate::table::Table;
use crate::text::same_text;
use crate::text::to_chars;
use crate::text::trim_line_feeds;
use crate::text::without_trailing_line_feeds;

verus! {

/// An answer to a question.
#[derive(Debug, Clone, Copy, PartialEq, Eq, Structural)]
pub enum Answer {
    /// To a question without options: whether its block is kept.
    YesNo(bool),
    /// To a question with options: the selected option, counted from zero.
    Option(usize),
}

/// A `Session` as a mathematical value.
pub struct Knowledge {
    /// The expansion of each variable expression that has one.
    pub expansions: Map<Seq<char>, Seq<char>>,
    /// The answer to each question that has one. A question is its text
    /// together with the labels of its options, in their order.
    pub answers: Map<(Seq<char>, Seq<Seq<char>>), Answer>,
}

/// One answered question.
struct Answered {
    question: String,
    options: Vec<String>,
    answer: Answer,
}

/// The expansions and answers known while one file is evaluated. Later
/// entries replace earlier ones for the same expression or question.
pub struct Session {
    expansions: Table,
    answers: Vec<Answered>,
}

/// The answer that the latest matching entry gives to the question.
spec fn find_answer(entries: Seq<Answered>, question: Seq<char>, options: Seq<Seq<char>>) -> Option<
    Answer,
>
    decreases entries.len(),
{
    if entries.len() == 0 {
        None
    } else if entries.last().question@ == question && entries.last().options.deep_view()
        == options {
        Some(entries.last().answer)
    } else {
        find_answer(entries.drop_last(), question, options)
    }
}

impl View for Session {
    type V = Knowledge;

    closed spec fn view(&self) -> Knowledge {
        Knowledge {
            expansions: self.expansions@,
            answers: Map::new(
                |key: (Seq<char>, Seq<Seq<char>>)| find_answer(self.answers@, key.0, key.1) is Some,
                |key: (Seq<char>, Seq<Seq<char>>)| find_answer(self.answers@, key.0, key.1)->0,
            ),
        }
    }
}

/// Whether two lists of labels hold the same texts in the same order.
fn same_labels(left: &Vec<String>, right: &Vec<String>) -> (same: bool)
    ensures
        same == (left.deep_view() == right.deep_view()),
{
    if left.len() != right.len() {
        assert(left.deep_view().len() != right.deep_view().len());
        return false;
    }
    let mut i: usize = 0;
    while i < left.len()
        invariant
            i <= left.len() == right.len(),
            forall|j: int| 0 <= j < i ==> left@[j]@ == right@[j]@,
        decreases left.len() - i,
    {
        if left[i] != right[i] {
            assert(left.deep_view()[i as int] != right.deep_view()[i as int]);
            return false;
        }
        i += 1;
    }
    assert(left.deep_view() =~= right.deep_view());
    true
}

/// A copy of a list of labels.
pub fn copy_labels(labels: &Vec<String>) -> (copy: Vec<String>)
    ensures
        copy.deep_view() == labels.deep_view(),
{
    let mut copy: Vec<String> = Vec::new();
    let mut i: usize = 0;
    while i < labels.len()
        invariant
            i <= labels.len(),
            copy@.len() == i,
            forall|j: int| 0 <= j < i ==> copy@[j]@ == labels@[j]@,
        decreases labels.len() - i,
    {
        copy.push(labels[i].clone());
        i += 1;
    }
    assert(copy.deep_view() =~= labels.deep_view());
    copy
}

/// The number that a decimal digit stands for.
pub open spec fn digit_value(c: char) -> Option<nat> {
    if '0' <= c <= '9' {
        Some((c as int - '0' as int) as nat)
    } else {
        None
    }
}

/// The number that a text of decimal digits stands for, if it is one.
pub open spec fn digits_value(s: Seq<char>) -> Option<nat>
    decreases s.len(),
{
    if s.len() == 0 {
        None
    } else if s.len() == 1 {
        digit_value(s[0])
    } else {
        match (digits_value(s.drop_last()), digit_value(s.last())) {
            (Some(high), Some(low)) => Some(high * 10 + low),
            _ => None,
        }
    }
}

/// The number that a text stands for: decimal digits, with or without a
/// plus sign before them.
pub open spec fn decimal(s: Seq<char>) -> Option<nat> {
    if s.len() > 0 && s[0] == '+' {
        digits_value(s.drop_first())
    } else {
        digits_value(s)
    }
}

/// What a line typed in reply to a question means, the line feeds at its
/// end aside.
///
/// To a question without options, `y` or `Y` is yes and `n` or `N` is no.
/// To a question with options, a number from 1 to the number of options
/// selects the option with that number, the first one having number 1.
/// Anything else is no answer.
pub open spec fn spec_parse_answer(input: Seq<char>, options: nat) -> Option<Answer> {
    let reply = without_trailing_line_feeds(input);
    if options == 0 {
        if reply == seq!['y'] || reply == seq!['Y'] {
            Some(Answer::YesNo(true))
        } else if reply == seq!['n'] || reply == seq!['N'] {
            Some(Answer::YesNo(false))
        } else {
            None
        }
    } else {
        match decimal(reply) {
            Some(number) => if 1 <= number <= options {
                Some(Answer::Option((number - 1) as usize))
            } else {
                None
            },
            None => None,
        }
    }
}

/// A number never gets smaller by the digits that follow: if a text of
/// digits stands for a number, so does each of its beginnings, for one that
/// is not greater.
proof fn lemma_digits_grow(s: Seq<char>, n: int)
    requires
        1 <= n <= s.len(),
        digits_value(s) is Some,
    ensures
        digits_value(s.take(n)) is Some,
        digits_value(s.take(n))->0 <= digits_value(s)->0,
    decreases s.len(),
{
    if n < s.len() {
        assert(s.drop_last().take(n) == s.take(n));
        lemma_digits_grow(s.drop_last(), n);
    } else {
        assert(s.take(n) == s);
    }
}

/// The number from 1 to `limit` that `chars[from..]` stands for in decimal
/// digits.
fn parse_number(chars: &Vec<char>, from: usize, limit: usize) -> (number: Option<usize>)
    requires
        from <= chars.len(),
    ensures
        match digits_value(chars@.skip(from as int)) {
            Some(value) => if 1 <= value <= limit {
                number == Some(value as usize)
            } else {
                number is None
            },
            None => number is None,
        },
{
    let ghost digits = chars@.skip(from as int);
    if from == chars.len() {
        return None;
    }
    let mut value: usize = 0;
    let mut i: usize = from;
    while i < chars.len()
        invariant
            from <= i <= chars.len(),
            from < chars.len(),
            digits == chars@.skip(from as int),
            value <= limit,
            i > from ==> digits_value(digits.take(i - from)) == Some(value as nat),
            i == from ==> value == 0,
        decreases chars.len() - i,
    {
        let c = chars[i];
        proof {
            let grown = digits.take(i - from + 1);
            assert(grown.drop_last() == digits.take(i - from));
            assert(grown.last() == c);
        }
        if !('0' <= c && c <= '9') {
            proof {
                if digits_value(digits) is Some {
                    lemma_digits_grow(digits, i - from + 1);
                }
            }
            return None;
        }
        let digit: u128 = (c as u8 - '0' as u8) as u128;
        let grown: u128 = value as u128 * 10 + digit;
        if grown > limit as u128 {
            proof {
                if digits_value(digits) is Some {
                    lemma_digits_grow(digits, i - from + 1);
                }
            }
            return None;
        }
        value = grown as usize;
        i += 1;
    }
    proof {
        assert(digits.take(chars@.len() - from) == digits);
    }
    if value >= 1 {
        Some(value)
    } else {
        None
    }
}

/// Reads a line typed in reply to a question with this number of options.
pub fn parse_answer(input: &str, options: usize) -> (answer: Option<Answer>)
    ensures
        answer == spec_parse_answer(input@, options as nat),
{
    let reply = trim_line_feeds(input);
    if options == 0 {
        proof {
            reveal_strlit("y");
            reveal_strlit("Y");
            reveal_strlit("n");
            reveal_strlit("N");
            assert("y"@ =~= seq!['y']);
            assert("Y"@ =~= seq!['Y']);
            assert("n"@ =~= seq!['n']);
            assert("N"@ =~= seq!['N']);
        }
        if same_text(reply.as_str(), "y") || same_text(reply.as_str(), "Y") {
            Some(Answer::YesNo(true))
        } else if same_text(reply.as_str(), "n") || same_text(reply.as_str(), "N") {
            Some(Answer::YesNo(false))
        } else {
            None
        }
    } else {
        let chars = to_chars(reply.as_str());
        let from: usize = if chars.len() > 0 && chars[0] == '+' {
            1
        } else {
            0
        };
        proof {
            assert(chars@.skip(0) == chars@);
            assert(chars@.skip(1) == chars@.drop_first());
        }
        match parse_number(&chars, from, options) {
            Some(number) => Some(Answer::Option(number - 1)),
            None => None,
        }
    }
}

impl Session {
    /// A session that knows nothing yet.
    pub fn new() -> (session: Session)
        ensures
            session@.expansions == Map::<Seq<char>, Seq<char>>::empty(),
            session@.answers == Map::<(Seq<char>, Seq<Seq<char>>), Answer>::empty(),
    {
        let session = Session { expansions: Table::new(), answers: Vec::new() };
        assert(session@.answers =~= Map::<(Seq<char>, Seq<Seq<char>>), Answer>::empty());
        session
    }

    /// Records that the variable expression `expr` expands to `value`.
    pub fn resolve(&mut self, expr: &str, value: &str)
        ensures
            final(self)@.expansions == old(self)@.expansions.insert(expr@, value@),
            final(self)@.answers == old(self)@.answers,
    {
        self.expansions.insert(expr, value);
    }

    /// Records the answer given to `question` with these `options`.
    pub fn answer(&mut self, question: &str, options: &Vec<String>, answer: Answer)
        ensures
            final(self)@.answers == old(self)@.answers.insert(
                (question@, options.deep_view()),
                answer,
            ),
            final(self)@.expansions == old(self)@.expansions,
    {
        self.answers.push(
            Answered {
                question: String::from_str(question),
                options: copy_labels(options),
                answer,
            },
        );
        proof {
            assert(self.answers@.drop_last() == old(self).answers@);
            assert(self@.answers =~= old(self)@.answers.insert(
                (question@, options.deep_view()),
                answer,
            ));
        }
    }

    /// Takes a line typed in reply to `question` with these `options`. If
    /// the line is an answer, it is recorded; if it is none, nothing
    /// changes and the question has to be put again.
    pub fn reply(&mut self, question: &str, options: &Vec<String>, input: &str) -> (answer: Option<
        Answer,
    >)
        ensures
            answer == spec_parse_answer(input@, options@.len()),
            final(self)@.expansions == old(self)@.expansions,
            final(self)@.answers == match answer {
                Some(given) => old(self)@.answers.insert(
                    (question@, options.deep_view()),
                    given,
                ),
                None => old(self)@.answers,
            },
    {
        let answer = parse_answer(input, options.len());
        match answer {
            Some(given) => {
                self.answer(question, options, given);
            },
            None => {},
        }
        answer
    }

    /// The known expansion of the variable expression `expr`.
    pub fn expansion(&self, expr: &str) -> (value: Option<&str>)
        ensures
            match value {
                Some(text) => self@.expansions.contains_key(expr@) && self@.expansions[expr@]
                    == text@,
                None => !self@.expansions.contains_key(expr@),
            },
    {
        self.expansions.get(expr)
    }

    /// The known answer to `question` with these `options`.
    pub fn answered(&self, question: &str, options: &Vec<String>) -> (answer: Option<Answer>)
        ensures
            match answer {
                Some(a) => self@.answers.contains_key((question@, options.deep_view()))
                    && self@.answers[(question@, options.deep_view())] == a,
                None => !self@.answers.contains_key((question@, options.deep_view())),
            },
    {
        let wanted = String::from_str(question);
        let mut i: usize = self.answers.len();
        assert(self.answers@.take(i as int) == self.answers@);
        while i > 0
            invariant
                i <= self.answers.len(),
                wanted@ == question@,
                find_answer(self.answers@, question@, options.deep_view()) == find_answer(
                    self.answers@.take(i as int),
                    question@,
                    options.deep_view(),
                ),
            decreases i,
        {
            i -= 1;
            proof {
                assert(self.answers@.take(i + 1).drop_last() == self.answers@.take(i as int));
            }
            let entry = &self.answers[i];
            if entry.question == wanted && same_labels(&entry.options, options) {
                return Some(entry.answer);
            }
        }
        None
    }
}

} // verus!
