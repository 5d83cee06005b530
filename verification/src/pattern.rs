//! Regular expressions, as far as the library needs them: splitting a text
//! at the matches of a pattern, the groups that each match captured, and
//! escaping a literal. The matching itself is the work of the `regex`
//! crate; this module names its results and puts them together.

use vstd::prelude::*;
use vstd::string::StringExecFns;
use crate::text::texts;

verus! {

/// The parts of `text` that lie between the successive matches of
/// `pattern`, before the first and after the last, in their order; `None`
/// if the pattern does not compile.
pub uninterp spec fn regex_pieces(pattern: Seq<char>, text: Seq<char>) -> Option<Seq<Seq<char>>>;

/// For each successive match of `pattern` in `text`, what each group of the
/// pattern captured, the whole match being group 0 and a group that took no
/// part being `None`; `None` if the pattern does not compile.
pub uninterp spec fn regex_groups(pattern: Seq<char>, text: Seq<char>) -> Option<
    Seq<Seq<Option<Seq<char>>>>,
>;

/// Whether `c` has a meaning of its own in a pattern.
pub open spec fn is_meta_character(c: char) -> bool {
    ||| c == '\\'
    ||| c == '.'
    ||| c == '+'
    ||| c == '*'
    ||| c == '?'
    ||| c == '('
    ||| c == ')'
    ||| c == '|'
    ||| c == '['
    ||| c == ']'
    ||| c == '{'
    ||| c == '}'
    ||| c == '^'
    ||| c == '$'
    ||| c == '#'
    ||| c == '&'
    ||| c == '-'
    ||| c == '~'
}

/// `text` with a backslash before each character that has a meaning of its
/// own in a pattern.
pub open spec fn regex_escaped(text: Seq<char>) -> Seq<char>
    decreases text.len(),
{
    if text.len() == 0 {
        Seq::empty()
    } else if is_meta_character(text.last()) {
        regex_escaped(text.drop_last()).push('\\').push(text.last())
    } else {
        regex_escaped(text.drop_last()).push(text.last())
    }
}

/// The groups of the matches, as mathematical values.
pub open spec fn captured(groups: Seq<Vec<Option<String>>>) -> Seq<Seq<Option<Seq<char>>>> {
    groups.map_values(|of_match: Vec<Option<String>>| of_match.deep_view())
}

/// `Regex::new` and `Regex::split` of the `regex` crate: compiles the
/// pattern and collects the parts of the text that no match covers. The
/// result is what `regex_pieces` names; it is an error, with the crate's
/// message, exactly if the pattern does not compile.
#[verifier::external_body]
pub(crate) fn split(pattern: &str, text: &str) -> (pieces: Result<Vec<String>, String>)
    ensures
        match pieces {
            Ok(found) => regex_pieces(pattern@, text@) == Some(texts(found@)),
            Err(_) => regex_pieces(pattern@, text@) is None,
        },
{
    match regex::Regex::new(pattern) {
        Ok(compiled) => Ok(compiled.split(text).map(String::from).collect()),
        Err(e) => Err(e.to_string()),
    }
}

/// `Regex::new` and `Regex::captures_iter` of the `regex` crate: compiles
/// the pattern and collects, match by match, the text of every group. The
/// result is what `regex_groups` names; it is an error, with the crate's
/// message, exactly if the pattern does not compile.
#[verifier::external_body]
pub(crate) fn captures(pattern: &str, text: &str) -> (groups: Result<
    Vec<Vec<Option<String>>>,
    String,
>)
    ensures
        match groups {
            Ok(found) => regex_groups(pattern@, text@) == Some(captured(found@)),
            Err(_) => regex_groups(pattern@, text@) is None,
        },
{
    match regex::Regex::new(pattern) {
        Ok(compiled) => Ok(
            compiled.captures_iter(text).map(
                |found| found.iter().map(|group| group.map(|m| String::from(m.as_str()))).collect(),
            ).collect(),
        ),
        Err(e) => Err(e.to_string()),
    }
}

/// `regex::escape`: the text as a pattern that matches it literally. The
/// crate puts a backslash before each of the characters that
/// `is_meta_character` lists, and leaves the others as they are.
#[verifier::external_body]
pub(crate) fn escape(text: &str) -> (escaped: String)
    ensures
        escaped@ == regex_escaped(text@),
{
    regex::escape(text)
}

/// What group `i` of a match captured, or nothing if the match has no such
/// group or the group took no part in it.
pub open spec fn group(of_match: Seq<Option<Seq<char>>>, i: int) -> Seq<char> {
    if 0 <= i < of_match.len() && of_match[i] is Some {
        of_match[i]->0
    } else {
        Seq::empty()
    }
}

/// What group `i` of a match captured, or nothing if the match has no such
/// group or the group took no part in it.
pub fn group_text(of_match: &Vec<Option<String>>, i: usize) -> (text: &str)
    ensures
        text@ == group(of_match.deep_view(), i as int),
{
    if i < of_match.len() {
        match &of_match[i] {
            Some(text) => {
                assert(of_match.deep_view()[i as int] == Some(text@));
                text.as_str()
            },
            None => {
                assert(of_match.deep_view()[i as int] is None);
                proof {
                    reveal_strlit("");
                }
                ""
            },
        }
    } else {
        proof {
            reveal_strlit("");
        }
        ""
    }
}

/// The pieces of a text with a replacement after each but the last:
/// `pieces[0] + replacements[0] + pieces[1] + ...`. A piece that has no
/// replacement is followed by the next piece.
pub open spec fn interleaved(pieces: Seq<Seq<char>>, replacements: Seq<Seq<char>>) -> Seq<char>
    decreases pieces.len(),
{
    if pieces.len() == 0 {
        Seq::empty()
    } else {
        let n = pieces.len() - 1;
        interleaved(pieces.drop_last(), replacements) + (if 0 < n <= replacements.len() {
            replacements[n - 1]
        } else {
            Seq::empty()
        }) + pieces.last()
    }
}

/// Puts the pieces of a text together again, each match replaced.
pub fn interleave(pieces: &Vec<String>, replacements: &Vec<String>) -> (text: String)
    ensures
        text@ == interleaved(texts(pieces@), texts(replacements@)),
{
    let mut text = String::new();
    let mut i: usize = 0;
    while i < pieces.len()
        invariant
            i <= pieces.len(),
            text@ == interleaved(texts(pieces@).take(i as int), texts(replacements@)),
        decreases pieces.len() - i,
    {
        let ghost before = text@;
        if 0 < i && i <= replacements.len() {
            text.append(replacements[i - 1].as_str());
        } else {
            assert(before + Seq::<char>::empty() == before);
        }
        text.append(pieces[i].as_str());
        proof {
            let grown = texts(pieces@).take(i + 1);
            assert(grown.drop_last() == texts(pieces@).take(i as int));
            assert(grown.last() == pieces@[i as int]@);
        }
        i += 1;
    }
    proof {
        assert(texts(pieces@).take(pieces@.len() as int) == texts(pieces@));
    }
    text
}

} // verus!
