//! Character classes, runs of characters and trimming, over `Seq<char>` for
//! contracts and over `Vec<char>` / `&str` for the code that computes them.

use vstd::prelude::*;
use vstd::string::StrSliceExecFns;
use vstd::string::StringExecFns;

verus! {

/// Whether `c` has the Unicode property `White_Space`: a space, a control
/// character from tab to carriage return, the next-line character, or one
/// of the spaces and separators beyond ASCII.
pub open spec fn is_whitespace(c: char) -> bool {
    ||| c == ' '
    ||| '\u{9}' <= c <= '\u{d}'
    ||| c == '\u{85}'
    ||| c == '\u{a0}'
    ||| c == '\u{1680}'
    ||| '\u{2000}' <= c <= '\u{200a}'
    ||| c == '\u{2028}'
    ||| c == '\u{2029}'
    ||| c == '\u{202f}'
    ||| c == '\u{205f}'
    ||| c == '\u{3000}'
}

/// The classes of characters that the directive grammar distinguishes.
#[derive(Clone, Copy, Debug)]
pub enum CharClass {
    /// A space or a tab.
    Blank,
    /// Anything but a carriage return or a line feed.
    Inline,
    /// Unicode whitespace.
    Whitespace,
    /// A line feed.
    LineFeed,
    /// Anything but a line feed.
    NoLineFeed,
}

impl CharClass {
    /// Whether `c` belongs to the class.
    pub open spec fn holds(self, c: char) -> bool {
        match self {
            CharClass::Blank => c == ' ' || c == '\t',
            CharClass::Inline => c != '\r' && c != '\n',
            CharClass::Whitespace => is_whitespace(c),
            CharClass::LineFeed => c == '\n',
            CharClass::NoLineFeed => c != '\n',
        }
    }

    /// Decides membership of `c` in the class.
    pub fn contains(self, c: char) -> (b: bool)
        ensures
            b == self.holds(c),
    {
        match self {
            CharClass::Blank => c == ' ' || c == '\t',
            CharClass::Inline => c != '\r' && c != '\n',
            CharClass::Whitespace => {
                c == ' ' || ('\u{9}' <= c && c <= '\u{d}') || c == '\u{85}' || c == '\u{a0}'
                    || c == '\u{1680}' || ('\u{2000}' <= c && c <= '\u{200a}') || c
                    == '\u{2028}' || c == '\u{2029}' || c == '\u{202f}' || c == '\u{205f}'
                    || c == '\u{3000}'
            },
            CharClass::LineFeed => c == '\n',
            CharClass::NoLineFeed => c != '\n',
        }
    }
}

/// Length of the longest prefix of `s` made of characters of `class`.
pub open spec fn run_len(s: Seq<char>, class: CharClass) -> nat
    decreases s.len(),
{
    if s.len() > 0 && class.holds(s[0]) {
        1 + run_len(s.drop_first(), class)
    } else {
        0
    }
}

/// Length of the longest suffix of `s` made of characters of `class`.
pub open spec fn trailing_len(s: Seq<char>, class: CharClass) -> nat
    decreases s.len(),
{
    if s.len() > 0 && class.holds(s.last()) {
        1 + trailing_len(s.drop_last(), class)
    } else {
        0
    }
}

/// `s` without its leading and trailing Unicode whitespace.
pub open spec fn trimmed(s: Seq<char>) -> Seq<char> {
    let tail = s.skip(run_len(s, CharClass::Whitespace) as int);
    tail.take(tail.len() - trailing_len(tail, CharClass::Whitespace))
}

/// A run is a prefix: it never exceeds the sequence.
pub proof fn lemma_run_len_bound(s: Seq<char>, class: CharClass)
    ensures
        run_len(s, class) <= s.len(),
    decreases s.len(),
{
    if s.len() > 0 && class.holds(s[0]) {
        lemma_run_len_bound(s.drop_first(), class);
    }
}

/// What a run is: every character in it belongs to the class, and the
/// character after it, if there is one, does not.
pub proof fn lemma_run_len_is_maximal(s: Seq<char>, class: CharClass)
    ensures
        run_len(s, class) <= s.len(),
        forall|i: int| 0 <= i < run_len(s, class) ==> class.holds(#[trigger] s[i]),
        run_len(s, class) < s.len() ==> !class.holds(s[run_len(s, class) as int]),
    decreases s.len(),
{
    if s.len() > 0 && class.holds(s[0]) {
        let t = s.drop_first();
        lemma_run_len_is_maximal(t, class);
        assert forall|i: int| 0 <= i < run_len(s, class) implies class.holds(#[trigger] s[i]) by {
            if i > 0 {
                assert(s[i] == t[i - 1]);
            }
        }
        if run_len(s, class) < s.len() {
            assert(s[run_len(s, class) as int] == t[run_len(t, class) as int]);
        }
    }
}

/// A prefix of class characters followed by a character outside the class
/// (or by the end) is the run.
pub proof fn lemma_run_len_unique(s: Seq<char>, class: CharClass, n: int)
    requires
        0 <= n <= s.len(),
        forall|i: int| 0 <= i < n ==> class.holds(#[trigger] s[i]),
        n < s.len() ==> !class.holds(s[n]),
    ensures
        run_len(s, class) == n,
    decreases s.len(),
{
    if n > 0 {
        let t = s.drop_first();
        assert(class.holds(s[0]));
        assert forall|i: int| 0 <= i < n - 1 implies class.holds(#[trigger] t[i]) by {
            assert(t[i] == s[i + 1]);
        }
        if n - 1 < t.len() {
            assert(t[n - 1] == s[n]);
        }
        lemma_run_len_unique(t, class, n - 1);
    }
}

/// A suffix of class characters preceded by a character outside the class
/// (or by the start) is the trailing run.
pub proof fn lemma_trailing_len_unique(s: Seq<char>, class: CharClass, n: int)
    requires
        0 <= n <= s.len(),
        forall|i: int| s.len() - n <= i < s.len() ==> class.holds(#[trigger] s[i]),
        n < s.len() ==> !class.holds(s[s.len() - n - 1]),
    ensures
        trailing_len(s, class) == n,
    decreases s.len(),
{
    if n > 0 {
        let t = s.drop_last();
        assert(class.holds(s[s.len() - 1]));
        assert forall|i: int| t.len() - (n - 1) <= i < t.len() implies class.holds(
            #[trigger] t[i],
        ) by {
            assert(t[i] == s[i]);
        }
        if n - 1 < t.len() {
            assert(t[t.len() - (n - 1) - 1] == s[s.len() - n - 1]);
        }
        lemma_trailing_len_unique(t, class, n - 1);
    }
}

/// Copies the characters of `s` into a vector, so that they can be indexed
/// in constant time.
pub fn to_chars(s: &str) -> (chars: Vec<char>)
    ensures
        chars@ == s@,
{
    let mut chars: Vec<char> = Vec::new();
    for c in it: s.chars()
        invariant
            it.seq() == s@,
            chars@ == it.seq().take(it.index() as int),
    {
        chars.push(c);
    }
    chars
}

/// The end of the run of `class` characters that starts at `from`.
pub fn run_end(chars: &Vec<char>, from: usize, class: CharClass) -> (to: usize)
    requires
        from <= chars.len(),
    ensures
        from <= to <= chars.len(),
        to == from + run_len(chars@.skip(from as int), class),
{
    let mut to: usize = from;
    while to < chars.len() && class.contains(chars[to])
        invariant
            from <= to <= chars.len(),
            forall|i: int| from <= i < to ==> class.holds(#[trigger] chars@[i]),
        decreases chars.len() - to,
    {
        to += 1;
    }
    proof {
        let s = chars@.skip(from as int);
        assert forall|i: int| 0 <= i < to - from implies class.holds(#[trigger] s[i]) by {
            assert(s[i] == chars@[from + i]);
        }
        lemma_run_len_unique(s, class, to - from);
    }
    to
}

/// The start of the trailing run of `class` characters of `chars[from..to]`.
pub fn trailing_run_start(chars: &Vec<char>, from: usize, to: usize, class: CharClass) -> (start:
    usize)
    requires
        from <= to <= chars.len(),
    ensures
        from <= start <= to,
        start == to - trailing_len(chars@.subrange(from as int, to as int), class),
{
    let mut start: usize = to;
    while start > from && class.contains(chars[start - 1])
        invariant
            from <= start <= to <= chars.len(),
            forall|i: int| start <= i < to ==> class.holds(#[trigger] chars@[i]),
        decreases start,
    {
        start -= 1;
    }
    proof {
        let s = chars@.subrange(from as int, to as int);
        assert forall|i: int| s.len() - (to - start) <= i < s.len() implies class.holds(
            #[trigger] s[i],
        ) by {
            assert(s[i] == chars@[from + i]);
        }
        lemma_trailing_len_unique(s, class, to - start);
    }
    start
}

/// `s` without its leading and trailing whitespace.
pub fn trim(s: &str) -> (t: &str)
    ensures
        t@ == trimmed(s@),
{
    let chars = to_chars(s);
    let start = run_end(&chars, 0, CharClass::Whitespace);
    let end = trailing_run_start(&chars, start, chars.len(), CharClass::Whitespace);
    proof {
        assert(chars@.skip(0) == chars@);
        let tail = chars@.skip(start as int);
        assert(tail == chars@.subrange(start as int, chars@.len() as int));
        assert(tail.take(end - start) == chars@.subrange(start as int, end as int));
    }
    s.substring_char(start, end)
}

/// Whether two texts hold the same characters.
pub fn same_text(left: &str, right: &str) -> (same: bool)
    ensures
        same == (left@ == right@),
{
    String::from_str(left) == String::from_str(right)
}

/// `String::push` of the standard library: appends one character.
#[verifier::external_body]
pub(crate) fn push_char(text: &mut String, c: char)
    ensures
        final(text)@ == old(text)@.push(c),
{
    text.push(c)
}

/// The characters `chars[from..to]` as a string.
pub fn string_of(chars: &Vec<char>, from: usize, to: usize) -> (text: String)
    requires
        from <= to <= chars.len(),
    ensures
        text@ == chars@.subrange(from as int, to as int),
{
    let mut text = String::new();
    let mut i: usize = from;
    while i < to
        invariant
            from <= i <= to <= chars.len(),
            text@ == chars@.subrange(from as int, i as int),
        decreases to - i,
    {
        push_char(&mut text, chars[i]);
        proof {
            assert(chars@.subrange(from as int, i as int).push(chars@[i as int])
                == chars@.subrange(from as int, i + 1));
        }
        i += 1;
    }
    text
}

/// `line` without the carriage return that it ends with, if it ends with one.
pub open spec fn without_carriage_return(line: Seq<char>) -> Seq<char> {
    if line.len() > 0 && line.last() == '\r' {
        line.drop_last()
    } else {
        line
    }
}

/// The lines of `s`. A line ends with a line feed, or with a carriage return
/// and a line feed, neither of which belongs to it; the last line may end
/// with the text instead, and then it is taken as it stands.
pub open spec fn lines_of(s: Seq<char>) -> Seq<Seq<char>>
    decreases s.len(),
{
    let n = run_len(s, CharClass::NoLineFeed) as int;
    if s.len() == 0 {
        Seq::empty()
    } else if n >= s.len() {
        seq![s]
    } else {
        seq![without_carriage_return(s.take(n))] + lines_of(s.skip(n + 1))
    }
}

/// The texts of `lines`, as mathematical values.
pub open spec fn texts(lines: Seq<String>) -> Seq<Seq<char>> {
    lines.map_values(|line: String| line@)
}

/// Splits a text into its lines.
pub fn split_lines(content: &str) -> (lines: Vec<String>)
    ensures
        texts(lines@) == lines_of(content@),
{
    let chars = to_chars(content);
    let mut lines: Vec<String> = Vec::new();
    let mut start: usize = 0;
    proof {
        assert(chars@.skip(0) == chars@);
        assert(texts(lines@) =~= Seq::<Seq<char>>::empty());
    }
    while start < chars.len()
        invariant
            start <= chars.len(),
            chars@ == content@,
            texts(lines@) + lines_of(chars@.skip(start as int)) == lines_of(content@),
        decreases chars.len() - start,
    {
        let ghost tail = chars@.skip(start as int);
        let ghost done = texts(lines@);
        let end = run_end(&chars, start, CharClass::NoLineFeed);
        proof {
            lemma_run_len_bound(tail, CharClass::NoLineFeed);
        }
        if end >= chars.len() {
            let line = string_of(&chars, start, end);
            lines.push(line);
            proof {
                assert(chars@.subrange(start as int, end as int) == tail);
                assert(texts(lines@) =~= done.push(tail));
                assert(lines_of(chars@.skip(end as int)) =~= Seq::<Seq<char>>::empty());
                assert(done.push(tail) + Seq::<Seq<char>>::empty() =~= done + seq![tail]);
            }
            start = end;
        } else {
            let stop = if end > start && chars[end - 1] == '\r' {
                end - 1
            } else {
                end
            };
            let line = string_of(&chars, start, stop);
            lines.push(line);
            proof {
                let raw = tail.take(end - start);
                assert(raw == chars@.subrange(start as int, end as int));
                assert(raw.len() > 0 ==> raw.last() == chars@[end - 1]);
                assert(chars@.subrange(start as int, stop as int) == without_carriage_return(
                    raw,
                ));
                assert(tail.skip(end - start + 1) == chars@.skip(end + 1));
                assert(texts(lines@) =~= done.push(without_carriage_return(raw)));
                assert(done.push(without_carriage_return(raw)) + lines_of(chars@.skip(end + 1))
                    =~= done + (seq![without_carriage_return(raw)] + lines_of(
                    chars@.skip(end + 1),
                )));
            }
            start = end + 1;
        }
    }
    proof {
        assert(lines_of(chars@.skip(start as int)) =~= Seq::<Seq<char>>::empty());
        assert(texts(lines@) + Seq::<Seq<char>>::empty() =~= texts(lines@));
    }
    lines
}

/// `lines` with `separator` between each two of them.
pub open spec fn joined(lines: Seq<Seq<char>>, separator: Seq<char>) -> Seq<char>
    decreases lines.len(),
{
    if lines.len() == 0 {
        Seq::empty()
    } else if lines.len() == 1 {
        lines[0]
    } else {
        joined(lines.drop_last(), separator) + separator + lines.last()
    }
}

/// Joins lines, with `separator` between each two of them.
pub fn join(lines: &Vec<String>, separator: &str) -> (text: String)
    ensures
        text@ == joined(texts(lines@), separator@),
{
    let mut text = String::new();
    let mut i: usize = 0;
    while i < lines.len()
        invariant
            i <= lines.len(),
            text@ == joined(texts(lines@).take(i as int), separator@),
        decreases lines.len() - i,
    {
        if i > 0 {
            text.append(separator);
        }
        text.append(lines[i].as_str());
        proof {
            let grown = texts(lines@).take(i + 1);
            assert(grown.drop_last() == texts(lines@).take(i as int));
            assert(grown.last() == lines@[i as int]@);
            if i == 0 {
                assert(Seq::<char>::empty() + lines@[i as int]@ == lines@[i as int]@);
            }
        }
        i += 1;
    }
    proof {
        assert(texts(lines@).take(lines@.len() as int) == texts(lines@));
    }
    text
}

/// `text` without the line feeds that it ends with.
pub open spec fn without_trailing_line_feeds(text: Seq<char>) -> Seq<char> {
    text.take(text.len() - trailing_len(text, CharClass::LineFeed))
}

/// `text` without the line feeds that it ends with.
pub fn trim_line_feeds(text: &str) -> (trimmed: String)
    ensures
        trimmed@ == without_trailing_line_feeds(text@),
{
    let chars = to_chars(text);
    let end = trailing_run_start(&chars, 0, chars.len(), CharClass::LineFeed);
    proof {
        assert(chars@.subrange(0, chars@.len() as int) == chars@);
        assert(chars@.subrange(0, end as int) == chars@.take(end as int));
    }
    string_of(&chars, 0, end)
}

} // verus!
