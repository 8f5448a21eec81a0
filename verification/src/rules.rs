//! The text form of a rule set: one rule on every line that is not empty,
//! the tag, `->`, and the pattern with its escapes.

use vstd::prelude::*;
use crate::common::{chars_of, string_of, Tag};

verus! {
/// Why the text of a rule set was rejected.
#[derive(Debug, Clone, Copy, PartialEq, Eq, Structural)]
pub enum RuleError {
    /// The line with this number, counted from 0, is not empty and has no `->`.
    MissingArrow { line: usize },
}

/// The line without the carriage return at its end, if it has one.
pub open spec fn strip_cr(line: Seq<char>) -> Seq<char> {
    if line.len() > 0 && line.last() == '\r' {
        line.drop_last()
    } else {
        line
    }
}

/// The lines of `s` behind the characters `cur` of the line that is being
/// read. A line ends at a line feed; the carriage return before the line
/// feed is not part of it. What stands behind the last line feed is a line
/// if it is not empty.
pub open spec fn split_lines(s: Seq<char>, cur: Seq<char>) -> Seq<Seq<char>>
    decreases s.len(),
{
    if s.len() == 0 {
        if cur.len() > 0 {
            seq![cur]
        } else {
            Seq::empty()
        }
    } else if s[0] == '\n' {
        seq![strip_cr(cur)] + split_lines(s.skip(1), Seq::empty())
    } else {
        split_lines(s.skip(1), cur.push(s[0]))
    }
}

/// The lines of a text.
pub open spec fn lines_of(s: Seq<char>) -> Seq<Seq<char>> {
    split_lines(s, Seq::empty())
}

/// `->` stands at the place `i` of `s`.
pub open spec fn arrow_at(s: Seq<char>, i: int) -> bool {
    0 <= i && i + 1 < s.len() && s[i] == '-' && s[i + 1] == '>'
}

/// The place of the first `->` of `s` at or behind `from`.
pub open spec fn find_arrow(s: Seq<char>, from: int) -> Option<int>
    decreases s.len() - from,
{
    if from < 0 || from + 1 >= s.len() {
        None
    } else if arrow_at(s, from) {
        Some(from)
    } else {
        find_arrow(s, from + 1)
    }
}

/// The text with every `\` that is followed by `second` replaced, with
/// that character, by `to`, from left to right.
pub open spec fn replace_escape(s: Seq<char>, second: char, to: char) -> Seq<char>
    decreases s.len(),
{
    if s.len() == 0 {
        s
    } else if s.len() >= 2 && s[0] == '\\' && s[1] == second {
        seq![to] + replace_escape(s.skip(2), second, to)
    } else {
        seq![s[0]] + replace_escape(s.skip(1), second, to)
    }
}

/// The pattern with its escapes replaced, one kind after the other: tab,
/// line feed and carriage return by the characters they name, then every
/// escaped metacharacter by its character of the private range.
pub open spec fn unescaped(s: Seq<char>) -> Seq<char> {
    let s = replace_escape(s, 't', '\t');
    let s = replace_escape(s, 'n', '\n');
    let s = replace_escape(s, 'r', '\r');
    let s = replace_escape(s, '.', '\u{1000}');
    let s = replace_escape(s, '*', '\u{1001}');
    let s = replace_escape(s, '+', '\u{1002}');
    let s = replace_escape(s, '?', '\u{1003}');
    let s = replace_escape(s, '(', '\u{1004}');
    let s = replace_escape(s, ')', '\u{1005}');
    let s = replace_escape(s, '[', '\u{1006}');
    let s = replace_escape(s, ']', '\u{1007}');
    let s = replace_escape(s, '|', '\u{1008}');
    let s = replace_escape(s, '-', '\u{1009}');
    replace_escape(s, '\\', '\u{100a}')
}

/// The rule of a line: the tag stands before the first `->`, the pattern
/// between it and the next `->` or the end of the line.
pub open spec fn rule_of(line: Seq<char>) -> Option<(Seq<char>, Seq<char>)> {
    match find_arrow(line, 0) {
        None => None,
        Some(i) => {
            let rest = line.skip(i + 2);
            let pattern = match find_arrow(rest, 0) {
                Some(j) => rest.take(j),
                None => rest,
            };
            Some((unescaped(pattern), line.take(i)))
        },
    }
}

/// The rules of the first `k` lines, in order as `(pattern, tag)`; the
/// lines that are empty give none.
pub open spec fn rules_of(lines: Seq<Seq<char>>, k: int) -> Result<
    Seq<(Seq<char>, Seq<char>)>,
    RuleError,
>
    decreases k,
{
    if k <= 0 {
        Ok(Seq::empty())
    } else {
        match rules_of(lines, k - 1) {
            Err(e) => Err(e),
            Ok(rules) => if lines[k - 1].len() == 0 {
                Ok(rules)
            } else {
                match rule_of(lines[k - 1]) {
                    Some(rule) => Ok(rules.push(rule)),
                    None => Err(RuleError::MissingArrow { line: (k - 1) as usize }),
                }
            },
        }
    }
}

pub proof fn lemma_rules_error_persists(lines: Seq<Seq<char>>, i: int, k: int)
    requires
        0 <= i <= k,
        rules_of(lines, i) is Err,
    ensures
        rules_of(lines, k) == rules_of(lines, i),
    decreases k - i,
{
    if i < k {
        lemma_rules_error_persists(lines, i, k - 1);
    }
}

pub open spec fn lines_view(lines: Seq<Vec<char>>) -> Seq<Seq<char>> {
    Seq::new(lines.len(), |i: int| lines[i]@)
}

pub open spec fn rules_view(rules: Seq<(String, Tag)>) -> Seq<(Seq<char>, Seq<char>)> {
    Seq::new(rules.len(), |i: int| (rules[i].0@, rules[i].1@))
}

/// Splits a text into its lines.
fn split(chars: &Vec<char>) -> (lines: Vec<Vec<char>>)
    ensures
        lines_view(lines@) == lines_of(chars@),
{
    let mut lines: Vec<Vec<char>> = Vec::new();
    let mut cur: Vec<char> = Vec::new();
    let mut i: usize = 0;
    proof {
        assert(chars@.skip(0) == chars@);
    }
    while i < chars.len()
        invariant
            i <= chars@.len(),
            lines_of(chars@) == lines_view(lines@) + split_lines(chars@.skip(i as int), cur@),
        decreases chars.len() - i,
    {
        let c = chars[i];
        proof {
            assert(chars@.skip(i as int).skip(1) == chars@.skip(i + 1));
        }
        if c == '\n' {
            if cur.len() > 0 && cur[cur.len() - 1] == '\r' {
                cur.pop();
            }
            lines.push(cur);
            cur = Vec::new();
        } else {
            cur.push(c);
        }
        i += 1;
    }
    if cur.len() > 0 {
        lines.push(cur);
    } else {
    }
    lines
}

/// The place of the first `->`.
fn first_arrow(s: &Vec<char>) -> (r: Option<usize>)
    ensures
        match r {
            Some(i) => find_arrow(s@, 0) == Some(i as int) && i + 1 < s@.len(),
            None => find_arrow(s@, 0) is None,
        },
{
    let mut i: usize = 0;
    while i < s.len() && i + 1 < s.len()
        invariant
            find_arrow(s@, 0) == find_arrow(s@, i as int),
        decreases s.len() - i,
    {
        if s[i] == '-' && s[i + 1] == '>' {
            return Some(i);
        }
        i += 1;
    }
    None
}

/// Replaces every `\` that is followed by `second`, with that character, by `to`.
fn replace(s: &Vec<char>, second: char, to: char) -> (r: Vec<char>)
    ensures
        r@ == replace_escape(s@, second, to),
{
    let mut out: Vec<char> = Vec::new();
    let mut i: usize = 0;
    proof {
        assert(s@.skip(0) == s@);
    }
    while i < s.len()
        invariant
            i <= s@.len(),
            replace_escape(s@, second, to) == out@ + replace_escape(s@.skip(i as int), second, to),
        decreases s.len() - i,
    {
        let ghost rest = s@.skip(i as int);
        if i + 1 < s.len() && s[i] == '\\' && s[i + 1] == second {
            out.push(to);
            proof {
                assert(rest.skip(2) == s@.skip(i + 2));
            }
            i += 2;
        } else {
            out.push(s[i]);
            proof {
                assert(rest.skip(1) == s@.skip(i + 1));
            }
            i += 1;
        }
    }
    out
}

/// Replaces the escapes of a pattern.
pub fn unescape(pattern: &Vec<char>) -> (r: Vec<char>)
    ensures
        r@ == unescaped(pattern@),
{
    let s = replace(pattern, 't', '\t');
    let s = replace(&s, 'n', '\n');
    let s = replace(&s, 'r', '\r');
    let s = replace(&s, '.', '\u{1000}');
    let s = replace(&s, '*', '\u{1001}');
    let s = replace(&s, '+', '\u{1002}');
    let s = replace(&s, '?', '\u{1003}');
    let s = replace(&s, '(', '\u{1004}');
    let s = replace(&s, ')', '\u{1005}');
    let s = replace(&s, '[', '\u{1006}');
    let s = replace(&s, ']', '\u{1007}');
    let s = replace(&s, '|', '\u{1008}');
    let s = replace(&s, '-', '\u{1009}');
    replace(&s, '\\', '\u{100a}')
}

fn part(s: &Vec<char>, from: usize, to: usize) -> (r: Vec<char>)
    requires
        from <= to <= s@.len(),
    ensures
        r@ == s@.subrange(from as int, to as int),
{
    let mut r: Vec<char> = Vec::new();
    let mut i: usize = from;
    while i < to
        invariant
            from <= i <= to,
            to <= s@.len(),
            r@ == s@.subrange(from as int, i as int),
        decreases to - i,
    {
        r.push(s[i]);
        i += 1;
    }
    r
}

/// Reads the rules of a rule set from its text.
pub fn parse_rules(content: &str) -> (r: Result<Vec<(String, Tag)>, RuleError>)
    ensures
        match rules_of(lines_of(content@), lines_of(content@).len() as int) {
            Ok(rules) => r is Ok && rules_view(r->Ok_0@) == rules,
            Err(e) => r is Err && r->Err_0 == e,
        },
{
    let chars = chars_of(content);
    let lines = split(&chars);
    let ghost all = lines_view(lines@);
    let mut pattern: Vec<(String, Tag)> = Vec::new();
    let mut k: usize = 0;
    proof {
        assert(rules_view(pattern@) == Seq::<(Seq<char>, Seq<char>)>::empty());
    }
    while k < lines.len()
        invariant
            k <= lines@.len(),
            all == lines_view(lines@),
            all == lines_of(content@),
            rules_of(all, k as int) == Ok::<Seq<(Seq<char>, Seq<char>)>, RuleError>(
                rules_view(pattern@),
            ),
        decreases lines.len() - k,
    {
        let line = &lines[k];
        if line.len() > 0 {
            match first_arrow(line) {
                None => {
                    proof {
                        lemma_rules_error_persists(all, k + 1, all.len() as int);
                    }
                    return Err(RuleError::MissingArrow { line: k });
                },
                Some(i) => {
                    let tag = part(line, 0, i);
                    let rest = part(line, i + 2, line.len());
                    let raw = match first_arrow(&rest) {
                        Some(j) => part(&rest, 0, j),
                        None => rest,
                    };
                    let text = unescape(&raw);
                    let ghost before = rules_view(pattern@);
                    pattern.push((string_of(&text), Tag(string_of(&tag))));
                    proof {
                        let rest_spec = line@.skip(i + 2);
                        match find_arrow(rest_spec, 0) {
                            Some(j) => {
                            },
                            None => {},
                        }
                        assert(rules_view(pattern@) == before.push(rule_of(line@)->0));
                    }
                },
            }
        }
        k += 1;
    }
    Ok(pattern)
}

} // verus!
