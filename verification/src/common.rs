//! Token tags and the escape alphabet shared by the pattern parser and the scanner.

use vstd::prelude::*;
use vstd::std_specs::iter::IteratorSpec;

verus! {
/// Opaque label naming a token category.
#[derive(Debug, PartialEq, Eq, Hash)]
pub struct Tag(pub String);

impl View for Tag {
    type V = Seq<char>;

    open spec fn view(&self) -> Seq<char> {
        self.0@
    }
}

impl Clone for Tag {
    fn clone(&self) -> (r: Self)
        ensures
            r@ == self@,
    {
        Tag(self.0.clone())
    }
}

impl Tag {
    /// Whether two tags carry the same label.
    pub fn same(&self, other: &Tag) -> (r: bool)
        ensures
            r == (self@ == other@),
    {
        self.0 == other.0
    }
}

/// The private code point that stands for the metacharacter `c`, or `c` itself
/// when `c` is not a metacharacter.
pub open spec fn to_internal(c: char) -> char {
    if c == '.' {
        '\u{1000}'
    } else if c == '*' {
        '\u{1001}'
    } else if c == '+' {
        '\u{1002}'
    } else if c == '?' {
        '\u{1003}'
    } else if c == '(' {
        '\u{1004}'
    } else if c == ')' {
        '\u{1005}'
    } else if c == '[' {
        '\u{1006}'
    } else if c == ']' {
        '\u{1007}'
    } else if c == '|' {
        '\u{1008}'
    } else if c == '-' {
        '\u{1009}'
    } else if c == '\\' {
        '\u{100a}'
    } else {
        c
    }
}

/// The metacharacter that the private code point `c` stands for, or `c` itself
/// outside the private range.
pub open spec fn to_input(c: char) -> char {
    if c == '\u{1000}' {
        '.'
    } else if c == '\u{1001}' {
        '*'
    } else if c == '\u{1002}' {
        '+'
    } else if c == '\u{1003}' {
        '?'
    } else if c == '\u{1004}' {
        '('
    } else if c == '\u{1005}' {
        ')'
    } else if c == '\u{1006}' {
        '['
    } else if c == '\u{1007}' {
        ']'
    } else if c == '\u{1008}' {
        '|'
    } else if c == '\u{1009}' {
        '-'
    } else if c == '\u{100a}' {
        '\\'
    } else {
        c
    }
}

/// Whether `c` lies in the private range reserved for escaped metacharacters.
pub open spec fn is_sentinel(c: char) -> bool {
    0x1000 <= c as u32 <= 0x100a
}

pub fn input2internal(input_char: char) -> (r: char)
    ensures
        r == to_internal(input_char),
{
    match input_char {
        '.' => '\u{1000}',
        '*' => '\u{1001}',
        '+' => '\u{1002}',
        '?' => '\u{1003}',
        '(' => '\u{1004}',
        ')' => '\u{1005}',
        '[' => '\u{1006}',
        ']' => '\u{1007}',
        '|' => '\u{1008}',
        '-' => '\u{1009}',
        '\\' => '\u{100a}',
        _ => input_char,
    }
}

pub fn internal2input(internal_char: char) -> (r: char)
    ensures
        r == to_input(internal_char),
{
    match internal_char {
        '\u{1000}' => '.',
        '\u{1001}' => '*',
        '\u{1002}' => '+',
        '\u{1003}' => '?',
        '\u{1004}' => '(',
        '\u{1005}' => ')',
        '\u{1006}' => '[',
        '\u{1007}' => ']',
        '\u{1008}' => '|',
        '\u{1009}' => '-',
        '\u{100a}' => '\\',
        _ => internal_char,
    }
}

/// Mapping a character into the internal alphabet and back restores it, unless
/// the character already lies in the private range.
pub proof fn lemma_escape_round_trip(c: char)
    requires
        !is_sentinel(c),
    ensures
        to_input(to_internal(c)) == c,
        is_sentinel(to_internal(c)) || to_internal(c) == c,
{
}

/// `String::push` appends one character to the end of the string.
pub assume_specification[ String::push ](s: &mut String, c: char)
    ensures
        final(s)@ == old(s)@.push(c),
;

/// Builds a string from a list of characters.
pub(crate) fn string_of(v: &Vec<char>) -> (s: String)
    ensures
        s@ == v@,
{
    let mut s = String::new();
    let mut i: usize = 0;
    while i < v.len()
        invariant
            i <= v.len(),
            s@ == v@.take(i as int),
        decreases v.len() - i,
    {
        s.push(v[i]);
        i += 1;
    }
    s
}

/// Collects the characters of a string slice.
pub(crate) fn chars_of(s: &str) -> (v: Vec<char>)
    ensures
        v@ == s@,
{
    let mut it = s.chars();
    let mut v: Vec<char> = Vec::new();
    let ghost all = s@;
    loop
        invariant
            it.obeys_prophetic_iter_laws(),
            it.decrease() is Some,
            all == v@ + it.remaining(),
        ensures
            v@ == all,
        decreases it.decrease()->0,
    {
        match it.next() {
            Some(c) => { v.push(c); }
            None => { break; }
        }
    }
    v
}

} // verus!
