//! The maximal-munch scanner with one character of pushback.

use vstd::prelude::*;
use vstd::std_specs::iter::IteratorSpec;
use crate::ast::PatternError;
use crate::common::{
    chars_of, input2internal, internal2input, string_of, to_input, to_internal, Tag,
};
use crate::dfa::{
    is_subset_automaton, lemma_subset_wf, next_state, targets_in_range, Automaton, Dfa,
};
use crate::minimize::{minimal, minimized};
use crate::subset::subset_automaton;
use crate::nfa::{compile_rules, patterns_view, rules_accept, rules_graph, Rule};

verus! {
/// The state that the automaton is in after the characters `w`, read from
/// state 0, or nothing where a character has no transition.
pub open spec fn run(a: Automaton, w: Seq<char>) -> Option<usize>
    decreases w.len(),
{
    if w.len() == 0 {
        Some(0)
    } else {
        match run(a, w.drop_last()) {
            Some(s) => next_state(a, s as int, w.last()),
            None => None,
        }
    }
}

/// The automaton accepts the first `j` characters of `w`, and `j` is not 0.
pub open spec fn accepted_at(a: Automaton, w: Seq<char>, j: int) -> bool {
    &&& 1 <= j <= w.len()
    &&& match run(a, w.take(j)) {
        Some(s) => a[s as int].accept is Some,
        None => false,
    }
}

/// The length of the longest prefix of `w` that the automaton can read.
pub open spec fn live_len(a: Automaton, w: Seq<char>) -> int
    decreases w.len(),
{
    if w.len() == 0 {
        0
    } else if run(a, w) is Some {
        w.len() as int
    } else {
        live_len(a, w.drop_last())
    }
}

/// The length of the longest prefix of `w` of at most `k` characters that the
/// automaton accepts.
pub open spec fn longest_accepted(a: Automaton, w: Seq<char>, k: int) -> Option<int>
    decreases k,
{
    if k <= 0 {
        None
    } else if accepted_at(a, w, k) {
        Some(k)
    } else {
        longest_accepted(a, w, k - 1)
    }
}

/// The characters that wait to be scanned, in the alphabet of the automaton:
/// the character pushed back, if there is one, and then those of the stream.
pub open spec fn pending(last: Option<char>, raw: Seq<char>) -> Seq<char> {
    let rest = raw.map_values(|c: char| to_internal(c));
    match last {
        Some(c) => seq![to_internal(c)] + rest,
        None => rest,
    }
}

/// The lexeme of `j` characters of `w`, as it is handed out.
pub open spec fn lexeme(w: Seq<char>, j: int) -> Seq<char> {
    w.take(j).map_values(|c: char| to_input(c))
}

/// The token that one scan of the waiting characters `w` gives: the longest
/// accepted prefix among the prefixes that the automaton can read, with the
/// tag of the state that accepts it.
pub open spec fn scan_token(a: Automaton, w: Seq<char>) -> Option<(Seq<char>, Seq<char>)> {
    match longest_accepted(a, w, live_len(a, w)) {
        Some(j) => Some((lexeme(w, j), a[run(a, w.take(j))->0 as int].accept->0)),
        None => None,
    }
}

/// The scan stops at a character that has no transition.
pub open spec fn stalls(a: Automaton, w: Seq<char>) -> bool {
    live_len(a, w) < w.len()
}

/// The character that one scan pushes back: the one that it stops at.
pub open spec fn scan_pushback(a: Automaton, w: Seq<char>) -> Option<char> {
    if stalls(a, w) {
        Some(w[live_len(a, w)])
    } else {
        None
    }
}

/// The number of waiting characters that one scan takes.
pub open spec fn scan_taken(a: Automaton, w: Seq<char>) -> int {
    if stalls(a, w) {
        live_len(a, w) + 1
    } else {
        w.len() as int
    }
}

/// The number of characters that one scan pulls from the stream.
pub open spec fn scan_pulled(a: Automaton, last: Option<char>, raw: Seq<char>) -> int {
    scan_taken(a, pending(last, raw)) - (if last is Some { 1int } else { 0int })
}

/// The scan reads the waiting characters to their end and gives a token.
pub open spec fn scan_completes(a: Automaton, w: Seq<char>) -> bool {
    !stalls(a, w) && scan_token(a, w) is Some
}

/// The tokens that repeated scans of the waiting characters `w` give, up to
/// the first scan that gives none. After a scan the characters from the one
/// that it stopped at wait; those between the end of its token and that
/// character are lost.
pub open spec fn scan_tokens(a: Automaton, w: Seq<char>) -> Seq<(Seq<char>, Seq<char>)>
    decreases w.len(),
{
    match scan_token(a, w) {
        Some(t) => if 0 < live_len(a, w) <= w.len() {
            seq![t] + scan_tokens(a, w.skip(live_len(a, w)))
        } else {
            seq![t]
        },
        None => Seq::empty(),
    }
}

/// The characters that wait when repeated scans of the waiting characters
/// `w` have come to the scan that gives no token.
pub open spec fn scan_rest(a: Automaton, w: Seq<char>) -> Seq<char>
    decreases w.len(),
{
    match scan_token(a, w) {
        Some(t) => if 0 < live_len(a, w) <= w.len() {
            scan_rest(a, w.skip(live_len(a, w)))
        } else {
            w
        },
        None => w,
    }
}

/// One of the repeated scans of the waiting characters `w` reads them to
/// their end and gives a token.
pub open spec fn completes_eventually(a: Automaton, w: Seq<char>) -> bool
    decreases w.len(),
{
    match scan_token(a, w) {
        Some(t) => if stalls(a, w) && 0 < live_len(a, w) {
            completes_eventually(a, w.skip(live_len(a, w)))
        } else {
            true
        },
        None => false,
    }
}

/// How a scan of the whole input ended, from what the scanner holds then.
pub open spec fn status_of(done: bool, pos: usize, last: Option<char>) -> ScanStatus {
    if done {
        ScanStatus::Consumed
    } else {
        match last {
            Some(c) => ScanStatus::Stalled {
                offset: if pos > 0 {
                    (pos - 1) as usize
                } else {
                    0
                },
                character: Some(to_input(c)),
            },
            None => ScanStatus::Stalled { offset: pos, character: None },
        }
    }
}

/// How a scan of the whole input ends, where the character `last` is
/// pushed back, the stream holds `raw`, `pos` characters have been pulled
/// and `done` says whether a scan has read the input to its end before.
pub open spec fn scan_status(
    a: Automaton,
    last: Option<char>,
    raw: Seq<char>,
    pos: usize,
    done: bool,
) -> ScanStatus {
    let w = pending(last, raw);
    let v = scan_rest(a, w);
    let pushback = scan_pushback(a, v);
    let left = v.len() - live_len(a, v) - (if pushback is Some { 1int } else { 0int });
    status_of(done || completes_eventually(a, w), (pos + raw.len() - left) as usize, pushback)
}

/// `outcome` is what a scan of the whole input gives: the tokens up to the
/// first scan that gives none, and how the scan ends.
pub open spec fn is_scan_outcome(
    a: Automaton,
    last: Option<char>,
    raw: Seq<char>,
    pos: usize,
    done: bool,
    outcome: (Seq<(Seq<char>, Seq<char>)>, ScanStatus),
) -> bool {
    outcome.0 == scan_tokens(a, pending(last, raw)) && outcome.1 == scan_status(
        a,
        last,
        raw,
        pos,
        done,
    )
}

/// Once the automaton cannot read a prefix, it cannot read a longer one.
pub proof fn lemma_run_none_persists(a: Automaton, w: Seq<char>, i: int)
    requires
        0 <= i <= w.len(),
        run(a, w.take(i)) is None,
    ensures
        run(a, w) is None,
    decreases w.len() - i,
{
    if i < w.len() {
        assert(w.take(i + 1).drop_last() == w.take(i));
        lemma_run_none_persists(a, w, i + 1);
    } else {
        assert(w.take(i) == w);
    }
}

/// The prefix of `i` characters is the longest that the automaton can read
/// where it can read it and cannot read one character more.
pub proof fn lemma_live_len(a: Automaton, w: Seq<char>, i: int)
    requires
        0 <= i <= w.len(),
        run(a, w.take(i)) is Some,
        i < w.len() ==> run(a, w.take(i + 1)) is None,
    ensures
        live_len(a, w) == i,
    decreases w.len(),
{
    if i == w.len() {
        assert(w.take(i) == w);
    } else {
        lemma_run_none_persists(a, w, i + 1);
        let v = w.drop_last();
        assert(v.take(i) == w.take(i));
        if i < v.len() {
            assert(v.take(i + 1) == w.take(i + 1));
        }
        lemma_live_len(a, v, i);
    }
}

pub proof fn lemma_live_len_bounds(a: Automaton, w: Seq<char>)
    ensures
        0 <= live_len(a, w) <= w.len(),
    decreases w.len(),
{
    if w.len() > 0 && !(run(a, w) is Some) {
        lemma_live_len_bounds(a, w.drop_last());
    }
}

pub proof fn lemma_longest_accepted_bounds(a: Automaton, w: Seq<char>, k: int)
    ensures
        match longest_accepted(a, w, k) {
            Some(j) => 1 <= j <= k && accepted_at(a, w, j),
            None => true,
        },
    decreases k,
{
    if k > 0 && !accepted_at(a, w, k) {
        lemma_longest_accepted_bounds(a, w, k - 1);
    }
}

/// Every state that the automaton is in lies in the automaton.
pub proof fn lemma_run_in_range(a: Automaton, w: Seq<char>)
    requires
        a.len() > 0,
        targets_in_range(a),
    ensures
        match run(a, w) {
            Some(s) => s < a.len(),
            None => true,
        },
    decreases w.len(),
{
    if w.len() > 0 {
        lemma_run_in_range(a, w.drop_last());
        match run(a, w.drop_last()) {
            Some(s) => {
                crate::dfa::lemma_find_target(a[s as int].transitions, w.last());
            },
            None => {},
        }
    }
}

pub open spec fn token_view(t: Option<(String, Tag)>) -> Option<(Seq<char>, Seq<char>)> {
    match t {
        Some((lexeme, tag)) => Some((lexeme@, tag@)),
        None => None,
    }
}

pub open spec fn tokens_view(tokens: Seq<(String, Tag)>) -> Seq<(Seq<char>, Seq<char>)> {
    Seq::new(tokens.len(), |i: int| (tokens[i].0@, tokens[i].1@))
}

/// The automaton `m` is what the rules compile to: the minimization of the
/// subset construction on the automaton of the rule set.
pub open spec fn compiled(rules: Seq<Rule>, m: Automaton) -> bool {
    exists|d: Automaton|
        #[trigger] is_subset_automaton(
            rules_graph(rules, rules.len() as int),
            rules_accept(rules, rules.len() as int),
            0,
            d,
        ) && minimized(d, m)
}

/// The automaton that the rules compile to.
pub open spec fn compiled_automaton(rules: Seq<Rule>) -> Automaton {
    minimal(
        subset_automaton(
            rules_graph(rules, rules.len() as int),
            rules_accept(rules, rules.len() as int),
            0,
        ),
    )
}

/// How a scan of the whole input ended.
#[derive(Debug, Clone, Copy, PartialEq, Eq, Structural)]
pub enum ScanStatus {
    /// The input was read to its end and its last characters gave a token.
    Consumed,
    /// No rule matches at `offset`, counted in characters from the start of
    /// the input; `character` stands there, unless the input ends there.
    Stalled { offset: usize, character: Option<char> },
}

pub struct Lexer<I> where I: Iterator<Item = char> {
    pub input: I,
    pub dfa: Dfa,
    /// The character, in the alphabet of the automaton, that the last scan stopped at.
    pub last_char: Option<char>,
    /// The number of characters pulled from the input.
    pub pos: usize,
    pub is_done: bool,
}

impl<I> Lexer<I> where I: Iterator<Item = char> {
    /// The automaton has a state 0 and its transitions lead to its own states.
    pub open spec fn wf(&self) -> bool {
        self.dfa.model().len() > 0 && targets_in_range(self.dfa.model())
    }

    /// Compiles the rules and binds the scanner to the input.
    pub fn new(input: I, pattern: Vec<(String, Tag)>) -> (r: Result<Self, PatternError>)
        ensures
            match compile_rules(patterns_view(pattern@), pattern@.len() as int) {
                Ok(rules) => r is Ok && r->Ok_0.dfa.model() == compiled_automaton(rules)
                    && compiled(rules, r->Ok_0.dfa.model()) && r->Ok_0.wf() && r->Ok_0.input
                    == input && r->Ok_0.last_char is None && r->Ok_0.pos == 0 && !r->Ok_0.is_done,
                Err(e) => r is Err && r->Err_0 == e,
            },
    {
        let mut dfa = match Dfa::new(pattern) {
            Ok(dfa) => dfa,
            Err(e) => {
                return Err(e);
            },
        };
        dfa.construct();
        let ghost d = dfa.model();
        proof {
            lemma_subset_wf(dfa.graph(), crate::nfa::accept_view(dfa.nfa.accept@), dfa.nfa.start, d);
        }
        dfa.minimize();
        Ok(Lexer { input, dfa, last_char: None, pos: 0, is_done: false })
    }

    /// The next waiting character, in the alphabet of the automaton.
    pub fn get_next_char(&mut self) -> (r: Option<char>)
        requires
            old(self).input.obeys_prophetic_iter_laws(),
            old(self).pos + old(self).input.remaining().len() <= usize::MAX,
        ensures
            final(self).dfa == old(self).dfa,
            final(self).is_done == old(self).is_done,
            final(self).last_char is None,
            final(self).input.obeys_prophetic_iter_laws(),
            final(self).input.decrease() is Some <==> old(self).input.decrease() is Some,
            ({
                let w = pending(old(self).last_char, old(self).input.remaining());
                &&& w.len() > 0 ==> r == Some(w[0])
                &&& w.len() == 0 ==> r is None
                &&& pending(final(self).last_char, final(self).input.remaining()) == if w.len()
                    > 0 {
                    w.skip(1)
                } else {
                    w
                }
            }),
            old(self).last_char is Some ==> final(self).input == old(self).input && final(self).pos
                == old(self).pos,
            old(self).last_char is None && r is Some ==> final(self).input.remaining() == old(
                self,
            ).input.remaining().skip(1) && final(self).pos == old(self).pos + 1 && (old(
                self,
            ).input.decrease() is Some ==> final(self).input.decrease()->0 < old(
                self,
            ).input.decrease()->0),
            old(self).last_char is None && r is None ==> final(self).input.remaining() == old(
                self,
            ).input.remaining() && final(self).pos == old(self).pos
                && old(self).input.remaining().len() == 0,
    {
        if let Some(c) = self.last_char {
            self.last_char = None;
            let c = input2internal(c);
            return Some(c);
        }
        match self.input.next() {
            Some(c) => {
                self.pos += 1;
                Some(input2internal(c))
            },
            None => {
                None
            },
        }
    }

    /// Scans one token: the longest prefix of the waiting characters that
    /// a rule matches. The character that the scan stops at is pushed back
    /// for the next scan.
    pub fn get_next_token(&mut self) -> (r: Option<(String, Tag)>)
        requires
            old(self).wf(),
            old(self).input.obeys_prophetic_iter_laws(),
            old(self).input.decrease() is Some,
            old(self).pos + old(self).input.remaining().len() <= usize::MAX,
        ensures
            final(self).dfa == old(self).dfa,
            final(self).input.obeys_prophetic_iter_laws(),
            final(self).input.decrease() is Some,
            ({
                let a = old(self).dfa.model();
                let raw = old(self).input.remaining();
                let w = pending(old(self).last_char, raw);
                let pulled = scan_pulled(a, old(self).last_char, raw);
                &&& token_view(r) == scan_token(a, w)
                &&& final(self).last_char == scan_pushback(a, w)
                &&& 0 <= pulled <= raw.len()
                &&& final(self).input.remaining() == raw.skip(pulled)
                &&& final(self).pos == old(self).pos + pulled
                &&& final(self).is_done == (old(self).is_done || scan_completes(a, w))
                &&& pending(final(self).last_char, final(self).input.remaining()) == w.skip(
                    live_len(a, w),
                )
                &&& stalls(a, w) && pulled > 0 ==> final(self).input.decrease()->0 < old(
                    self,
                ).input.decrease()->0
            }),
    {
        let ghost a = self.dfa.model();
        let ghost raw = self.input.remaining();
        let ghost w = pending(self.last_char, raw);
        let ghost flag: int = if self.last_char is Some { 1 } else { 0 };
        let ghost mut i: int = 0;
        let mut state: usize = 0;
        let mut token = String::new();
        let mut last_accept: Option<(String, Tag)> = None;
        loop
            invariant
                self.wf(),
                self.dfa == old(self).dfa,
                a == self.dfa.model(),
                self.is_done == old(self).is_done,
                self.input.obeys_prophetic_iter_laws(),
                self.input.decrease() is Some,
                old(self).input.decrease() is Some,
                self.pos + self.input.remaining().len() <= usize::MAX,
                raw == old(self).input.remaining(),
                w == pending(old(self).last_char, raw),
                w.len() == raw.len() + flag,
                flag == (if old(self).last_char is Some { 1int } else { 0int }),
                0 <= i <= w.len(),
                pending(self.last_char, self.input.remaining()) == w.skip(i),
                i > 0 ==> self.last_char is None,
                i == 0 ==> self.last_char == old(self).last_char && self.input == old(self).input
                    && self.pos == old(self).pos,
                i > 0 ==> self.pos == old(self).pos + i - flag && self.input.remaining()
                    == raw.skip(i - flag),
                i - flag > 0 ==> self.input.decrease()->0 < old(self).input.decrease()->0,
                i > 0 && i - flag == 0 ==> self.input == old(self).input,
                run(a, w.take(i)) == Some(state),
                state < a.len(),
                token@ == w.take(i),
                token_view(last_accept) == match longest_accepted(a, w, i) {
                    Some(j) => Some((w.take(j), a[run(a, w.take(j))->0 as int].accept->0)),
                    None => None,
                },
            decreases (if self.last_char is Some { 1int } else { 0int }), self.input.decrease()->0,
        {
            match self.get_next_char() {
                Some(c) => {
                    proof {
                        assert(w.take(i + 1).drop_last() == w.take(i));
                        if i > 0 {
                        } else if flag == 0 {
                        } else {
                        }
                    }
                    match self.dfa.get_next_state(state, c) {
                        Some(next_state) => {
                            proof {
                                crate::dfa::lemma_find_target(a[state as int].transitions, c);
                            }
                            token.push(c);
                            match &self.dfa.states[next_state].accept {
                                Some(accept_tag) => {
                                    last_accept = Some((token.clone(), accept_tag.clone()));
                                },
                                None => {},
                            }
                            state = next_state;
                            proof {
                                i = i + 1;
                            }
                        },
                        None => {
                            self.last_char = Some(c);
                            proof {
                                lemma_live_len(a, w, i);
                            }
                            return finish_token(last_accept);
                        },
                    }
                },
                None => {
                    self.last_char = None;
                    if last_accept.is_some() {
                        self.is_done = true;
                    }
                    proof {
                        lemma_live_len(a, w, i);
                    }
                    return finish_token(last_accept);
                },
            }
        }
    }

    /// How the scan stands: done, or stopped at a character or at the end
    /// of the input.
    pub fn status(&self) -> (r: ScanStatus)
        ensures
            r == status_of(self.is_done, self.pos, self.last_char),
    {
        if self.is_done {
            ScanStatus::Consumed
        } else {
            match self.last_char {
                Some(c) => ScanStatus::Stalled {
                    offset: if self.pos > 0 {
                        self.pos - 1
                    } else {
                        0
                    },
                    character: Some(internal2input(c)),
                },
                None => ScanStatus::Stalled { offset: self.pos, character: None },
            }
        }
    }

    /// Scans the whole input: the tokens up to the first scan that gives
    /// none, and how the scan ended.
    pub fn scan(&mut self) -> (r: (Vec<(String, Tag)>, ScanStatus))
        requires
            old(self).wf(),
            old(self).input.obeys_prophetic_iter_laws(),
            old(self).input.decrease() is Some,
            old(self).pos + old(self).input.remaining().len() <= usize::MAX,
        ensures
            final(self).dfa == old(self).dfa,
            final(self).input.obeys_prophetic_iter_laws(),
            final(self).input.decrease() is Some,
            ({
                let a = old(self).dfa.model();
                let raw = old(self).input.remaining();
                let w = pending(old(self).last_char, raw);
                let v = scan_rest(a, w);
                &&& tokens_view(r.0@) == scan_tokens(a, w)
                &&& final(self).last_char == scan_pushback(a, v)
                &&& pending(final(self).last_char, final(self).input.remaining()) == v.skip(
                    live_len(a, v),
                )
                &&& final(self).input.remaining().len() <= raw.len()
                &&& final(self).pos + final(self).input.remaining().len() == old(self).pos
                    + raw.len()
                &&& final(self).is_done == (old(self).is_done || completes_eventually(a, w))
                &&& r.1 == status_of(final(self).is_done, final(self).pos, final(self).last_char)
                &&& is_scan_outcome(
                    a,
                    old(self).last_char,
                    raw,
                    old(self).pos,
                    old(self).is_done,
                    (tokens_view(r.0@), r.1),
                )
            }),
    {
        let ghost a = self.dfa.model();
        let ghost raw = self.input.remaining();
        let ghost w = pending(self.last_char, raw);
        let ghost mut cur = w;
        let ghost mut live: int = 1;
        let mut tokens: Vec<(String, Tag)> = Vec::new();
        loop
            invariant
                self.wf(),
                self.dfa == old(self).dfa,
                a == self.dfa.model(),
                self.input.obeys_prophetic_iter_laws(),
                self.input.decrease() is Some,
                self.pos + self.input.remaining().len() <= usize::MAX,
                raw == old(self).input.remaining(),
                w == pending(old(self).last_char, raw),
                cur == pending(self.last_char, self.input.remaining()),
                self.input.remaining().len() <= raw.len(),
                self.pos == old(self).pos + raw.len() - self.input.remaining().len(),
                scan_tokens(a, w) == tokens_view(tokens@) + scan_tokens(a, cur),
                scan_rest(a, w) == scan_rest(a, cur),
                live == 0 || live == 1,
                live == 0 ==> cur.len() == 0,
                live == 0 ==> self.is_done,
                live == 1 ==> self.is_done == old(self).is_done,
                completes_eventually(a, w) == (live == 0 || completes_eventually(a, cur)),
            decreases live, self.input.decrease()->0,
        {
            match self.get_next_token() {
                Some(token) => {
                    tokens.push(token);
                    proof {
                        lemma_live_len_bounds(a, cur);
                        if self.last_char is None {
                            live = 0;
                        }
                        cur = cur.skip(live_len(a, cur));
                    }
                },
                None => {
                    let status = self.status();
                    proof {
                        lemma_live_len_bounds(a, cur);
                    }
                    return (tokens, status);
                },
            }
        }
    }

    pub fn is_done(&self) -> (r: bool)
        ensures
            r == self.is_done,
    {
        self.is_done
    }
}

/// Maps the lexeme of a token back to the characters of the input.
fn finish_token(last_accept: Option<(String, Tag)>) -> (r: Option<(String, Tag)>)
    ensures
        match (last_accept, r) {
            (Some((token, tag)), Some((lexeme, out_tag))) => lexeme@ == token@.map_values(
                |c: char| to_input(c),
            ) && out_tag@ == tag@,
            (None, None) => true,
            _ => false,
        },
{
    match last_accept {
        Some((token, tag)) => {
            let chars = chars_of(token.as_str());
            let mut out: Vec<char> = Vec::new();
            let mut i: usize = 0;
            while i < chars.len()
                invariant
                    i <= chars@.len(),
                    out@ == chars@.take(i as int).map_values(|c: char| to_input(c)),
                decreases chars.len() - i,
            {
                out.push(internal2input(chars[i]));
                i += 1;
            }
            Some((string_of(&out), tag))
        },
        None => None,
    }
}

} // verus!
