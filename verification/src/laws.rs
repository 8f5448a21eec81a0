//! What holds of the pipeline as a whole.

use vstd::prelude::*;
use crate::ast::{pattern_tree, AstNode};
use crate::common::{is_sentinel, to_internal};
use crate::dfa::{
    deterministic, first_accept, is_subset_automaton, lemma_subset_wf, next_state,
    strictly_increasing, tag_of, targets_in_range, Automaton,
};
use crate::language::{
    edge_kept, extends, label, lemma_extends_trans, lemma_new_edge, lemma_reach_concat,
    lemma_reach_lift, lemma_thompson_complete, lemma_thompson_extends, nfa_reach, valid_path,
    word_matches,
};
use crate::lexer::{
    accepted_at, compiled, completes_eventually, is_scan_outcome, lemma_live_len_bounds,
    lemma_longest_accepted_bounds, lexeme, live_len, longest_accepted, run, scan_completes,
    scan_pushback, scan_rest, scan_token, scan_tokens, stalls, ScanStatus,
};
use crate::minimize::{is_quotient, minimized};
use crate::nfa::{
    compile_rules, lemma_rules_graph_len, lemma_rules_states_monotone, lemma_thompson_shape,
    rule_fragment, rules_accept, rules_graph, rules_states, state_count, thompson, Rule,
};
use crate::render::{lemma_pattern_reads_back, pattern_of, plain_tree};
use crate::simulation::{
    lemma_first_accept_some, lemma_quotient_follows, lemma_quotient_step, lemma_subset_follows,
    lemma_tag_of_listed, lemma_tag_of_some,
};

verus! {
/// Determinism: two scans of the same input, from the same state of the
/// scanner and with the same automaton, give the same tokens and end in the
/// same way.
pub proof fn lemma_scan_deterministic(
    a: Automaton,
    last: Option<char>,
    raw: Seq<char>,
    pos: usize,
    done: bool,
    first: (Seq<(Seq<char>, Seq<char>)>, ScanStatus),
    second: (Seq<(Seq<char>, Seq<char>)>, ScanStatus),
)
    requires
        is_scan_outcome(a, last, raw, pos, done, first),
        is_scan_outcome(a, last, raw, pos, done, second),
    ensures
        first == second,
{
}

/// No state of `d` lacks a transition that the state it is merged into has.
pub open spec fn merges_exactly(d: Automaton, m: Automaton, cls: Seq<usize>) -> bool {
    forall|s: int, c: char|
        0 <= s < d.len() && next_state(m, cls[s] as int, c) is Some ==> (#[trigger] next_state(
            d,
            s,
            c,
        )) is Some
}

/// Where the merge is exact, the merged automaton is in the group of the
/// state that the other is in, and reads a word only if the other does.
pub proof fn lemma_exact_run(d: Automaton, m: Automaton, cls: Seq<usize>, w: Seq<char>)
    requires
        is_quotient(d, m, cls),
        d.len() > 0,
        targets_in_range(d),
        deterministic(d),
        merges_exactly(d, m, cls),
    ensures
        match run(d, w) {
            Some(s) => s < d.len() && run(m, w) == Some(cls[s as int]),
            None => run(m, w) is None,
        },
    decreases w.len(),
{
    if w.len() > 0 {
        lemma_exact_run(d, m, cls, w.drop_last());
        match run(d, w.drop_last()) {
            Some(s) => {
                if next_state(d, s as int, w.last()) is Some {
                    lemma_quotient_step(d, m, cls, s as int, w.last());
                }
            },
            None => {},
        }
    }
}

pub proof fn lemma_exact_accepted(d: Automaton, m: Automaton, cls: Seq<usize>, w: Seq<char>, j: int)
    requires
        is_quotient(d, m, cls),
        d.len() > 0,
        targets_in_range(d),
        deterministic(d),
        merges_exactly(d, m, cls),
    ensures
        accepted_at(m, w, j) == accepted_at(d, w, j),
        accepted_at(d, w, j) ==> m[run(m, w.take(j))->0 as int].accept == d[run(
            d,
            w.take(j),
        )->0 as int].accept,
{
    if 1 <= j <= w.len() {
        lemma_exact_run(d, m, cls, w.take(j));
    }
}

pub proof fn lemma_exact_live_len(d: Automaton, m: Automaton, cls: Seq<usize>, w: Seq<char>)
    requires
        is_quotient(d, m, cls),
        d.len() > 0,
        targets_in_range(d),
        deterministic(d),
        merges_exactly(d, m, cls),
    ensures
        live_len(m, w) == live_len(d, w),
    decreases w.len(),
{
    if w.len() > 0 {
        lemma_exact_run(d, m, cls, w);
        lemma_exact_live_len(d, m, cls, w.drop_last());
    }
}

pub proof fn lemma_exact_longest(d: Automaton, m: Automaton, cls: Seq<usize>, w: Seq<char>, k: int)
    requires
        is_quotient(d, m, cls),
        d.len() > 0,
        targets_in_range(d),
        deterministic(d),
        merges_exactly(d, m, cls),
    ensures
        longest_accepted(m, w, k) == longest_accepted(d, w, k),
    decreases k,
{
    if k > 0 {
        lemma_exact_accepted(d, m, cls, w, k);
        lemma_exact_longest(d, m, cls, w, k - 1);
    }
}

/// Where the merge is exact, one scan with the merged automaton gives what
/// one scan with the other gives.
pub proof fn lemma_exact_token(d: Automaton, m: Automaton, cls: Seq<usize>, w: Seq<char>)
    requires
        is_quotient(d, m, cls),
        d.len() > 0,
        targets_in_range(d),
        deterministic(d),
        merges_exactly(d, m, cls),
    ensures
        live_len(m, w) == live_len(d, w),
        scan_token(m, w) == scan_token(d, w),
        scan_pushback(m, w) == scan_pushback(d, w),
        stalls(m, w) == stalls(d, w),
{
    lemma_exact_live_len(d, m, cls, w);
    lemma_exact_longest(d, m, cls, w, live_len(d, w));
    lemma_longest_accepted_bounds(d, w, live_len(d, w));
    match longest_accepted(d, w, live_len(d, w)) {
        Some(j) => {
            lemma_exact_accepted(d, m, cls, w, j);
        },
        None => {},
    }
}

/// Minimization keeps the tokens: where no state is merged into a state
/// with a transition that it lacks, repeated scans of any input with the
/// minimized automaton give the tokens, the waiting characters at the end
/// and the ending that the scans with the automaton before give. The
/// partition `cls` is the one that the minimization ends with.
pub proof fn lemma_minimization_preserves_scan(
    d: Automaton,
    m: Automaton,
    cls: Seq<usize>,
    w: Seq<char>,
)
    requires
        is_quotient(d, m, cls),
        d.len() > 0,
        targets_in_range(d),
        deterministic(d),
        merges_exactly(d, m, cls),
    ensures
        scan_tokens(m, w) == scan_tokens(d, w),
        scan_rest(m, w) == scan_rest(d, w),
        completes_eventually(m, w) == completes_eventually(d, w),
    decreases w.len(),
{
    lemma_exact_token(d, m, cls, w);
    lemma_live_len_bounds(d, w);
    if scan_token(d, w) is Some && 0 < live_len(d, w) {
        lemma_minimization_preserves_scan(d, m, cls, w.skip(live_len(d, w)));
    }
}

/// The automaton of one rule reads every word that the pattern of the rule
/// matches, from state 0 to the accepting state of the rule.
pub proof fn lemma_rule_reaches_accept(tree: AstNode, tag: Seq<char>, w: Seq<char>)
    requires
        1 + state_count(tree) <= usize::MAX,
        word_matches(tree, w),
    ensures
        ({
            let rules = seq![(tree, tag)];
            nfa_reach(rules_graph(rules, 1), 0, w, rules_accept(rules, 1)[0].0 as int)
        }),
{
    let rules = seq![(tree, tag)];
    let g0 = rules_graph(rules, 0);
    let f = thompson(g0, tree);
    let g = rules_graph(rules, 1);
    lemma_thompson_shape(g0, tree);
    lemma_thompson_complete(g0, tree, w);
    lemma_new_edge(f.graph, 0, f.start);
    lemma_reach_lift(f.graph, g, f.start, w, f.accept);
    lemma_reach_concat(g, 0, Seq::empty(), f.start, w, f.accept);
}

/// The automaton of the subset construction for one rule accepts every
/// word that the pattern of the rule matches, with the tag of the rule.
pub proof fn lemma_rule_dfa_accepts(tree: AstNode, tag: Seq<char>, d: Automaton, w: Seq<char>)
    requires
        is_subset_automaton(
            rules_graph(seq![(tree, tag)], 1),
            rules_accept(seq![(tree, tag)], 1),
            0,
            d,
        ),
        1 + state_count(tree) <= usize::MAX,
        word_matches(tree, w),
    ensures
        run(d, w) is Some,
        run(d, w)->0 < d.len(),
        d[run(d, w)->0 as int].accept == Some(tag),
{
    let rules = seq![(tree, tag)];
    let g = rules_graph(rules, 1);
    let accept = rules_accept(rules, 1);
    let exit = accept[0].0;
    lemma_rule_reaches_accept(tree, tag, w);
    let hops = choose|hops: Seq<(int, int)>| #[trigger]
        valid_path(g, 0, hops, exit as int) && label(g, hops) == w;
    lemma_subset_follows(g, accept, 0, d, hops, exit as int);
    let s = run(d, w)->0 as int;
    let members = d[s].nfa_states;
    let i = choose|i: int| 0 <= i < members.len() && members[i] == exit;
    let k = lemma_first_accept_some(accept, members, i);
}

/// The merged automaton accepts, with the same tag, every word that the
/// automaton it is made from accepts.
pub proof fn lemma_quotient_accepts(
    d: Automaton,
    m: Automaton,
    cls: Seq<usize>,
    w: Seq<char>,
    tag: Seq<char>,
)
    requires
        is_quotient(d, m, cls),
        d.len() > 0,
        targets_in_range(d),
        deterministic(d),
        run(d, w) is Some,
        run(d, w)->0 < d.len(),
        d[run(d, w)->0 as int].accept == Some(tag),
    ensures
        run(m, w) is Some,
        m[run(m, w)->0 as int].accept == Some(tag),
{
    lemma_quotient_follows(d, m, cls, w);
}

/// A word that the automaton accepts, and that is not empty, is scanned as
/// one token, which takes the whole word.
pub proof fn lemma_accepted_word_scans(m: Automaton, w: Seq<char>, tag: Seq<char>)
    requires
        w.len() > 0,
        run(m, w) is Some,
        m[run(m, w)->0 as int].accept == Some(tag),
    ensures
        scan_token(m, w) == Some((lexeme(w, w.len() as int), tag)),
        scan_completes(m, w),
        scan_tokens(m, w) == seq![(lexeme(w, w.len() as int), tag)],
{
    let n = w.len() as int;
    assert(w.take(n) == w);
    assert(scan_tokens(m, w.skip(n)) == Seq::<(Seq<char>, Seq<char>)>::empty()) by {}
}

/// A single rule scans every word that its pattern matches, unless the
/// word is empty, as one token with the tag of the rule, which takes the
/// whole word: compiled alone, its automaton reads the word to its end and
/// accepts there.
pub proof fn lemma_single_rule_scan(tree: AstNode, tag: Seq<char>, m: Automaton, w: Seq<char>)
    requires
        compiled(seq![(tree, tag)], m),
        1 + state_count(tree) <= usize::MAX,
        w.len() > 0,
        word_matches(tree, w),
    ensures
        scan_token(m, w) == Some((lexeme(w, w.len() as int), tag)),
        scan_completes(m, w),
        scan_tokens(m, w) == seq![(lexeme(w, w.len() as int), tag)],
{
    let rules = seq![(tree, tag)];
    let g = rules_graph(rules, 1);
    let accept = rules_accept(rules, 1);
    let d = choose|d: Automaton| #[trigger] is_subset_automaton(g, accept, 0, d) && minimized(d, m);
    let cls = choose|cls: Seq<usize>| is_quotient(d, m, cls);
    lemma_rule_dfa_accepts(tree, tag, d, w);
    lemma_subset_wf(g, accept, 0, d);
    lemma_quotient_accepts(d, m, cls, w, tag);
    lemma_accepted_word_scans(m, w, tag);
}

/// Mapping a word without a character of the private range into the
/// alphabet of the automaton and back restores it.
pub proof fn lemma_lexeme_round_trip(s: Seq<char>)
    requires
        forall|i: int| 0 <= i < s.len() ==> !is_sentinel(#[trigger] s[i]),
    ensures
        lexeme(s.map_values(|c: char| to_internal(c)), s.len() as int) == s,
{
    let w = s.map_values(|c: char| to_internal(c));
    assert(lexeme(w, s.len() as int) =~= s) by {}
}

/// For a rule set of one rule with the pattern `pattern`, and an input
/// `input` that is not empty and has no character of the private range:
/// where the pattern matches the input, mapped into the alphabet of the
/// automaton, the scanner gives one token, which is the whole input with
/// the tag of the rule, and the scan reads the input to its end.
pub proof fn lemma_pattern_scans_its_words(
    pattern: Seq<char>,
    tag: Seq<char>,
    m: Automaton,
    input: Seq<char>,
)
    requires
        compile_rules(seq![(pattern, tag)], 1) is Ok,
        compiled(compile_rules(seq![(pattern, tag)], 1)->Ok_0, m),
        input.len() > 0,
        forall|i: int| 0 <= i < input.len() ==> !is_sentinel(#[trigger] input[i]),
        pattern_tree(pattern) is Ok,
        word_matches(pattern_tree(pattern)->Ok_0, input.map_values(|c: char| to_internal(c))),
    ensures
        scan_tokens(m, input.map_values(|c: char| to_internal(c))) == seq![(input, tag)],
        scan_completes(m, input.map_values(|c: char| to_internal(c))),
{
    let patterns = seq![(pattern, tag)];
    let tree = pattern_tree(pattern)->Ok_0;
    let w = input.map_values(|c: char| to_internal(c));
    assert(compile_rules(patterns, 0) == Ok::<Seq<Rule>, crate::ast::PatternError>(Seq::empty()));
    let rules = compile_rules(patterns, 1)->Ok_0;
    assert(rules_states(rules, 0) == 1);
    lemma_single_rule_scan(tree, tag, m, w);
    lemma_lexeme_round_trip(input);
}

/// For every tree over characters that have no meaning of their own: the
/// rule whose pattern is the tree written out, compiled alone, scans every
/// input that the tree matches as one token, which is the whole input with
/// the tag of the rule. The input is not empty and has no character of the
/// private range.
pub proof fn lemma_written_pattern_scans_its_words(
    tree: AstNode,
    tag: Seq<char>,
    m: Automaton,
    input: Seq<char>,
)
    requires
        plain_tree(tree),
        compile_rules(seq![(pattern_of(tree), tag)], 1) is Ok,
        compiled(compile_rules(seq![(pattern_of(tree), tag)], 1)->Ok_0, m),
        input.len() > 0,
        forall|i: int| 0 <= i < input.len() ==> !is_sentinel(#[trigger] input[i]),
        word_matches(tree, input.map_values(|c: char| to_internal(c))),
    ensures
        scan_tokens(m, input.map_values(|c: char| to_internal(c))) == seq![(input, tag)],
        scan_completes(m, input.map_values(|c: char| to_internal(c))),
{
    lemma_pattern_reads_back(tree);
    lemma_pattern_scans_its_words(pattern_of(tree), tag, m, input);
}

/// The accepting state of a rule lies among the states that its fragment adds.
pub proof fn lemma_accept_in_fragment(rules: Seq<Rule>, i: int)
    requires
        0 <= i < rules.len(),
    ensures
        rules_states(rules, i) <= rule_fragment(rules, i).accept < rules_states(rules, i + 1),
{
    lemma_rules_graph_len(rules, i);
    lemma_thompson_shape(rules_graph(rules, i), rules[i].0);
}

/// The accepting states of the rules rise with the rules.
pub proof fn lemma_accepts_rise(rules: Seq<Rule>, i: int, j: int)
    requires
        0 <= i < j < rules.len(),
    ensures
        rule_fragment(rules, i).accept < rule_fragment(rules, j).accept,
{
    lemma_accept_in_fragment(rules, i);
    lemma_accept_in_fragment(rules, j);
    lemma_rules_states_monotone(rules, i + 1, j);
}

/// The tag of a state that the entry `i` of the accept list names, and no
/// entry before it, is the tag of that entry.
pub proof fn lemma_tag_of_first_entry(accept: Seq<(usize, Seq<char>)>, i: int)
    requires
        0 <= i < accept.len(),
        forall|j: int| 0 <= j < i ==> (#[trigger] accept[j]).0 != accept[i].0,
    ensures
        tag_of(accept, accept[i].0) == Some(accept[i].1),
    decreases i,
{
    if i > 0 {
        let rest = accept.drop_first();
        assert forall|j: int| 0 <= j < i - 1 implies (#[trigger] rest[j]).0 != rest[i - 1].0 by {}
        lemma_tag_of_first_entry(rest, i - 1);
    }
}

/// Where the accept list names none of the first `k` members, the tag is
/// that of the members behind them.
pub proof fn lemma_first_accept_skips(
    accept: Seq<(usize, Seq<char>)>,
    members: Seq<usize>,
    k: int,
)
    requires
        0 <= k <= members.len(),
        forall|x: int| 0 <= x < k ==> tag_of(accept, #[trigger] members[x]) is None,
    ensures
        first_accept(accept, members) == first_accept(accept, members.skip(k)),
    decreases k,
{
    if k == 0 {
        assert(members.skip(0) == members);
    } else {
        let rest = members.drop_first();
        assert forall|x: int| 0 <= x < k - 1 implies tag_of(accept, #[trigger] rest[x]) is None by {}
        lemma_first_accept_skips(accept, rest, k - 1);
        assert(rest.skip(k - 1) == members.skip(k));
    }
}

/// The first rule wins a tie: a state of the deterministic automaton whose
/// members, in rising order, hold the accepting state of the rule `i` and
/// of no rule before it, carries the tag of the rule `i`.
pub proof fn lemma_first_rule_wins(rules: Seq<Rule>, members: Seq<usize>, i: int)
    requires
        rules_states(rules, rules.len() as int) <= usize::MAX,
        strictly_increasing(members),
        0 <= i < rules.len(),
        members.contains(rule_fragment(rules, i).accept as usize),
        forall|j: int|
            0 <= j < i ==> !members.contains((#[trigger] rule_fragment(rules, j)).accept as usize),
    ensures
        first_accept(rules_accept(rules, rules.len() as int), members) == Some(rules[i].1),
{
    let n = rules.len() as int;
    let accept = rules_accept(rules, n);
    let target = rule_fragment(rules, i).accept as usize;
    assert forall|j: int| 0 <= j < n implies 0 <= (#[trigger] rule_fragment(rules, j)).accept
        <= usize::MAX by {
        lemma_accept_in_fragment(rules, j);
        lemma_rules_states_monotone(rules, j + 1, n);
    }
    assert forall|j: int| 0 <= j < i implies (#[trigger] accept[j]).0 != accept[i].0 by {}
    lemma_tag_of_first_entry(accept, i);
    let k = choose|k: int| 0 <= k < members.len() && members[k] == target;
    assert forall|x: int| 0 <= x < k implies tag_of(accept, #[trigger] members[x]) is None by {
        if tag_of(accept, members[x]) is Some {
            let e = lemma_tag_of_listed(accept, members[x]);
            if e < i {
            } else if e > i {
                lemma_accepts_rise(rules, i, e);
            }
        }
    }
    lemma_first_accept_skips(accept, members, k);
}


/// The automaton of more rules holds the automaton of fewer.
pub proof fn lemma_rules_graph_extends(rules: Seq<Rule>, i: int, k: int)
    requires
        0 <= i <= k <= rules.len(),
        rules_states(rules, k) <= usize::MAX,
    ensures
        extends(rules_graph(rules, i), rules_graph(rules, k)),
    decreases k - i,
{
    if i < k {
        lemma_rules_states_monotone(rules, k - 1, k);
        lemma_rules_graph_extends(rules, i, k - 1);
        let g = rules_graph(rules, k - 1);
        let f = thompson(g, rules[k - 1].0);
        lemma_rules_graph_len(rules, k - 1);
        lemma_thompson_shape(g, rules[k - 1].0);
        lemma_thompson_extends(g, rules[k - 1].0);
        lemma_new_edge(f.graph, 0, f.start);
        lemma_extends_trans(g, f.graph, rules_graph(rules, k));
        lemma_extends_trans(rules_graph(rules, i), g, rules_graph(rules, k));
    } else {
        assert forall|p: int, j: int|
            0 <= p < rules_graph(rules, i).len() && 0 <= j < rules_graph(
                rules,
                i,
            )[p].len() implies #[trigger] edge_kept(
            rules_graph(rules, i),
            rules_graph(rules, k),
            p,
            j,
        ) by {}
    }
}

/// The automaton of a rule set reads every word that the pattern of one of
/// its rules matches, from state 0 to the accepting state of that rule.
pub proof fn lemma_rule_set_reaches_accept(rules: Seq<Rule>, i: int, w: Seq<char>)
    requires
        0 <= i < rules.len(),
        rules_states(rules, rules.len() as int) <= usize::MAX,
        word_matches(rules[i].0, w),
    ensures
        nfa_reach(rules_graph(rules, rules.len() as int), 0, w, rule_fragment(rules, i).accept),
{
    let n = rules.len() as int;
    let g = rules_graph(rules, i);
    let f = thompson(g, rules[i].0);
    let next = rules_graph(rules, i + 1);
    lemma_rules_states_monotone(rules, i + 1, n);
    lemma_rules_graph_len(rules, i);
    lemma_thompson_shape(g, rules[i].0);
    lemma_thompson_complete(g, rules[i].0, w);
    lemma_new_edge(f.graph, 0, f.start);
    lemma_reach_lift(f.graph, next, f.start, w, f.accept);
    lemma_reach_concat(next, 0, Seq::empty(), f.start, w, f.accept);
    assert(Seq::<char>::empty() + w == w);
    lemma_rules_graph_extends(rules, i + 1, n);
    lemma_reach_lift(next, rules_graph(rules, n), 0, w, f.accept);
}

/// A rule set scans every word that the pattern of one of its rules
/// matches, unless the word is empty, as one token, which takes the whole
/// word and carries the tag of one of the rules.
pub proof fn lemma_rule_set_scans_matched_word(rules: Seq<Rule>, m: Automaton, i: int, w: Seq<char>)
    requires
        compiled(rules, m),
        rules_states(rules, rules.len() as int) <= usize::MAX,
        0 <= i < rules.len(),
        w.len() > 0,
        word_matches(rules[i].0, w),
    ensures
        scan_completes(m, w),
        exists|j: int|
            0 <= j < rules.len() && scan_tokens(m, w) == seq![
                (lexeme(w, w.len() as int), (#[trigger] rules[j]).1),
            ],
{
    let n = rules.len() as int;
    let g = rules_graph(rules, n);
    let accept = rules_accept(rules, n);
    let d = choose|d: Automaton| #[trigger] is_subset_automaton(g, accept, 0, d) && minimized(d, m);
    let cls = choose|cls: Seq<usize>| is_quotient(d, m, cls);
    let exit = rule_fragment(rules, i).accept;
    lemma_rule_set_reaches_accept(rules, i, w);
    let hops = choose|hops: Seq<(int, int)>| #[trigger]
        valid_path(g, 0, hops, exit) && label(g, hops) == w;
    lemma_subset_follows(g, accept, 0, d, hops, exit);
    let s = run(d, w)->0 as int;
    let members = d[s].nfa_states;
    let x = choose|x: int| 0 <= x < members.len() && members[x] == exit as usize;
    assert(accept[i].0 == exit as usize);
    lemma_tag_of_some(accept, i);
    let j = lemma_first_accept_some(accept, members, x);
    let tag = rules[j].1;
    assert(d[s].accept == Some(tag));
    lemma_subset_wf(g, accept, 0, d);
    lemma_quotient_accepts(d, m, cls, w, tag);
    lemma_accepted_word_scans(m, w, tag);
}

} // verus!
