//! State-equivalence reduction of the deterministic automaton by partition
//! refinement.

use vstd::prelude::*;
use vstd::seq_lib::lemma_seq_contains_after_push;
use crate::common::Tag;
use crate::dfa::{deterministic, tag_view, targets_in_range, Automaton, Dfa, DfaState, StateView};

verus! {
/// The number of groups that are entered by a state before `s`, where the
/// groups are numbered in the order in which their first states come.
pub open spec fn seen_upto(cls: Seq<usize>, s: int) -> int
    decreases s,
{
    if s <= 0 {
        0
    } else {
        let k = seen_upto(cls, s - 1);
        if cls[s - 1] == k {
            k + 1
        } else {
            k
        }
    }
}

/// The groups are numbered in the order in which their first states come:
/// every state is in a group of an earlier state or in the next new group.
pub open spec fn is_rgs(cls: Seq<usize>) -> bool {
    forall|s: int| 0 <= s < cls.len() ==> (#[trigger] cls[s]) <= seen_upto(cls, s)
}

/// The number of groups.
pub open spec fn group_count(cls: Seq<usize>) -> int {
    seen_upto(cls, cls.len() as int)
}

pub proof fn lemma_seen_bounds(cls: Seq<usize>, s: int)
    requires
        0 <= s,
    ensures
        0 <= seen_upto(cls, s) <= s,
    decreases s,
{
    if s > 0 {
        lemma_seen_bounds(cls, s - 1);
    }
}

pub proof fn lemma_seen_monotone(cls: Seq<usize>, i: int, j: int)
    requires
        0 <= i <= j,
    ensures
        seen_upto(cls, i) <= seen_upto(cls, j),
    decreases j - i,
{
    if i < j {
        lemma_seen_monotone(cls, i, j - 1);
    }
}

pub proof fn lemma_seen_prefix(a: Seq<usize>, b: Seq<usize>, k: int)
    requires
        0 <= k <= a.len(),
        k <= b.len(),
        forall|i: int| 0 <= i < k ==> a[i] == b[i],
    ensures
        seen_upto(a, k) == seen_upto(b, k),
    decreases k,
{
    if k > 0 {
        lemma_seen_prefix(a, b, k - 1);
    }
}

/// Every state is in a group whose number is below the number of groups.
pub proof fn lemma_class_bound(cls: Seq<usize>, s: int)
    requires
        is_rgs(cls),
        0 <= s < cls.len(),
    ensures
        cls[s] < seen_upto(cls, s + 1),
        cls[s] < group_count(cls),
{
    lemma_seen_monotone(cls, s + 1, cls.len() as int);
}

/// Every group has a first state: the one that enters it.
pub proof fn lemma_group_has_first(cls: Seq<usize>, g: int, k: int) -> (first: int)
    requires
        0 <= g < seen_upto(cls, k),
        0 <= k <= cls.len(),
    ensures
        0 <= first < k,
        cls[first] == g,
        seen_upto(cls, first) == g,
    decreases k,
{
    if seen_upto(cls, k - 1) > g {
        lemma_group_has_first(cls, g, k - 1)
    } else {
        k - 1
    }
}

/// The transitions of the state `s` with every target replaced by its group.
pub open spec fn signature(a: Automaton, cls: Seq<usize>, s: int) -> Seq<(char, usize)> {
    Seq::new(
        a[s].transitions.len(),
        |j: int| (a[s].transitions[j].0, cls[a[s].transitions[j].1 as int]),
    )
}

/// Every pair of `x` occurs in `y`.
pub open spec fn sub_signature(x: Seq<(char, usize)>, y: Seq<(char, usize)>) -> bool {
    forall|i: int| 0 <= i < x.len() ==> y.contains(#[trigger] x[i])
}

/// The state `rep` is in the group `id` and `key` is its signature.
pub open spec fn is_rep(
    d: Automaton,
    cls: Seq<usize>,
    groups: Seq<usize>,
    key: Seq<(char, usize)>,
    id: int,
    rep: int,
) -> bool {
    groups[rep] == id && key == signature(d, cls, rep)
}

/// `key` is the signature, over `cls`, of a state before `bound` that
/// `groups` puts in the group `id`.
pub open spec fn has_rep(
    d: Automaton,
    cls: Seq<usize>,
    groups: Seq<usize>,
    key: Seq<(char, usize)>,
    id: int,
    bound: int,
) -> bool {
    exists|rep: int| 0 <= rep < bound && #[trigger] is_rep(d, cls, groups, key, id, rep)
}

/// `m` is the automaton `d` with the states of every group of `cls` merged
/// into one: the groups are numbered by their first states; the states of a
/// group carry one tag, which is the tag of the merged state; the merged
/// state stands for the members of the first state of its group; its
/// transitions are those of one state of its group, targets replaced by
/// their groups, and hold the transitions of every state of its group.
pub open spec fn is_quotient(d: Automaton, m: Automaton, cls: Seq<usize>) -> bool {
    &&& cls.len() == d.len()
    &&& is_rgs(cls)
    &&& m.len() == group_count(cls)
    &&& forall|s: int| 0 <= s < d.len() ==> m[cls[s] as int].accept == (#[trigger] d[s]).accept
    &&& forall|s: int|
        0 <= s < d.len() && cls[s] == seen_upto(cls, s) ==> m[cls[s] as int].nfa_states == (
        #[trigger] d[s]).nfa_states
    &&& forall|s: int|
        0 <= s < d.len() ==> sub_signature(
            #[trigger] signature(d, cls, s),
            m[cls[s] as int].transitions,
        )
    &&& forall|g: int|
        0 <= g < m.len() ==> has_rep(d, cls, cls, (#[trigger] m[g]).transitions, g, d.len() as int)
}

/// `m` is `d` with the states of every group of some partition merged.
pub open spec fn minimized(d: Automaton, m: Automaton) -> bool {
    exists|cls: Seq<usize>| is_quotient(d, m, cls)
}

pub open spec fn keys_view(keys: Seq<Vec<(char, usize)>>) -> Seq<Seq<(char, usize)>> {
    Seq::new(keys.len(), |i: int| keys[i]@)
}

pub open spec fn lists_view(lists: Seq<Vec<usize>>) -> Seq<Seq<usize>> {
    Seq::new(lists.len(), |i: int| lists[i]@)
}

/// The states of one tag are in one group, and those of different tags in
/// different groups.
pub open spec fn grouped_by_tag(d: Automaton, cls: Seq<usize>) -> bool {
    forall|s: int, t: int|
        0 <= s < d.len() && 0 <= t < d.len() ==> (cls[s] == cls[t] <==> (#[trigger] d[s]).accept == (
        #[trigger] d[t]).accept)
}

/// The states of a group carry one tag.
pub open spec fn one_tag_each(d: Automaton, cls: Seq<usize>) -> bool {
    forall|s: int, t: int|
        0 <= s < d.len() && 0 <= t < d.len() && cls[s] == cls[t] ==> (#[trigger] d[s]).accept == (
        #[trigger] d[t]).accept
}

fn same_accept(a: &Option<Tag>, b: &Option<Tag>) -> (r: bool)
    ensures
        r == (tag_view(*a) == tag_view(*b)),
{
    match (a, b) {
        (Some(x), Some(y)) => x.same(y),
        (None, None) => true,
        _ => false,
    }
}

fn holds_pair(v: &Vec<(char, usize)>, c: char, t: usize) -> (r: bool)
    ensures
        r == v@.contains((c, t)),
{
    let mut i: usize = 0;
    while i < v.len()
        invariant
            i <= v@.len(),
            forall|j: int| 0 <= j < i ==> v@[j] != (c, t),
        decreases v.len() - i,
    {
        if v[i].0 == c && v[i].1 == t {
            return true;
        }
        i += 1;
    }
    false
}

fn is_sub(x: &Vec<(char, usize)>, y: &Vec<(char, usize)>) -> (r: bool)
    ensures
        r == sub_signature(x@, y@),
{
    let mut i: usize = 0;
    while i < x.len()
        invariant
            i <= x@.len(),
            forall|j: int| 0 <= j < i ==> y@.contains(#[trigger] x@[j]),
        decreases x.len() - i,
    {
        if !holds_pair(y, x[i].0, x[i].1) {
            return false;
        }
        i += 1;
    }
    true
}

fn copy_pairs(v: &Vec<(char, usize)>) -> (r: Vec<(char, usize)>)
    ensures
        r@ == v@,
{
    let mut r: Vec<(char, usize)> = Vec::new();
    let mut i: usize = 0;
    while i < v.len()
        invariant
            i <= v@.len(),
            r@ == v@.take(i as int),
        decreases v.len() - i,
    {
        r.push((v[i].0, v[i].1));
        i += 1;
    }
    r
}

fn copy_members(v: &Vec<usize>) -> (r: Vec<usize>)
    ensures
        r@ == v@,
{
    let mut r: Vec<usize> = Vec::new();
    let mut i: usize = 0;
    while i < v.len()
        invariant
            i <= v@.len(),
            r@ == v@.take(i as int),
        decreases v.len() - i,
    {
        r.push(v[i]);
        i += 1;
    }
    r
}

impl Dfa {
    /// The transitions of the state `s` with every target replaced by its group.
    fn signature_of(&self, s: usize, class: &Vec<usize>) -> (sig: Vec<(char, usize)>)
        requires
            s < self.states@.len(),
            targets_in_range(self.model()),
            class@.len() == self.states@.len(),
        ensures
            sig@ == signature(self.model(), class@, s as int),
    {
        let transitions = &self.states[s].transitions;
        let mut sig: Vec<(char, usize)> = Vec::new();
        let mut j: usize = 0;
        while j < transitions.len()
            invariant
                j <= transitions@.len(),
                s < self.states@.len(),
                transitions@ == self.model()[s as int].transitions,
                targets_in_range(self.model()),
                class@.len() == self.states@.len(),
                sig@.len() == j,
                forall|i: int|
                    0 <= i < j ==> sig@[i] == (transitions@[i].0, class@[transitions@[i].1 as int]),
            decreases transitions.len() - j,
        {
            let c = transitions[j].0;
            let t = transitions[j].1;
            sig.push((c, class[t]));
            j += 1;
        }
        sig
    }

    /// The partition by tag: one group for every tag, and one for the states without a tag.
    fn classes_by_tag(&self) -> (r: (Vec<usize>, usize))
        ensures
            r.0@.len() == self.states@.len(),
            is_rgs(r.0@),
            group_count(r.0@) == r.1,
            grouped_by_tag(self.model(), r.0@),
    {
        let ghost d = self.model();
        let n = self.states.len();
        let mut class: Vec<usize> = Vec::new();
        let mut firsts: Vec<usize> = Vec::new();
        let mut s: usize = 0;
        proof {
            reveal(tagged_prefix);
        }
        while s < n
            invariant
                s <= n,
                n == self.states@.len(),
                d == self.model(),
                tagged_prefix(d, class@, firsts@, s as int),
            decreases n - s,
        {
            let mut g: usize = 0;
            let mut found = false;
            proof {
                lemma_tagged_prefix_firsts(d, class@, firsts@, s as int);
            }
            while g < firsts.len() && !found
                invariant
                    g <= firsts@.len(),
                    s < n,
                    n == self.states@.len(),
                    d == self.model(),
                    forall|h: int| 0 <= h < firsts@.len() ==> (#[trigger] firsts@[h]) < s,
                    found ==> g > 0 && d[firsts@[g - 1] as int].accept == d[s as int].accept,
                    forall|h: int|
                        0 <= h < g - (if found { 1int } else { 0int }) ==> d[(
                        #[trigger] firsts@[h]) as int].accept != d[s as int].accept,
                decreases firsts.len() - g,
            {
                let first = firsts[g];
                if same_accept(&self.states[first].accept, &self.states[s].accept) {
                    found = true;
                }
                g += 1;
            }
            if found {
                proof {
                    lemma_tagged_join(d, class@, firsts@, s as int, (g - 1) as usize);
                }
                class.push(g - 1);
            } else {
                proof {
                    lemma_tagged_open(d, class@, firsts@, s as int);
                }
                firsts.push(s);
                class.push(g);
            }
            s += 1;
        }
        proof {
            reveal(tagged_prefix);
        }
        (class, firsts.len())
    }
}

/// The first `s` states are grouped by tag, the groups are numbered by
/// their first states, and `firsts` lists those.
#[verifier::opaque]
pub open spec fn tagged_prefix(d: Automaton, cls: Seq<usize>, firsts: Seq<usize>, s: int) -> bool {
    &&& cls.len() == s
    &&& s <= d.len()
    &&& is_rgs(cls)
    &&& seen_upto(cls, s) == firsts.len()
    &&& forall|g: int|
        0 <= g < firsts.len() ==> (#[trigger] firsts[g]) < s && cls[firsts[g] as int] == g
    &&& forall|x: int| 0 <= x < s ==> (#[trigger] cls[x]) < firsts.len()
    &&& forall|x: int, y: int|
        0 <= x < s && 0 <= y < s ==> (cls[x] == cls[y] <==> (#[trigger] d[x]).accept == (
        #[trigger] d[y]).accept)
}

pub proof fn lemma_tagged_prefix_firsts(d: Automaton, cls: Seq<usize>, firsts: Seq<usize>, s: int)
    requires
        tagged_prefix(d, cls, firsts, s),
    ensures
        forall|h: int| 0 <= h < firsts.len() ==> (#[trigger] firsts[h]) < s,
{
    reveal(tagged_prefix);
}

/// A state with the tag of the first state of a group joins that group.
pub proof fn lemma_tagged_join(d: Automaton, cls: Seq<usize>, firsts: Seq<usize>, s: int, id: usize)
    requires
        tagged_prefix(d, cls, firsts, s),
        0 <= s < d.len(),
        id < firsts.len(),
        d[firsts[id as int] as int].accept == d[s].accept,
    ensures
        tagged_prefix(d, cls.push(id), firsts, s + 1),
{
    reveal(tagged_prefix);
    let new = cls.push(id);
    assert forall|k: int| 0 <= k <= s implies seen_upto(new, k) == seen_upto(cls, k) by {
        lemma_seen_prefix(new, cls, k);
    }
    assert forall|x: int| 0 <= x < new.len() implies (#[trigger] new[x]) <= seen_upto(new, x) by {}
    assert forall|x: int| 0 <= x < s + 1 implies (#[trigger] new[x]) < firsts.len() by {}
    assert forall|x: int, y: int| 0 <= x < s + 1 && 0 <= y < s + 1 implies (new[x] == new[y] <==> (
    #[trigger] d[x]).accept == (#[trigger] d[y]).accept) by {
        if x < s && y < s {
        } else if x < s {
        } else if y < s {
        }
    }
}

/// A state with the tag of no first state opens a new group.
pub proof fn lemma_tagged_open(d: Automaton, cls: Seq<usize>, firsts: Seq<usize>, s: int)
    requires
        tagged_prefix(d, cls, firsts, s),
        0 <= s < d.len(),
        s <= usize::MAX,
        forall|h: int|
            0 <= h < firsts.len() ==> d[(#[trigger] firsts[h]) as int].accept != d[s].accept,
    ensures
        tagged_prefix(d, cls.push(firsts.len() as usize), firsts.push(s as usize), s + 1),
{
    reveal(tagged_prefix);
    lemma_seen_bounds(cls, s);
    let id = firsts.len() as usize;
    let new = cls.push(id);
    let firsts2 = firsts.push(s as usize);
    assert forall|k: int| 0 <= k <= s implies seen_upto(new, k) == seen_upto(cls, k) by {
        lemma_seen_prefix(new, cls, k);
    }
    assert forall|x: int| 0 <= x < new.len() implies (#[trigger] new[x]) <= seen_upto(new, x) by {}
    assert forall|g: int| 0 <= g < firsts2.len() implies (#[trigger] firsts2[g]) < s + 1
        && new[firsts2[g] as int] == g by {}
    assert forall|x: int| 0 <= x < s + 1 implies (#[trigger] new[x]) < firsts2.len() by {}
    assert forall|x: int, y: int| 0 <= x < s + 1 && 0 <= y < s + 1 implies (new[x] == new[y] <==> (
    #[trigger] d[x]).accept == (#[trigger] d[y]).accept) by {
        if x < s && y < s {
        } else if x < s {
            let f = firsts[cls[x] as int] as int;
        } else if y < s {
            let f = firsts[cls[y] as int] as int;
        }
    }
}

/// What a pass of the refinement holds: the group of every state placed so
/// far, the key and the first state of every new group, and for every old
/// group its new groups, called its buckets.
pub struct PassState {
    pub classes: Seq<usize>,
    pub keys: Seq<Seq<(char, usize)>>,
    pub firsts: Seq<usize>,
    pub buckets: Seq<Seq<usize>>,
}

/// The first of the buckets `ids`, from the place `i` on, whose key holds
/// `sig` or is held by it.
pub open spec fn find_bucket(
    keys: Seq<Seq<(char, usize)>>,
    ids: Seq<usize>,
    sig: Seq<(char, usize)>,
    i: int,
) -> Option<usize>
    decreases ids.len() - i,
{
    if i < 0 || i >= ids.len() {
        None
    } else if sub_signature(sig, keys[ids[i] as int]) || sub_signature(keys[ids[i] as int], sig) {
        Some(ids[i])
    } else {
        find_bucket(keys, ids, sig, i + 1)
    }
}

/// The pass after the state `s` has been placed: it joins the first bucket
/// of its group whose key holds its signature or is held by it, and in the
/// second case its signature becomes the key; where there is no such bucket
/// it opens a new one.
pub open spec fn place(d: Automaton, cls: Seq<usize>, st: PassState, s: int) -> PassState {
    let g = cls[s] as int;
    let sig = signature(d, cls, s);
    match find_bucket(st.keys, st.buckets[g], sig, 0) {
        Some(id) => PassState {
            classes: st.classes.push(id),
            keys: if sub_signature(sig, st.keys[id as int]) {
                st.keys
            } else {
                st.keys.update(id as int, sig)
            },
            firsts: st.firsts,
            buckets: st.buckets,
        },
        None => PassState {
            classes: st.classes.push(st.keys.len() as usize),
            keys: st.keys.push(sig),
            firsts: st.firsts.push(s as usize),
            buckets: st.buckets.update(g, st.buckets[g].push(st.keys.len() as usize)),
        },
    }
}

/// The pass over the partition `cls` after the first `s` states have been
/// placed, in rising order.
pub open spec fn pass(d: Automaton, cls: Seq<usize>, s: int) -> PassState
    decreases s,
{
    if s <= 0 {
        PassState {
            classes: Seq::empty(),
            keys: Seq::empty(),
            firsts: Seq::empty(),
            buckets: Seq::new(group_count(cls) as nat, |g: int| Seq::empty()),
        }
    } else {
        place(d, cls, pass(d, cls, s - 1), s - 1)
    }
}

/// The partition that the refinement ends with when it starts from `cls`:
/// the first one that a pass does not split.
pub open spec fn stable_classes(d: Automaton, cls: Seq<usize>) -> Seq<usize>
    decreases d.len() - group_count(cls),
{
    let next = pass(d, cls, d.len() as int).classes;
    if group_count(cls) < group_count(next) <= d.len() {
        stable_classes(d, next)
    } else {
        cls
    }
}

/// `cls` is the partition by tag: the states of one tag are in one group,
/// those of different tags in different groups, and the groups are numbered
/// by their first states.
pub open spec fn is_tag_partition(d: Automaton, cls: Seq<usize>) -> bool {
    cls.len() == d.len() && is_rgs(cls) && grouped_by_tag(d, cls)
}

/// The partition by tag of the states of `d`.
pub open spec fn tag_classes(d: Automaton) -> Seq<usize> {
    choose|cls: Seq<usize>| is_tag_partition(d, cls)
}

/// The automaton with one state for every group of the partition `cls`,
/// which a pass does not split: the key of the group gives the transitions,
/// the first state of the group the members and the tag.
pub open spec fn merged(d: Automaton, cls: Seq<usize>) -> Automaton {
    let st = pass(d, cls, d.len() as int);
    Seq::new(
        st.keys.len(),
        |g: int|
            StateView {
                transitions: st.keys[g],
                nfa_states: d[st.firsts[g] as int].nfa_states,
                accept: d[st.firsts[g] as int].accept,
            },
    )
}

/// The partition that the refinement ends with when it starts from the
/// partition by tag.
pub open spec fn final_classes(d: Automaton) -> Seq<usize> {
    stable_classes(d, tag_classes(d))
}

/// The minimized automaton: the refinement starts from the partition by
/// tag, and the groups of the partition that it ends with are merged.
pub open spec fn minimal(d: Automaton) -> Automaton {
    merged(d, final_classes(d))
}

/// Two numberings by first states of one partition are one numbering.
pub proof fn lemma_rgs_unique(a: Seq<usize>, b: Seq<usize>, k: int)
    requires
        a.len() == b.len(),
        is_rgs(a),
        is_rgs(b),
        forall|x: int, y: int|
            0 <= x < a.len() && 0 <= y < a.len() ==> (#[trigger] a[x] == #[trigger] a[y]) == (b[x]
                == b[y]),
        0 <= k <= a.len(),
    ensures
        forall|x: int| 0 <= x < k ==> a[x] == b[x],
        seen_upto(a, k) == seen_upto(b, k),
    decreases k,
{
    if k > 0 {
        lemma_rgs_unique(a, b, k - 1);
        let s = k - 1;
        let seen = seen_upto(a, s);
        if a[s] < seen {
            let t = lemma_group_has_first(a, a[s] as int, s);
            assert((a[t] == a[s]) == (b[t] == b[s]));
        } else if b[s] < seen {
            let t = lemma_group_has_first(b, b[s] as int, s);
        }
    }
}

/// There is one partition by tag.
pub proof fn lemma_tag_partition_unique(d: Automaton, cls: Seq<usize>)
    requires
        is_tag_partition(d, cls),
    ensures
        cls == tag_classes(d),
{
    let other = tag_classes(d);
    assert forall|x: int, y: int| 0 <= x < cls.len() && 0 <= y < cls.len() implies (
    #[trigger] cls[x] == #[trigger] cls[y]) == (other[x] == other[y]) by {
        assert((cls[x] == cls[y]) == (d[x].accept == d[y].accept));
    }
    lemma_rgs_unique(cls, other, cls.len() as int);
}

/// What one pass of the refinement gives: a partition `new` that splits no
/// further than the groups of `old` allow, numbered by first states; for
/// every group a key, which is the signature of one of its states and holds
/// the signature of each of them, signatures taken over `old`; and the
/// first state of every group. Where no group was split, `new` is `old`.
pub open spec fn refined(
    d: Automaton,
    old_cls: Seq<usize>,
    new_cls: Seq<usize>,
    keys: Seq<Seq<(char, usize)>>,
    firsts: Seq<usize>,
) -> bool {
    &&& new_cls.len() == d.len()
    &&& is_rgs(new_cls)
    &&& keys.len() == group_count(new_cls)
    &&& firsts.len() == group_count(new_cls)
    &&& forall|s: int, t: int|
        0 <= s < d.len() && 0 <= t < d.len() && new_cls[s] == new_cls[t] ==> old_cls[s]
            == old_cls[t]
    &&& forall|s: int|
        0 <= s < d.len() ==> sub_signature(
            #[trigger] signature(d, old_cls, s),
            keys[new_cls[s] as int],
        )
    &&& forall|id: int|
        0 <= id < keys.len() ==> has_rep(
            d,
            old_cls,
            new_cls,
            #[trigger] keys[id],
            id,
            d.len() as int,
        )
    &&& forall|id: int|
        0 <= id < firsts.len() ==> (#[trigger] firsts[id]) < d.len() && new_cls[firsts[id] as int]
            == id && seen_upto(new_cls, firsts[id] as int) == id
    &&& group_count(new_cls) >= group_count(old_cls)
    &&& group_count(new_cls) == group_count(old_cls) ==> new_cls == old_cls
}

/// In the middle of a pass, when the states before `s` have been placed:
/// the new groups are numbered by their first states, which are recorded.
#[verifier::opaque]
pub open spec fn part_numbering(s: int, new_cls: Seq<usize>, nkeys: int, firsts: Seq<usize>) -> bool {
    &&& new_cls.len() == s
    &&& is_rgs(new_cls)
    &&& nkeys == seen_upto(new_cls, s)
    &&& firsts.len() == nkeys
    &&& forall|id: int|
        0 <= id < firsts.len() ==> (#[trigger] firsts[id]) < s && new_cls[firsts[id] as int] == id
            && seen_upto(new_cls, firsts[id] as int) == id
}

/// In the middle of a pass: every new group lies in one old group, which
/// lists it among its buckets, and every state placed is in a new group of
/// its old group.
#[verifier::opaque]
pub open spec fn part_owner(
    old_cls: Seq<usize>,
    s: int,
    new_cls: Seq<usize>,
    nkeys: int,
    buckets: Seq<Seq<usize>>,
    owner: Seq<int>,
) -> bool {
    let count = group_count(old_cls);
    &&& new_cls.len() == s
    &&& owner.len() == nkeys
    &&& buckets.len() == count
    &&& forall|id: int|
        0 <= id < owner.len() ==> 0 <= (#[trigger] owner[id]) < count && buckets[owner[id]].contains(
            id as usize,
        )
    &&& forall|g: int, i: int|
        0 <= g < count && 0 <= i < buckets[g].len() ==> (#[trigger] buckets[g][i]) < owner.len()
            && owner[buckets[g][i] as int] == g
    &&& forall|x: int|
        0 <= x < s ==> (#[trigger] new_cls[x]) < nkeys && owner[new_cls[x] as int] == old_cls[x]
}

/// In the middle of a pass: the key of every new group is the signature of
/// one of its states and holds the signature of each of them.
#[verifier::opaque]
pub open spec fn part_keys(
    d: Automaton,
    old_cls: Seq<usize>,
    s: int,
    new_cls: Seq<usize>,
    keys: Seq<Seq<(char, usize)>>,
) -> bool {
    &&& new_cls.len() == s
    &&& forall|x: int| 0 <= x < s ==> (#[trigger] new_cls[x]) < keys.len()
    &&& forall|x: int|
        0 <= x < s ==> sub_signature(#[trigger] signature(d, old_cls, x), keys[new_cls[x] as int])
    &&& forall|id: int|
        0 <= id < keys.len() ==> has_rep(d, old_cls, new_cls, #[trigger] keys[id], id, s)
}

/// In the middle of a pass: there are at least as many new groups as old
/// groups entered, the old groups not yet entered have no bucket, and as
/// long as no old group has two buckets the new partition is the old one.
#[verifier::opaque]
pub open spec fn part_excess(
    old_cls: Seq<usize>,
    s: int,
    new_cls: Seq<usize>,
    nkeys: int,
    buckets: Seq<Seq<usize>>,
) -> bool {
    let count = group_count(old_cls);
    let seen = seen_upto(old_cls, s);
    &&& new_cls.len() == s
    &&& buckets.len() == count
    &&& nkeys >= seen
    &&& forall|g: int| seen <= g < count ==> (#[trigger] buckets[g]).len() == 0
    &&& nkeys == seen ==> (forall|x: int| 0 <= x < s ==> (#[trigger] new_cls[x]) == old_cls[x])
        && (forall|g: int| 0 <= g < seen ==> (#[trigger] buckets[g]).len() == 1 && buckets[g][0] == g)
}

pub proof fn lemma_parts_start(d: Automaton, old_cls: Seq<usize>, buckets: Seq<Seq<usize>>)
    requires
        buckets.len() == group_count(old_cls),
        forall|g: int| 0 <= g < buckets.len() ==> (#[trigger] buckets[g]).len() == 0,
    ensures
        part_numbering(0, Seq::empty(), 0, Seq::empty()),
        part_owner(old_cls, 0, Seq::empty(), 0, buckets, Seq::empty()),
        part_keys(d, old_cls, 0, Seq::empty(), Seq::empty()),
        part_excess(old_cls, 0, Seq::empty(), 0, buckets),
{
    reveal(part_numbering);
    reveal(part_owner);
    reveal(part_keys);
    reveal(part_excess);
}

/// What is known of a bucket that an old group lists.
pub proof fn lemma_bucket_entry(
    old_cls: Seq<usize>,
    s: int,
    new_cls: Seq<usize>,
    nkeys: int,
    buckets: Seq<Seq<usize>>,
    owner: Seq<int>,
    g: int,
    i: int,
)
    requires
        part_owner(old_cls, s, new_cls, nkeys, buckets, owner),
        part_excess(old_cls, s, new_cls, nkeys, buckets),
        0 <= g < group_count(old_cls),
        0 <= i < buckets[g].len(),
    ensures
        buckets[g][i] < nkeys,
        owner[buckets[g][i] as int] == g,
        g < seen_upto(old_cls, s),
        nkeys == seen_upto(old_cls, s) ==> buckets[g][i] == g,
{
    reveal(part_owner);
    reveal(part_excess);
}

pub proof fn lemma_join_numbering(
    s: int,
    new_cls: Seq<usize>,
    nkeys: int,
    firsts: Seq<usize>,
    id: usize,
)
    requires
        part_numbering(s, new_cls, nkeys, firsts),
        s >= 0,
        id < nkeys,
    ensures
        part_numbering(s + 1, new_cls.push(id), nkeys, firsts),
{
    reveal(part_numbering);
    let new2 = new_cls.push(id);
    assert forall|k: int| 0 <= k <= s implies seen_upto(new2, k) == seen_upto(new_cls, k) by {
        lemma_seen_prefix(new2, new_cls, k);
    }
    assert forall|x: int| 0 <= x < new2.len() implies (#[trigger] new2[x]) <= seen_upto(new2, x) by {}
}

pub proof fn lemma_join_owner(
    old_cls: Seq<usize>,
    s: int,
    new_cls: Seq<usize>,
    nkeys: int,
    buckets: Seq<Seq<usize>>,
    owner: Seq<int>,
    id: usize,
)
    requires
        part_owner(old_cls, s, new_cls, nkeys, buckets, owner),
        0 <= s < old_cls.len(),
        id < nkeys,
        owner[id as int] == old_cls[s],
    ensures
        part_owner(old_cls, s + 1, new_cls.push(id), nkeys, buckets, owner),
{
    reveal(part_owner);
    let new2 = new_cls.push(id);
    assert forall|x: int| 0 <= x < s + 1 implies (#[trigger] new2[x]) < nkeys && owner[new2[x] as int]
        == old_cls[x] by {}
}

pub proof fn lemma_join_keys(
    d: Automaton,
    old_cls: Seq<usize>,
    s: int,
    new_cls: Seq<usize>,
    keys: Seq<Seq<(char, usize)>>,
    id: usize,
    key: Seq<(char, usize)>,
)
    requires
        part_keys(d, old_cls, s, new_cls, keys),
        s >= 0,
        id < keys.len(),
        sub_signature(signature(d, old_cls, s), key),
        key == keys[id as int] || (key == signature(d, old_cls, s) && sub_signature(
            keys[id as int],
            key,
        )),
    ensures
        part_keys(d, old_cls, s + 1, new_cls.push(id), keys.update(id as int, key)),
{
    reveal(part_keys);
    let new2 = new_cls.push(id);
    let keys2 = keys.update(id as int, key);
    assert forall|x: int| 0 <= x < s + 1 implies (#[trigger] new2[x]) < keys2.len() by {}
    assert forall|x: int| 0 <= x < s + 1 implies sub_signature(
        #[trigger] signature(d, old_cls, x),
        keys2[new2[x] as int],
    ) by {}
    assert forall|j: int| 0 <= j < keys2.len() implies has_rep(
        d,
        old_cls,
        new2,
        #[trigger] keys2[j],
        j,
        s + 1,
    ) by {
        if j == id && key != keys[id as int] {
            assert(is_rep(d, old_cls, new2, keys2[j], j, s));
        } else {
            let rep = choose|rep: int|
                0 <= rep < s && #[trigger] is_rep(d, old_cls, new_cls, keys[j], j, rep);
            assert(is_rep(d, old_cls, new2, keys2[j], j, rep));
        }
    }
}

pub proof fn lemma_join_excess(
    old_cls: Seq<usize>,
    s: int,
    new_cls: Seq<usize>,
    nkeys: int,
    buckets: Seq<Seq<usize>>,
    id: usize,
)
    requires
        part_excess(old_cls, s, new_cls, nkeys, buckets),
        0 <= s < old_cls.len(),
        old_cls[s] < seen_upto(old_cls, s),
        nkeys == seen_upto(old_cls, s) ==> id == old_cls[s],
    ensures
        part_excess(old_cls, s + 1, new_cls.push(id), nkeys, buckets),
{
    reveal(part_excess);
    let new2 = new_cls.push(id);
    if nkeys == seen_upto(old_cls, s + 1) {
        assert forall|x: int| 0 <= x < s + 1 implies (#[trigger] new2[x]) == old_cls[x] by {}
    }
}

pub proof fn lemma_open_numbering(s: int, new_cls: Seq<usize>, nkeys: int, firsts: Seq<usize>)
    requires
        part_numbering(s, new_cls, nkeys, firsts),
        0 <= s <= usize::MAX,
    ensures
        0 <= nkeys <= s,
        part_numbering(s + 1, new_cls.push(nkeys as usize), nkeys + 1, firsts.push(s as usize)),
{
    reveal(part_numbering);
    lemma_seen_bounds(new_cls, s);
    let id = nkeys as usize;
    let new2 = new_cls.push(id);
    let firsts2 = firsts.push(s as usize);
    assert forall|k: int| 0 <= k <= s implies seen_upto(new2, k) == seen_upto(new_cls, k) by {
        lemma_seen_prefix(new2, new_cls, k);
    }
    assert forall|x: int| 0 <= x < new2.len() implies (#[trigger] new2[x]) <= seen_upto(new2, x) by {}
    assert forall|j: int| 0 <= j < firsts2.len() implies (#[trigger] firsts2[j]) < s + 1
        && new2[firsts2[j] as int] == j && seen_upto(new2, firsts2[j] as int) == j by {}
}

pub proof fn lemma_open_owner(
    old_cls: Seq<usize>,
    s: int,
    new_cls: Seq<usize>,
    nkeys: int,
    buckets: Seq<Seq<usize>>,
    owner: Seq<int>,
)
    requires
        part_owner(old_cls, s, new_cls, nkeys, buckets, owner),
        0 <= s < old_cls.len(),
        is_rgs(old_cls),
        0 <= nkeys <= usize::MAX,
    ensures
        part_owner(
            old_cls,
            s + 1,
            new_cls.push(nkeys as usize),
            nkeys + 1,
            buckets.update(old_cls[s] as int, buckets[old_cls[s] as int].push(nkeys as usize)),
            owner.push(old_cls[s] as int),
        ),
{
    reveal(part_owner);
    lemma_class_bound(old_cls, s);
    let count = group_count(old_cls);
    let g = old_cls[s] as int;
    let id = nkeys as usize;
    let new2 = new_cls.push(id);
    let buckets2 = buckets.update(g, buckets[g].push(id));
    let owner2 = owner.push(g);
    assert forall|j: int| 0 <= j < owner2.len() implies 0 <= (#[trigger] owner2[j]) < count
        && buckets2[owner2[j]].contains(j as usize) by {
        if j < owner.len() {
            if owner[j] == g {
                lemma_seq_contains_after_push(buckets[g], id, j as usize);
            }
        } else {
            lemma_seq_contains_after_push(buckets[g], id, id);
        }
    }
    assert forall|x: int| 0 <= x < s + 1 implies (#[trigger] new2[x]) < nkeys + 1
        && owner2[new2[x] as int] == old_cls[x] by {}
}

pub proof fn lemma_open_keys(
    d: Automaton,
    old_cls: Seq<usize>,
    s: int,
    new_cls: Seq<usize>,
    keys: Seq<Seq<(char, usize)>>,
)
    requires
        part_keys(d, old_cls, s, new_cls, keys),
        s >= 0,
        keys.len() <= usize::MAX,
    ensures
        part_keys(
            d,
            old_cls,
            s + 1,
            new_cls.push(keys.len() as usize),
            keys.push(signature(d, old_cls, s)),
        ),
{
    reveal(part_keys);
    let id = keys.len() as usize;
    let sig = signature(d, old_cls, s);
    let new2 = new_cls.push(id);
    let keys2 = keys.push(sig);
    assert forall|x: int| 0 <= x < s + 1 implies (#[trigger] new2[x]) < keys2.len() by {}
    assert forall|x: int| 0 <= x < s + 1 implies sub_signature(
        #[trigger] signature(d, old_cls, x),
        keys2[new2[x] as int],
    ) by {}
    assert forall|j: int| 0 <= j < keys2.len() implies has_rep(
        d,
        old_cls,
        new2,
        #[trigger] keys2[j],
        j,
        s + 1,
    ) by {
        if j == id {
            assert(is_rep(d, old_cls, new2, keys2[j], j, s));
        } else {
            let rep = choose|rep: int|
                0 <= rep < s && #[trigger] is_rep(d, old_cls, new_cls, keys[j], j, rep);
            assert(is_rep(d, old_cls, new2, keys2[j], j, rep));
        }
    }
}

pub proof fn lemma_open_excess(
    old_cls: Seq<usize>,
    s: int,
    new_cls: Seq<usize>,
    nkeys: int,
    buckets: Seq<Seq<usize>>,
)
    requires
        part_excess(old_cls, s, new_cls, nkeys, buckets),
        0 <= s < old_cls.len(),
        is_rgs(old_cls),
        0 <= nkeys <= usize::MAX,
    ensures
        part_excess(
            old_cls,
            s + 1,
            new_cls.push(nkeys as usize),
            nkeys + 1,
            buckets.update(old_cls[s] as int, buckets[old_cls[s] as int].push(nkeys as usize)),
        ),
{
    reveal(part_excess);
    lemma_class_bound(old_cls, s);
    let seen2 = seen_upto(old_cls, s + 1);
    let g = old_cls[s] as int;
    let id = nkeys as usize;
    let new2 = new_cls.push(id);
    let buckets2 = buckets.update(g, buckets[g].push(id));
    if nkeys + 1 == seen2 {
        assert forall|x: int| 0 <= x < s + 1 implies (#[trigger] new2[x]) == old_cls[x] by {}
        assert forall|h: int| 0 <= h < seen2 implies (#[trigger] buckets2[h]).len() == 1
            && buckets2[h][0] == h by {}
    }
}

/// What holds when every state has been placed is what a pass gives.
pub proof fn lemma_refining_done(
    d: Automaton,
    old_cls: Seq<usize>,
    new_cls: Seq<usize>,
    keys: Seq<Seq<(char, usize)>>,
    firsts: Seq<usize>,
    buckets: Seq<Seq<usize>>,
    owner: Seq<int>,
)
    requires
        old_cls.len() == d.len(),
        part_numbering(d.len() as int, new_cls, keys.len() as int, firsts),
        part_owner(old_cls, d.len() as int, new_cls, keys.len() as int, buckets, owner),
        part_keys(d, old_cls, d.len() as int, new_cls, keys),
        part_excess(old_cls, d.len() as int, new_cls, keys.len() as int, buckets),
    ensures
        refined(d, old_cls, new_cls, keys, firsts),
{
    assert(new_cls.len() == d.len() && is_rgs(new_cls) && keys.len() == group_count(new_cls)
        && firsts.len() == group_count(new_cls) && forall|id: int|
        0 <= id < firsts.len() ==> (#[trigger] firsts[id]) < d.len() && new_cls[firsts[id] as int]
            == id && seen_upto(new_cls, firsts[id] as int) == id) by {
        reveal(part_numbering);
    }
    assert forall|s: int, t: int|
        0 <= s < d.len() && 0 <= t < d.len() && new_cls[s] == new_cls[t] implies old_cls[s]
        == old_cls[t] by {
        reveal(part_owner);
    }
    assert(forall|s: int|
        0 <= s < d.len() ==> sub_signature(
            #[trigger] signature(d, old_cls, s),
            keys[new_cls[s] as int],
        )) by {
        reveal(part_keys);
    }
    assert(forall|id: int|
        0 <= id < keys.len() ==> has_rep(
            d,
            old_cls,
            new_cls,
            #[trigger] keys[id],
            id,
            d.len() as int,
        )) by {
        reveal(part_keys);
    }
    assert(group_count(new_cls) >= group_count(old_cls) && (group_count(new_cls) == group_count(
        old_cls,
    ) ==> new_cls == old_cls)) by {
        reveal(part_excess);
    }
}

impl Dfa {
    /// One pass of the refinement. The states are placed in rising order.
    /// A state joins the first bucket of its group whose key holds its
    /// signature or is held by it, and in the second case its signature
    /// becomes the key; where there is no such bucket it opens a new one.
    fn refine(&self, class: &Vec<usize>, count: usize) -> (r: (
        Vec<usize>,
        Vec<Vec<(char, usize)>>,
        Vec<usize>,
    ))
        requires
            targets_in_range(self.model()),
            class@.len() == self.states@.len(),
            is_rgs(class@),
            group_count(class@) == count,
        ensures
            refined(self.model(), class@, r.0@, keys_view(r.1@), r.2@),
            pass(self.model(), class@, self.states@.len() as int).classes == r.0@,
            pass(self.model(), class@, self.states@.len() as int).keys == keys_view(r.1@),
            pass(self.model(), class@, self.states@.len() as int).firsts == r.2@,
    {
        let ghost d = self.model();
        let n = self.states.len();
        let mut new_class: Vec<usize> = Vec::new();
        let mut keys: Vec<Vec<(char, usize)>> = Vec::new();
        let mut firsts: Vec<usize> = Vec::new();
        let mut buckets: Vec<Vec<usize>> = Vec::new();
        let mut g: usize = 0;
        while g < count
            invariant
                g <= count,
                buckets@.len() == g,
                forall|h: int| 0 <= h < g ==> (#[trigger] buckets@[h])@.len() == 0,
            decreases count - g,
        {
            buckets.push(Vec::new());
            g += 1;
        }
        let ghost mut owner: Seq<int> = Seq::empty();
        proof {
            lemma_parts_start(d, class@, lists_view(buckets@));
            assert(keys_view(keys@) == Seq::<Seq<(char, usize)>>::empty());
            assert forall|h: int| 0 <= h < count implies #[trigger] lists_view(buckets@)[h]
                == Seq::<usize>::empty() by {}
            assert(lists_view(buckets@) =~= pass(d, class@, 0).buckets);
        }
        let mut s: usize = 0;
        while s < n
            invariant
                s <= n,
                n == self.states@.len(),
                d == self.model(),
                targets_in_range(d),
                class@.len() == n,
                is_rgs(class@),
                group_count(class@) == count,
                buckets@.len() == count,
                part_numbering(s as int, new_class@, keys@.len() as int, firsts@),
                part_owner(
                    class@,
                    s as int,
                    new_class@,
                    keys@.len() as int,
                    lists_view(buckets@),
                    owner,
                ),
                part_keys(d, class@, s as int, new_class@, keys_view(keys@)),
                part_excess(class@, s as int, new_class@, keys@.len() as int, lists_view(buckets@)),
                pass(d, class@, s as int) == (PassState {
                    classes: new_class@,
                    keys: keys_view(keys@),
                    firsts: firsts@,
                    buckets: lists_view(buckets@),
                }),
            decreases n - s,
        {
            let g = class[s];
            proof {
                lemma_class_bound(class@, s as int);
            }
            let sig = self.signature_of(s, class);
            let mut found: Option<usize> = None;
            let mut i: usize = 0;
            while i < buckets[g].len() && found.is_none()
                invariant
                    g < count,
                    buckets@.len() == count,
                    i <= buckets@[g as int]@.len(),
                    group_count(class@) == count,
                    part_owner(
                        class@,
                        s as int,
                        new_class@,
                        keys@.len() as int,
                        lists_view(buckets@),
                        owner,
                    ),
                    part_excess(
                        class@,
                        s as int,
                        new_class@,
                        keys@.len() as int,
                        lists_view(buckets@),
                    ),
                    match found {
                        Some(id) => exists|j: int|
                            0 <= j < buckets@[g as int]@.len() && #[trigger] buckets@[g as int]@[j]
                                == id,
                        None => true,
                    },
                    match found {
                        Some(id) => id < keys@.len() && (sub_signature(sig@, keys@[id as int]@)
                            || sub_signature(keys@[id as int]@, sig@)),
                        None => true,
                    },
                    find_bucket(keys_view(keys@), buckets@[g as int]@, sig@, 0) == match found {
                        Some(id) => Some(id),
                        None => find_bucket(keys_view(keys@), buckets@[g as int]@, sig@, i as int),
                    },
                decreases buckets@[g as int]@.len() - i,
            {
                let id = buckets[g][i];
                proof {
                    lemma_bucket_entry(
                        class@,
                        s as int,
                        new_class@,
                        keys@.len() as int,
                        lists_view(buckets@),
                        owner,
                        g as int,
                        i as int,
                    );
                }
                if is_sub(&sig, &keys[id]) || is_sub(&keys[id], &sig) {
                    found = Some(id);
                }
                i += 1;
            }
            match found {
                Some(id) => {
                    let ghost keys_before = keys_view(keys@);
                    proof {
                        let j = choose|j: int|
                            0 <= j < buckets@[g as int]@.len() && #[trigger] buckets@[g as int]@[j]
                                == id;
                        lemma_bucket_entry(
                            class@,
                            s as int,
                            new_class@,
                            keys@.len() as int,
                            lists_view(buckets@),
                            owner,
                            g as int,
                            j,
                        );
                    }
                    if !is_sub(&sig, &keys[id]) {
                        keys[id] = sig;
                    }
                    proof {
                        let key = keys@[id as int]@;
                        assert(keys_view(keys@) == keys_before.update(id as int, key));
                        lemma_join_numbering(
                            s as int,
                            new_class@,
                            keys@.len() as int,
                            firsts@,
                            id,
                        );
                        lemma_join_owner(
                            class@,
                            s as int,
                            new_class@,
                            keys@.len() as int,
                            lists_view(buckets@),
                            owner,
                            id,
                        );
                        lemma_join_keys(d, class@, s as int, new_class@, keys_before, id, key);
                        lemma_join_excess(
                            class@,
                            s as int,
                            new_class@,
                            keys@.len() as int,
                            lists_view(buckets@),
                            id,
                        );
                    }
                    new_class.push(id);
                },
                None => {
                    let id = keys.len();
                    let ghost keys_before = keys_view(keys@);
                    let ghost buckets_before = lists_view(buckets@);
                    proof {
                        lemma_open_numbering(s as int, new_class@, id as int, firsts@);
                        lemma_open_owner(
                            class@,
                            s as int,
                            new_class@,
                            id as int,
                            buckets_before,
                            owner,
                        );
                        lemma_open_keys(d, class@, s as int, new_class@, keys_before);
                        lemma_open_excess(class@, s as int, new_class@, id as int, buckets_before);
                    }
                    keys.push(sig);
                    firsts.push(s);
                    buckets[g].push(id);
                    new_class.push(id);
                    proof {
                        owner = owner.push(g as int);
                        assert(keys_view(keys@) == keys_before.push(signature(d, class@, s as int)));
                        assert(lists_view(buckets@) == buckets_before.update(
                            g as int,
                            buckets_before[g as int].push(id),
                        ));
                    }
                },
            }
            s += 1;
        }
        proof {
            lemma_refining_done(
                d,
                class@,
                new_class@,
                keys_view(keys@),
                firsts@,
                lists_view(buckets@),
                owner,
            );
        }
        (new_class, keys, firsts)
    }
}

/// A group is entered by one state only.
pub proof fn lemma_first_unique(cls: Seq<usize>, s: int, t: int)
    requires
        0 <= s < cls.len(),
        0 <= t < cls.len(),
        cls[s] == seen_upto(cls, s),
        cls[t] == seen_upto(cls, t),
        cls[s] == cls[t],
    ensures
        s == t,
{
    if s < t {
        lemma_seen_monotone(cls, s + 1, t);
    } else if t < s {
        lemma_seen_monotone(cls, t + 1, s);
    }
}

/// A merged automaton has no more states than the automaton it comes from,
/// its transitions lead to its own states, and it has one transition for a
/// symbol at most where that holds of the automaton it comes from.
pub proof fn lemma_quotient_wf(d: Automaton, m: Automaton, cls: Seq<usize>)
    requires
        is_quotient(d, m, cls),
        targets_in_range(d),
    ensures
        m.len() <= d.len(),
        d.len() > 0 ==> m.len() > 0 && cls[0] == 0,
        targets_in_range(m),
        deterministic(d) ==> deterministic(m),
{
    lemma_seen_bounds(cls, cls.len() as int);
    if d.len() > 0 {
        lemma_class_bound(cls, 0);
    }
    assert forall|g: int, j: int| 0 <= g < m.len() && 0 <= j < m[g].transitions.len() implies (
    #[trigger] m[g].transitions[j]).1 < m.len() by {
        let rep = choose|rep: int|
            0 <= rep < d.len() && #[trigger] is_rep(d, cls, cls, m[g].transitions, g, rep);
        let t = d[rep].transitions[j].1 as int;
        lemma_class_bound(cls, t);
    }
    if deterministic(d) {
        assert forall|g: int, i: int, j: int|
            0 <= g < m.len() && 0 <= i < j < m[g].transitions.len() implies (
        #[trigger] m[g].transitions[i]).0 != (#[trigger] m[g].transitions[j]).0 by {}
    }
}

fn copy_accept(a: &Option<Tag>) -> (r: Option<Tag>)
    ensures
        tag_view(r) == tag_view(*a),
{
    match a {
        Some(t) => Some(t.clone()),
        None => None,
    }
}

impl Dfa {
    /// Merges the states that the refinement does not tell apart. The
    /// refinement starts from the partition by tag and splits a group
    /// wherever two of its states have signatures of which neither holds the
    /// other; it ends when a pass splits no group. Every group becomes one
    /// state, the groups in the order of their first states.
    pub fn minimize(&mut self)
        requires
            targets_in_range(old(self).model()),
        ensures
            final(self).nfa == old(self).nfa,
            final(self).model() == minimal(old(self).model()),
            is_quotient(old(self).model(), final(self).model(), final_classes(old(self).model())),
            minimized(old(self).model(), final(self).model()),
            final(self).model().len() <= old(self).model().len(),
            targets_in_range(final(self).model()),
            deterministic(old(self).model()) ==> deterministic(final(self).model()),
    {
        let ghost d = self.model();
        let n = self.states.len();
        let (mut class, mut count) = self.classes_by_tag();
        proof {
            lemma_seen_bounds(class@, n as int);
            lemma_tag_partition_unique(d, class@);
        }
        loop
            invariant
                self.nfa == old(self).nfa,
                d == self.model(),
                d == old(self).model(),
                n == d.len(),
                targets_in_range(d),
                class@.len() == n,
                is_rgs(class@),
                group_count(class@) == count,
                count <= n,
                one_tag_each(d, class@),
                stable_classes(d, class@) == stable_classes(d, tag_classes(d)),
            decreases n - count,
        {
            let (new_class, keys, firsts) = self.refine(&class, count);
            proof {
                lemma_seen_bounds(new_class@, n as int);
            }
            if keys.len() == count {
                let mut new_states: Vec<DfaState> = Vec::new();
                let mut g: usize = 0;
                while g < count
                    invariant
                        g <= count,
                        d == self.model(),
                        n == d.len(),
                        count == keys@.len(),
                        count == firsts@.len(),
                        forall|id: int| 0 <= id < count ==> (#[trigger] firsts@[id]) < n,
                        new_states@.len() == g,
                        forall|h: int|
                            0 <= h < g ==> (#[trigger] new_states@[h])@ == (StateView {
                                transitions: keys@[h]@,
                                nfa_states: d[firsts@[h] as int].nfa_states,
                                accept: d[firsts@[h] as int].accept,
                            }),
                    decreases count - g,
                {
                    let first = firsts[g];
                    let state = DfaState {
                        transitions: copy_pairs(&keys[g]),
                        nfa_states: copy_members(&self.states[first].nfa_states),
                        accept: copy_accept(&self.states[first].accept),
                    };
                    new_states.push(state);
                    g += 1;
                }
                self.states = new_states;
                proof {
                    let m = self.model();
                    let cls = class@;
                    assert forall|s: int| 0 <= s < d.len() implies m[cls[s] as int].accept == (
                    #[trigger] d[s]).accept by {
                        lemma_class_bound(cls, s);
                    }
                    assert forall|s: int|
                        0 <= s < d.len() && cls[s] == seen_upto(cls, s) implies m[cls[s] as int].nfa_states
                        == (#[trigger] d[s]).nfa_states by {
                        lemma_class_bound(cls, s);
                        let f = firsts@[cls[s] as int] as int;
                        lemma_first_unique(cls, s, f);
                    }
                    assert forall|s: int| 0 <= s < d.len() implies sub_signature(
                        #[trigger] signature(d, cls, s),
                        m[cls[s] as int].transitions,
                    ) by {
                        lemma_class_bound(cls, s);
                    }
                    assert forall|h: int| 0 <= h < m.len() implies has_rep(
                        d,
                        cls,
                        cls,
                        (#[trigger] m[h]).transitions,
                        h,
                        d.len() as int,
                    ) by {
                        assert(keys_view(keys@)[h] == m[h].transitions);
                    }
                    assert(is_quotient(d, m, cls));
                    lemma_quotient_wf(d, m, cls);
                }
                return ;
            }
            class = new_class;
            count = keys.len();
        }
    }
}

} // verus!
