//! Compiles token specifications into one flat table of automaton states.
use vstd::prelude::*;

use crate::bitset::{
    copy_bits, empty_bits, is_empty_bits, lemma_distinct_bound, lemma_members_determine, members,
    same_bits, union_bits,
};
use vstd::arithmetic::power2::pow2;
use crate::TokenSpec;
use crate::regex_parser::{
    RegexNode, RegexTerminal, alphabet_of, body, chars_of, is_augmented,
    leaf_chars, leaves, numbered, parse_pattern, parse_regex, sentinel_pos,
};

verus! {

/// Whether the tree can match the empty string.
pub open spec fn nullable(node: RegexNode) -> bool
    decreases node,
{
    match node {
        RegexNode::Cat(l, r) => nullable(*l) && nullable(*r),
        RegexNode::Or(l, r) => nullable(*l) || nullable(*r),
        RegexNode::Parenthesized(c) => nullable(*c),
        RegexNode::Kleene(_) => true,
        RegexNode::Terminal(_) => false,
    }
}

/// The positions that can match the first character of a match of the tree.
pub open spec fn firstpos(node: RegexNode) -> Set<nat>
    decreases node,
{
    match node {
        RegexNode::Cat(l, r) => if nullable(*l) {
            firstpos(*l) + firstpos(*r)
        } else {
            firstpos(*l)
        },
        RegexNode::Or(l, r) => firstpos(*l) + firstpos(*r),
        RegexNode::Parenthesized(c) => firstpos(*c),
        RegexNode::Kleene(c) => firstpos(*c),
        RegexNode::Terminal(t) => set![t.pos as nat],
    }
}

/// The positions that can match the last character of a match of the tree.
pub open spec fn lastpos(node: RegexNode) -> Set<nat>
    decreases node,
{
    match node {
        RegexNode::Cat(l, r) => if nullable(*r) {
            lastpos(*r) + lastpos(*l)
        } else {
            lastpos(*r)
        },
        RegexNode::Or(l, r) => lastpos(*l) + lastpos(*r),
        RegexNode::Parenthesized(c) => lastpos(*c),
        RegexNode::Kleene(c) => lastpos(*c),
        RegexNode::Terminal(t) => set![t.pos as nat],
    }
}

/// The positions that can follow position `p` within the tree: gathered from each
/// concatenation (last of the left part to first of the right) and each repetition
/// (last of the body to first of the body).
pub open spec fn followpos(node: RegexNode, p: nat) -> Set<nat>
    decreases node,
{
    match node {
        RegexNode::Cat(l, r) => followpos(*l, p) + followpos(*r, p) + if lastpos(*l).contains(p) {
            firstpos(*r)
        } else {
            Set::empty()
        },
        RegexNode::Or(l, r) => followpos(*l, p) + followpos(*r, p),
        RegexNode::Parenthesized(c) => followpos(*c, p),
        RegexNode::Kleene(c) => followpos(*c, p) + if lastpos(*c).contains(p) {
            firstpos(*c)
        } else {
            Set::empty()
        },
        RegexNode::Terminal(_) => Set::empty(),
    }
}

/// Every leaf of the tree has a position below `n`.
pub open spec fn below(node: RegexNode, n: nat) -> bool
    decreases node,
{
    match node {
        RegexNode::Cat(l, r) => below(*l, n) && below(*r, n),
        RegexNode::Or(l, r) => below(*l, n) && below(*r, n),
        RegexNode::Parenthesized(c) => below(*c, n),
        RegexNode::Kleene(c) => below(*c, n),
        RegexNode::Terminal(t) => t.pos < n,
    }
}

pub open spec fn positions_below(s: Set<nat>, n: nat) -> bool {
    forall|p: nat| s.contains(p) ==> p < n
}

pub proof fn lemma_numbered_below(node: RegexNode, start: int, n: nat)
    requires
        numbered(leaves(node), start),
        start >= 0,
        start + leaves(node).len() <= n,
    ensures
        below(node, n),
    decreases node,
{
    match node {
        RegexNode::Cat(l, r) => {
            lemma_split_numbered(leaves(*l), leaves(*r), start);
            lemma_numbered_below(*l, start, n);
            lemma_numbered_below(*r, start + leaves(*l).len(), n);
        },
        RegexNode::Or(l, r) => {
            lemma_split_numbered(leaves(*l), leaves(*r), start);
            lemma_numbered_below(*l, start, n);
            lemma_numbered_below(*r, start + leaves(*l).len(), n);
        },
        RegexNode::Parenthesized(c) => lemma_numbered_below(*c, start, n),
        RegexNode::Kleene(c) => lemma_numbered_below(*c, start, n),
        RegexNode::Terminal(t) => {
            assert(leaves(node)[0] == t);
        },
    }
}

proof fn lemma_split_numbered(a: Seq<RegexTerminal>, b: Seq<RegexTerminal>, start: int)
    requires
        numbered(a + b, start),
    ensures
        numbered(a, start),
        numbered(b, start + a.len()),
{
    assert forall|i: int| 0 <= i < a.len() implies #[trigger] a[i].pos == start + i by {
        assert((a + b)[i] == a[i]);
    }
    assert forall|i: int| 0 <= i < b.len() implies #[trigger] b[i].pos == start + a.len() + i by {
        assert((a + b)[a.len() + i] == b[i]);
    }
}

pub proof fn lemma_positions_below(node: RegexNode, n: nat)
    requires
        below(node, n),
    ensures
        positions_below(firstpos(node), n),
        positions_below(lastpos(node), n),
        forall|p: nat| positions_below(#[trigger] followpos(node, p), n),
    decreases node,
{
    match node {
        RegexNode::Cat(l, r) => {
            lemma_positions_below(*l, n);
            lemma_positions_below(*r, n);
            assert forall|p: nat| positions_below(#[trigger] followpos(node, p), n) by {
                assert(positions_below(followpos(*l, p), n));
                assert(positions_below(followpos(*r, p), n));
                assert(positions_below(firstpos(*r), n));
                assert forall|q: nat| followpos(node, p).contains(q) implies q < n by {
                    if followpos(*l, p).contains(q) {
                    } else if followpos(*r, p).contains(q) {
                    } else {
                        assert(firstpos(*r).contains(q));
                    }
                }
            }
        },
        RegexNode::Or(l, r) => {
            lemma_positions_below(*l, n);
            lemma_positions_below(*r, n);
            assert forall|p: nat| positions_below(#[trigger] followpos(node, p), n) by {
                assert(positions_below(followpos(*l, p), n));
                assert(positions_below(followpos(*r, p), n));
            }
        },
        RegexNode::Parenthesized(c) => {
            lemma_positions_below(*c, n);
            assert forall|p: nat| positions_below(#[trigger] followpos(node, p), n) by {
                assert(positions_below(followpos(*c, p), n));
            }
        },
        RegexNode::Kleene(c) => {
            lemma_positions_below(*c, n);
            assert forall|p: nat| positions_below(#[trigger] followpos(node, p), n) by {
                assert(positions_below(followpos(*c, p), n));
            }
        },
        RegexNode::Terminal(t) => {
            assert forall|p: nat| positions_below(#[trigger] followpos(node, p), n) by {
                assert(followpos(node, p) =~= Set::empty());
            }
        },
    }
}

/// The positions of the leaves of a tree.
pub open spec fn leaf_positions(node: RegexNode) -> Set<nat>
    decreases node,
{
    match node {
        RegexNode::Cat(l, r) => leaf_positions(*l) + leaf_positions(*r),
        RegexNode::Or(l, r) => leaf_positions(*l) + leaf_positions(*r),
        RegexNode::Parenthesized(c) => leaf_positions(*c),
        RegexNode::Kleene(c) => leaf_positions(*c),
        RegexNode::Terminal(t) => set![t.pos as nat],
    }
}

/// The first and the last positions of a tree are positions of its own leaves, and each
/// holds at least one.
pub proof fn lemma_first_last_in_leaves(node: RegexNode)
    ensures
        firstpos(node).subset_of(leaf_positions(node)),
        lastpos(node).subset_of(leaf_positions(node)),
        exists|p: nat| #[trigger] firstpos(node).contains(p),
        exists|p: nat| #[trigger] lastpos(node).contains(p),
    decreases node,
{
    match node {
        RegexNode::Cat(l, r) => {
            lemma_first_last_in_leaves(*l);
            lemma_first_last_in_leaves(*r);
            let a = choose|p: nat| #[trigger] firstpos(*l).contains(p);
            let b = choose|p: nat| #[trigger] lastpos(*r).contains(p);
            assert(firstpos(node).contains(a));
            assert(lastpos(node).contains(b));
        },
        RegexNode::Or(l, r) => {
            lemma_first_last_in_leaves(*l);
            lemma_first_last_in_leaves(*r);
            let a = choose|p: nat| #[trigger] firstpos(*l).contains(p);
            let b = choose|p: nat| #[trigger] lastpos(*l).contains(p);
            assert(firstpos(node).contains(a));
            assert(lastpos(node).contains(b));
        },
        RegexNode::Parenthesized(c) => {
            lemma_first_last_in_leaves(*c);
            let a = choose|p: nat| #[trigger] firstpos(*c).contains(p);
            let b = choose|p: nat| #[trigger] lastpos(*c).contains(p);
            assert(firstpos(node).contains(a));
            assert(lastpos(node).contains(b));
        },
        RegexNode::Kleene(c) => {
            lemma_first_last_in_leaves(*c);
            let a = choose|p: nat| #[trigger] firstpos(*c).contains(p);
            let b = choose|p: nat| #[trigger] lastpos(*c).contains(p);
            assert(firstpos(node).contains(a));
            assert(lastpos(node).contains(b));
        },
        RegexNode::Terminal(t) => {
            assert(firstpos(node).contains(t.pos as nat));
            assert(lastpos(node).contains(t.pos as nat));
        },
    }
}

/// The tables of positions of one augmented tree.
struct Cache {
    chars: Vec<char>,
    first_pos_table: Vec<bool>,
    follow_pos_table: Vec<Vec<bool>>,
}

impl Cache {
    /// The tables hold, for the tree `root`, the character of each position, the first
    /// positions of the tree and the follow positions of each position.
    spec fn holds(&self, root: RegexNode) -> bool {
        let n = leaves(root).len();
        &&& self.chars@.len() == n
        &&& forall|p: int| 0 <= p < n ==> self.chars@[p] == #[trigger] leaves(root)[p].ch
        &&& self.first_pos_table@.len() == n
        &&& members(self.first_pos_table@) == firstpos(root)
        &&& self.follow_pos_table@.len() == n
        &&& forall|p: int|
            0 <= p < n ==> (#[trigger] self.follow_pos_table@[p])@.len() == n && members(
                self.follow_pos_table@[p]@,
            ) == followpos(root, p as nat)
    }

    fn calculate_nullable(node: &RegexNode) -> (r: bool)
        ensures
            r == nullable(*node),
        decreases node,
    {
        match node {
            RegexNode::Cat(left, right) => {
                let left_nullable = Self::calculate_nullable(left);
                let right_nullable = Self::calculate_nullable(right);
                left_nullable && right_nullable
            },
            RegexNode::Or(left, right) => {
                let left_nullable = Self::calculate_nullable(left);
                let right_nullable = Self::calculate_nullable(right);
                left_nullable || right_nullable
            },
            RegexNode::Parenthesized(child) => Self::calculate_nullable(child),
            RegexNode::Kleene(child) => {
                let _ = Self::calculate_nullable(child);
                true
            },
            RegexNode::Terminal(_) => false,
        }
    }

    fn single(pos: usize, n: usize) -> (r: Vec<bool>)
        requires
            pos < n,
        ensures
            r@.len() == n,
            members(r@) == set![pos as nat],
    {
        let mut r = empty_bits(n);
        r.set(pos, true);
        assert(members(r@) =~= set![pos as nat]);
        r
    }

    fn calculate_first_pos(node: &RegexNode, n: usize) -> (r: Vec<bool>)
        requires
            below(*node, n as nat),
        ensures
            r@.len() == n,
            members(r@) == firstpos(*node),
        decreases node,
    {
        match node {
            RegexNode::Cat(left, right) => {
                let mut first_pos = Self::calculate_first_pos(left, n);
                if Self::calculate_nullable(left) {
                    let right_first_pos = Self::calculate_first_pos(right, n);
                    first_pos = union_bits(&first_pos, &right_first_pos);
                }
                first_pos
            },
            RegexNode::Or(left, right) => {
                let mut first_pos = Self::calculate_first_pos(left, n);
                let right_first_pos = Self::calculate_first_pos(right, n);
                first_pos = union_bits(&first_pos, &right_first_pos);
                first_pos
            },
            RegexNode::Parenthesized(child) => Self::calculate_first_pos(child, n),
            RegexNode::Kleene(child) => Self::calculate_first_pos(child, n),
            RegexNode::Terminal(t) => Self::single(t.pos, n),
        }
    }

    fn calculate_last_pos(node: &RegexNode, n: usize) -> (r: Vec<bool>)
        requires
            below(*node, n as nat),
        ensures
            r@.len() == n,
            members(r@) == lastpos(*node),
        decreases node,
    {
        match node {
            RegexNode::Cat(left, right) => {
                let mut last_pos = Self::calculate_last_pos(right, n);
                if Self::calculate_nullable(right) {
                    let left_last_pos = Self::calculate_last_pos(left, n);
                    last_pos = union_bits(&last_pos, &left_last_pos);
                }
                last_pos
            },
            RegexNode::Or(left, right) => {
                let mut last_pos = Self::calculate_last_pos(left, n);
                let right_last_pos = Self::calculate_last_pos(right, n);
                last_pos = union_bits(&last_pos, &right_last_pos);
                last_pos
            },
            RegexNode::Parenthesized(child) => Self::calculate_last_pos(child, n),
            RegexNode::Kleene(child) => Self::calculate_last_pos(child, n),
            RegexNode::Terminal(t) => Self::single(t.pos, n),
        }
    }
}

impl Cache {
    /// Adds the positions of `to` to the follow positions of each position in `from`.
    fn add_follow(&mut self, from: &Vec<bool>, to: &Vec<bool>)
        requires
            from@.len() == old(self).follow_pos_table@.len(),
            to@.len() == old(self).follow_pos_table@.len(),
            forall|p: int|
                0 <= p < old(self).follow_pos_table@.len() ==> (
                #[trigger] old(self).follow_pos_table@[p])@.len() == to@.len(),
        ensures
            final(self).chars == old(self).chars,
            final(self).first_pos_table == old(self).first_pos_table,
            final(self).follow_pos_table@.len() == old(self).follow_pos_table@.len(),
            forall|p: int|
                0 <= p < final(self).follow_pos_table@.len() ==> (
                #[trigger] final(self).follow_pos_table@[p])@.len() == to@.len() && members(
                    final(self).follow_pos_table@[p]@,
                ) == members(old(self).follow_pos_table@[p]@) + if from@[p] {
                    members(to@)
                } else {
                    Set::empty()
                },
    {
        let n = self.follow_pos_table.len();
        let mut i: usize = 0;
        while i < n
            invariant
                n == self.follow_pos_table@.len() == old(self).follow_pos_table@.len(),
                from@.len() == n,
                to@.len() == n,
                i <= n,
                self.chars == old(self).chars,
                self.first_pos_table == old(self).first_pos_table,
                forall|p: int|
                    0 <= p < n ==> (#[trigger] self.follow_pos_table@[p])@.len() == n,
                forall|p: int|
                    0 <= p < i ==> members((#[trigger] self.follow_pos_table@[p])@) == members(
                        old(self).follow_pos_table@[p]@,
                    ) + if from@[p] {
                        members(to@)
                    } else {
                        Set::empty()
                    },
                forall|p: int|
                    i <= p < n ==> #[trigger] self.follow_pos_table@[p] == old(
                        self,
                    ).follow_pos_table@[p],
            decreases n - i,
        {
            if from[i] {
                let row = union_bits(&self.follow_pos_table[i], to);
                self.follow_pos_table.set(i, row);
            } else {
                assert(members(self.follow_pos_table@[i as int]@) =~= members(
                    old(self).follow_pos_table@[i as int]@,
                ) + Set::empty());
            }
            i += 1;
        }
    }

    fn calculate_follow_pos(&mut self, node: &RegexNode)
        requires
            below(*node, old(self).follow_pos_table@.len() as nat),
            forall|p: int|
                0 <= p < old(self).follow_pos_table@.len() ==> (
                #[trigger] old(self).follow_pos_table@[p])@.len()
                    == old(self).follow_pos_table@.len(),
        ensures
            final(self).chars == old(self).chars,
            final(self).first_pos_table == old(self).first_pos_table,
            final(self).follow_pos_table@.len() == old(self).follow_pos_table@.len(),
            forall|p: int|
                0 <= p < final(self).follow_pos_table@.len() ==> (
                #[trigger] final(self).follow_pos_table@[p])@.len()
                    == final(self).follow_pos_table@.len() && members(
                    final(self).follow_pos_table@[p]@,
                ) == members(old(self).follow_pos_table@[p]@) + followpos(*node, p as nat),
        decreases node,
    {
        let n = self.follow_pos_table.len();
        match node {
            RegexNode::Cat(left, right) => {
                let left_last_pos = Self::calculate_last_pos(left, n);
                let right_first_pos = Self::calculate_first_pos(right, n);
                self.add_follow(&left_last_pos, &right_first_pos);
                let ghost mid = *self;
                self.calculate_follow_pos(left);
                let ghost mid2 = *self;
                self.calculate_follow_pos(right);
                assert forall|p: int| 0 <= p < n implies members(
                    (#[trigger] self.follow_pos_table@[p])@,
                ) == members(old(self).follow_pos_table@[p]@) + followpos(*node, p as nat) by {
                    assert(left_last_pos@[p] == lastpos(**left).contains(p as nat));
                    assert(members(self.follow_pos_table@[p]@) =~= members(
                        old(self).follow_pos_table@[p]@,
                    ) + followpos(*node, p as nat));
                }
            },
            RegexNode::Kleene(child) => {
                let last_pos = Self::calculate_last_pos(child, n);
                let first_pos = Self::calculate_first_pos(child, n);
                self.add_follow(&last_pos, &first_pos);
                self.calculate_follow_pos(child);
                assert forall|p: int| 0 <= p < n implies members(
                    (#[trigger] self.follow_pos_table@[p])@,
                ) == members(old(self).follow_pos_table@[p]@) + followpos(*node, p as nat) by {
                    assert(last_pos@[p] == lastpos(**child).contains(p as nat));
                    assert(members(self.follow_pos_table@[p]@) =~= members(
                        old(self).follow_pos_table@[p]@,
                    ) + followpos(*node, p as nat));
                }
            },
            RegexNode::Parenthesized(child) => {
                self.calculate_follow_pos(child);
            },
            RegexNode::Or(left, right) => {
                self.calculate_follow_pos(left);
                self.calculate_follow_pos(right);
                assert forall|p: int| 0 <= p < n implies members(
                    (#[trigger] self.follow_pos_table@[p])@,
                ) == members(old(self).follow_pos_table@[p]@) + followpos(*node, p as nat) by {
                    assert(members(self.follow_pos_table@[p]@) =~= members(
                        old(self).follow_pos_table@[p]@,
                    ) + followpos(*node, p as nat));
                }
            },
            RegexNode::Terminal(_) => {
                assert forall|p: int| 0 <= p < n implies members(
                    (#[trigger] self.follow_pos_table@[p])@,
                ) == members(old(self).follow_pos_table@[p]@) + followpos(*node, p as nat) by {
                    assert(members(self.follow_pos_table@[p]@) =~= members(
                        old(self).follow_pos_table@[p]@,
                    ) + followpos(*node, p as nat));
                }
            },
        }
    }
}

fn collect_chars(node: &RegexNode, out: &mut Vec<char>)
    ensures
        final(out)@ == old(out)@ + leaf_chars(*node),
    decreases node,
{
    match node {
        RegexNode::Cat(left, right) | RegexNode::Or(left, right) => {
            collect_chars(left, out);
            collect_chars(right, out);
            assert(leaf_chars(*node) =~= leaf_chars(**left) + leaf_chars(**right));
        },
        RegexNode::Parenthesized(child) | RegexNode::Kleene(child) => {
            collect_chars(child, out);
        },
        RegexNode::Terminal(t) => {
            out.push(t.ch);
            assert(leaf_chars(*node) =~= seq![t.ch]);
        },
    }
}

impl Cache {
    fn new(root_node: &RegexNode) -> (r: Self)
        requires
            is_augmented(*root_node),
            leaves(*root_node).len() <= usize::MAX,
        ensures
            r.holds(*root_node),
    {
        let mut chars: Vec<char> = Vec::new();
        collect_chars(root_node, &mut chars);
        let n = chars.len();
        proof {
            assert(chars@ =~= leaf_chars(*root_node));
            lemma_numbered_below(*root_node, 0, n as nat);
        }
        let first_pos_table = Self::calculate_first_pos(root_node, n);
        let mut follow_pos_table: Vec<Vec<bool>> = Vec::new();
        let mut i: usize = 0;
        while i < n
            invariant
                i <= n,
                follow_pos_table@.len() == i,
                forall|p: int|
                    0 <= p < i ==> (#[trigger] follow_pos_table@[p])@.len() == n && members(
                        follow_pos_table@[p]@,
                    ) == Set::<nat>::empty(),
            decreases n - i,
        {
            follow_pos_table.push(empty_bits(n));
            i += 1;
        }
        let mut cache = Self { chars, first_pos_table, follow_pos_table };
        cache.calculate_follow_pos(root_node);
        assert forall|p: int| 0 <= p < n implies (#[trigger] cache.follow_pos_table@[p])@.len() == n
            && members(cache.follow_pos_table@[p]@) == followpos(*root_node, p as nat) by {
            assert(members(cache.follow_pos_table@[p]@) =~= followpos(*root_node, p as nat));
        }
        cache
    }

    /// The first positions of the whole tree.
    fn first_pos(&self) -> (r: &Vec<bool>)
        ensures
            r == &self.first_pos_table,
    {
        &self.first_pos_table
    }

    /// The follow positions of position `p`.
    fn follow_pos(&self, p: usize) -> (r: &Vec<bool>)
        requires
            p < self.follow_pos_table@.len(),
        ensures
            r == &self.follow_pos_table@[p as int],
    {
        &self.follow_pos_table[p]
    }
}

/// The positions that can follow a position of `s` that carries the character `c`.
pub open spec fn moves(root: RegexNode, s: Set<nat>, c: char) -> Set<nat> {
    Set::new(
        |q: nat|
            exists|p: nat|
                #![trigger s.contains(p), followpos(root, p)]
                s.contains(p) && p < leaves(root).len() && leaves(root)[p as int].ch == c
                    && followpos(root, p).contains(q),
    )
}

spec fn moves_upto(root: RegexNode, s: Set<nat>, c: char, i: nat) -> Set<nat> {
    Set::new(
        |q: nat|
            exists|p: nat|
                #![trigger s.contains(p), followpos(root, p)]
                p < i && s.contains(p) && p < leaves(root).len() && leaves(root)[p as int].ch == c
                    && followpos(root, p).contains(q),
    )
}

/// One state of the automaton of one pattern: a set of positions, and for each character
/// of the alphabet, in its order, the state it leads to, if any.
pub struct DfaState {
    pub terminals: Vec<bool>,
    pub next: Vec<Option<usize>>,
}

/// The positions of a state.
pub open spec fn state_set(s: DfaState) -> Set<nat> {
    members(s.terminals@)
}

/// The transition of state `i` on the `k`-th character of the alphabet leads to the state
/// whose positions are those that the character moves to, or nowhere where there are none.
pub open spec fn transition_ok(
    root: RegexNode,
    alphabet: Seq<char>,
    states: Seq<DfaState>,
    i: int,
    k: int,
) -> bool {
    let u = moves(root, state_set(states[i]), alphabet[k]);
    match states[i].next@[k] {
        None => u == Set::<nat>::empty(),
        Some(j) => u != Set::<nat>::empty() && j < states.len() && state_set(states[j as int]) == u,
    }
}

/// `states` is the automaton of the augmented tree `root` over `alphabet`: it starts at the
/// first positions of the tree, its states have distinct sets of positions, each transition
/// goes where the follow positions lead, and each state but the first is reached from an
/// earlier one.
pub open spec fn is_dfa_of(root: RegexNode, alphabet: Seq<char>, states: Seq<DfaState>) -> bool {
    let n = leaves(root).len();
    &&& 1 <= states.len() <= usize::MAX
    &&& state_set(states[0]) == firstpos(root)
    &&& forall|i: int|
        0 <= i < states.len() ==> (#[trigger] states[i]).terminals@.len() == n
            && states[i].next@.len() == alphabet.len()
    &&& forall|i: int, j: int|
        0 <= i < j < states.len() ==> state_set(#[trigger] states[i]) != state_set(
            #[trigger] states[j],
        )
    &&& forall|i: int, k: int|
        0 <= i < states.len() && 0 <= k < alphabet.len() ==> #[trigger] transition_ok(
            root,
            alphabet,
            states,
            i,
            k,
        )
    &&& discovered_in_order(alphabet.len() as int, states)
}

/// Transition `a` (a state and an index in the alphabet) comes before transition `b`: by
/// state, then by character.
pub open spec fn before_pair(a: (int, int), b: (int, int)) -> bool {
    a.0 < b.0 || (a.0 == b.0 && a.1 < b.1)
}

/// `origin[j]` is the transition that discovered state `j`: it leaves an earlier state and
/// leads to `j`, and every transition before it leads to a state before `j`.
pub open spec fn discovery(alen: int, states: Seq<DfaState>, origin: Seq<(int, int)>) -> bool {
    &&& origin.len() == states.len()
    &&& forall|j: int|
        1 <= j < states.len() ==> {
            let (i, k) = #[trigger] origin[j];
            &&& 0 <= i < j
            &&& 0 <= k < alen
            &&& states[i].next@[k] == Some(j as usize)
        }
    &&& forall|j: int, i: int, k: int|
        #![trigger origin[j], states[i].next@[k]]
        1 <= j < states.len() && 0 <= i < states.len() && 0 <= k < alen && before_pair(
            (i, k),
            origin[j],
        ) ==> states[i].next@[k] is None || states[i].next@[k]->0 < j
}

/// The states are numbered in the order in which a breadth-first walk over the transitions,
/// state by state and character by character, first reaches them.
pub open spec fn discovered_in_order(alen: int, states: Seq<DfaState>) -> bool {
    exists|origin: Seq<(int, int)>| #[trigger] discovery(alen, states, origin)
}

proof fn lemma_agree_upto(
    root: RegexNode,
    alphabet: Seq<char>,
    a: Seq<DfaState>,
    b: Seq<DfaState>,
    oa: Seq<(int, int)>,
    ob: Seq<(int, int)>,
    m: int,
)
    requires
        is_dfa_of(root, alphabet, a),
        is_dfa_of(root, alphabet, b),
        discovery(alphabet.len() as int, a, oa),
        discovery(alphabet.len() as int, b, ob),
        0 <= m <= a.len(),
        m <= b.len(),
    ensures
        forall|j: int| 0 <= j < m ==> state_set(#[trigger] a[j]) == state_set(b[j]),
    decreases m,
{
    if m > 0 {
        lemma_agree_upto(root, alphabet, a, b, oa, ob, m - 1);
        let j = m - 1;
        if j > 0 {
            let (i, k) = oa[j];
            assert(transition_ok(root, alphabet, a, i, k));
            assert(transition_ok(root, alphabet, b, i, k));
            assert(state_set(a[i]) == state_set(b[i]));
            let t = b[i].next@[k]->0 as int;
            if t < j {
                assert(state_set(a[t]) == state_set(b[t]));
                assert(state_set(a[t]) != state_set(a[j]));
            } else if t != j {
                let (i2, k2) = ob[j];
                assert(b[i].next@[k] != Some(j as usize));
                assert(before_pair((i2, k2), (i, k))) by {
                    if !before_pair((i, k), (i2, k2)) && (i, k) != (i2, k2) {
                    } else if (i, k) == (i2, k2) {
                    } else {
                        assert(b[i].next@[k] is None || b[i].next@[k]->0 < j);
                    }
                }
                assert(a[i2].next@[k2] is None || a[i2].next@[k2]->0 < j);
                assert(transition_ok(root, alphabet, b, i2, k2));
                assert(transition_ok(root, alphabet, a, i2, k2));
                assert(state_set(a[i2]) == state_set(b[i2]));
                let s2 = a[i2].next@[k2]->0 as int;
                assert(state_set(a[s2]) == state_set(b[s2]));
                assert(state_set(b[s2]) != state_set(b[j]));
            }
        }
    }
}

/// The automaton of a tree over an alphabet is unique: two sequences of states that are
/// both its automaton have the same states, in the same order, with the same transitions.
pub proof fn lemma_dfa_unique(root: RegexNode, alphabet: Seq<char>, a: Seq<DfaState>, b: Seq<DfaState>)
    requires
        is_dfa_of(root, alphabet, a),
        is_dfa_of(root, alphabet, b),
    ensures
        a.len() == b.len(),
        forall|j: int|
            0 <= j < a.len() ==> (#[trigger] a[j]).terminals@ == b[j].terminals@ && a[j].next@
                == b[j].next@,
{
    let alen = alphabet.len() as int;
    let oa = choose|o: Seq<(int, int)>| #[trigger] discovery(alen, a, o);
    let ob = choose|o: Seq<(int, int)>| #[trigger] discovery(alen, b, o);
    if a.len() > b.len() {
        lemma_agree_upto(root, alphabet, a, b, oa, ob, b.len() as int);
        let l = b.len() as int;
        let (i, k) = oa[l];
        assert(transition_ok(root, alphabet, a, i, k));
        assert(transition_ok(root, alphabet, b, i, k));
        assert(state_set(a[i]) == state_set(b[i]));
        assert(b[i].next@[k] is Some);
        let t = b[i].next@[k]->0 as int;
        assert(state_set(a[t]) == state_set(b[t]));
        assert(state_set(a[t]) != state_set(a[l]));
    } else if b.len() > a.len() {
        lemma_agree_upto(root, alphabet, b, a, ob, oa, a.len() as int);
        let l = a.len() as int;
        let (i, k) = ob[l];
        assert(transition_ok(root, alphabet, b, i, k));
        assert(transition_ok(root, alphabet, a, i, k));
        assert(state_set(b[i]) == state_set(a[i]));
        let t = a[i].next@[k]->0 as int;
        assert(state_set(b[t]) == state_set(a[t]));
        assert(state_set(b[t]) != state_set(b[l]));
    }
    lemma_agree_upto(root, alphabet, a, b, oa, ob, a.len() as int);
    assert forall|j: int| 0 <= j < a.len() implies (#[trigger] a[j]).terminals@ == b[j].terminals@
        && a[j].next@ == b[j].next@ by {
        lemma_members_determine(a[j].terminals@, b[j].terminals@);
        assert forall|k: int| 0 <= k < alen implies a[j].next@[k] == b[j].next@[k] by {
            assert(transition_ok(root, alphabet, a, j, k));
            assert(transition_ok(root, alphabet, b, j, k));
            if a[j].next@[k] is Some && b[j].next@[k] is Some {
                let ta = a[j].next@[k]->0 as int;
                let tb = b[j].next@[k]->0 as int;
                assert(state_set(a[tb]) == state_set(b[tb]));
                if ta != tb {
                    if ta < tb {
                        assert(state_set(a[ta]) != state_set(a[tb]));
                    } else {
                        assert(state_set(a[tb]) != state_set(a[ta]));
                    }
                }
            }
        }
        assert(a[j].next@ =~= b[j].next@);
    }
}

/// A state of the automaton of an augmented tree accepts exactly when it holds the
/// position of the sentinel.
pub proof fn lemma_accepting_iff_sentinel(
    tree: RegexNode,
    alphabet: Seq<char>,
    states: Seq<DfaState>,
    i: int,
)
    requires
        is_augmented(tree),
        is_dfa_of(tree, alphabet, states),
        0 <= i < states.len(),
    ensures
        (states[i].terminals@.len() > 0 && state_set(states[i]).contains(
            (states[i].terminals@.len() - 1) as nat,
        )) == state_set(states[i]).contains(sentinel_pos(tree) as nat),
{
    assert(states[i].terminals@.len() == leaves(tree).len());
}

impl DfaState {
    fn new(terminals: Vec<bool>) -> (r: Self)
        ensures
            r.terminals == terminals,
            r.next@.len() == 0,
    {
        Self { terminals, next: Vec::new() }
    }

    /// Whether the state holds the last position, the one of the sentinel.
    pub fn is_accepting(&self) -> (r: bool)
        ensures
            r == (self.terminals@.len() > 0 && state_set(*self).contains(
                (self.terminals@.len() - 1) as nat,
            )),
    {
        let n = self.terminals.len();
        n > 0 && self.terminals[n - 1]
    }
}

impl Cache {
    /// The positions that `c` moves to from the positions of `s`.
    fn move_on(&self, s: &Vec<bool>, c: char, Ghost(root): Ghost<RegexNode>) -> (r: Vec<bool>)
        requires
            self.holds(root),
            s@.len() == leaves(root).len(),
        ensures
            r@.len() == s@.len(),
            members(r@) == moves(root, members(s@), c),
    {
        let n = self.chars.len();
        let mut u = empty_bits(n);
        let mut p: usize = 0;
        proof {
            assert(members(u@) =~= moves_upto(root, members(s@), c, 0));
        }
        while p < n
            invariant
                self.holds(root),
                n == self.chars@.len() == s@.len(),
                p <= n,
                u@.len() == n,
                members(u@) == moves_upto(root, members(s@), c, p as nat),
            decreases n - p,
        {
            let ghost before = u@;
            if s[p] && self.chars[p] == c {
                u = union_bits(&u, self.follow_pos(p));
            }
            proof {
                let ss = members(s@);
                assert(ss.contains(p as nat) == s@[p as int]);
                assert forall|q: nat| #[trigger] moves_upto(root, ss, c, (p + 1) as nat).contains(q)
                    == members(u@).contains(q) by {
                    if moves_upto(root, ss, c, (p + 1) as nat).contains(q) {
                        let w = choose|w: nat|
                            #![trigger ss.contains(w), followpos(root, w)]
                            w < p + 1 && ss.contains(w) && w < leaves(root).len()
                                && leaves(root)[w as int].ch == c && followpos(root, w).contains(q);
                        if w < p {
                            assert(moves_upto(root, ss, c, p as nat).contains(q));
                        }
                    }
                    if members(u@).contains(q) && !members(before).contains(q) {
                        assert(ss.contains(p as nat) && followpos(root, p as nat).contains(q));
                    }
                }
                assert(members(u@) =~= moves_upto(root, ss, c, (p + 1) as nat));
            }
            p += 1;
        }
        proof {
            assert(moves_upto(root, members(s@), c, n as nat) =~= moves(root, members(s@), c));
        }
        u
    }
}

/// The index of the state whose positions are `u`, if there is one.
fn find_state(states: &Vec<DfaState>, u: &Vec<bool>) -> (r: Option<usize>)
    ensures
        match r {
            Some(j) => j < states@.len() && states@[j as int].terminals@ == u@,
            None => forall|j: int| 0 <= j < states@.len() ==> states@[j].terminals@ != u@,
        },
{
    let mut j: usize = 0;
    while j < states.len()
        invariant
            j <= states@.len(),
            forall|i: int| 0 <= i < j ==> states@[i].terminals@ != u@,
        decreases states@.len() - j,
    {
        if same_bits(&states[j].terminals, u) {
            return Some(j);
        }
        j += 1;
    }
    None
}

/// Builds the automaton of the augmented tree `root` over `alphabet`, exploring states
/// breadth first from the first positions of the tree.
pub fn create_dfa(root: &RegexNode, alphabet: &Vec<char>) -> (r: Vec<DfaState>)
    requires
        is_augmented(*root),
        leaves(*root).len() <= usize::MAX,
    ensures
        is_dfa_of(*root, alphabet@, r@),
{
    let ghost rt = *root;
    let cache = Cache::new(root);
    let n = cache.chars.len();
    let alen = alphabet.len();
    let mut states: Vec<DfaState> = Vec::new();
    states.push(DfaState::new(copy_bits(cache.first_pos())));
    let mut visited: usize = 0;
    let ghost mut origin: Seq<(int, int)> = seq![(0int, 0int)];
    proof {
        vstd::arithmetic::power2::lemma_pow2_pos(n as nat);
    }
    while visited < states.len()
        invariant
            cache.holds(rt),
            n == leaves(rt).len(),
            alen == alphabet@.len(),
            1 <= states@.len() <= pow2(n as nat),
            visited <= states@.len(),
            origin.len() == states@.len(),
            state_set(states@[0]) == firstpos(rt),
            forall|i: int| 0 <= i < states@.len() ==> (#[trigger] states@[i]).terminals@.len() == n,
            forall|i: int| 0 <= i < visited ==> (#[trigger] states@[i]).next@.len() == alen,
            forall|i: int, j: int|
                0 <= i < j < states@.len() ==> (#[trigger] states@[i]).terminals@ != (
                #[trigger] states@[j]).terminals@,
            forall|i: int, k: int|
                0 <= i < visited && 0 <= k < alen ==> #[trigger] transition_ok(
                    rt,
                    alphabet@,
                    states@,
                    i,
                    k,
                ),
            forall|j: int|
                1 <= j < states@.len() ==> {
                    let (i, k) = #[trigger] origin[j];
                    &&& 0 <= i < visited
                    &&& i < j
                    &&& 0 <= k < alen
                    &&& states@[i].next@[k] == Some(j as usize)
                },
            forall|j: int, i: int, k: int|
                #![trigger origin[j], states@[i].next@[k]]
                1 <= j < states@.len() && 0 <= i < visited && 0 <= k < alen && before_pair(
                    (i, k),
                    origin[j],
                ) ==> states@[i].next@[k] is None || states@[i].next@[k]->0 < j,
        decreases pow2(n as nat) - visited,
    {
        let ghost start = states@;
        let ghost start_origin = origin;
        proof {
            assert forall|i: int, kk: int|
                0 <= i < visited && 0 <= kk < alen && (#[trigger] start[i].next@[kk]) is Some
                    implies start[i].next@[kk]->0 < start.len() by {
                assert(transition_ok(rt, alphabet@, start, i, kk));
            }
        }
        let mut row: Vec<Option<usize>> = Vec::new();
        let mut k: usize = 0;
        while k < alen
            invariant
                cache.holds(rt),
                n == leaves(rt).len(),
                alen == alphabet@.len(),
                visited < start.len() <= states@.len() <= pow2(n as nat),
                origin.len() == states@.len(),
                k <= alen,
                row@.len() == k,
                forall|i: int| 0 <= i < start.len() ==> #[trigger] states@[i] == start[i],
                forall|i: int| 0 <= i < start.len() ==> #[trigger] origin[i] == start_origin[i],
                forall|i: int| 0 <= i < states@.len() ==> (#[trigger] states@[i]).terminals@.len() == n,
                forall|i: int, j: int|
                    0 <= i < j < states@.len() ==> (#[trigger] states@[i]).terminals@ != (
                    #[trigger] states@[j]).terminals@,
                forall|kk: int|
                    0 <= kk < k ==> {
                        let u = moves(rt, state_set(states@[visited as int]), alphabet@[kk]);
                        match #[trigger] row@[kk] {
                            None => u == Set::<nat>::empty(),
                            Some(j) => u != Set::<nat>::empty() && j < states@.len() && state_set(
                                states@[j as int],
                            ) == u,
                        }
                    },
                forall|j: int|
                    start.len() <= j < states@.len() ==> {
                        let (i, kk) = #[trigger] origin[j];
                        &&& i == visited
                        &&& 0 <= kk < k
                        &&& row@[kk] == Some(j as usize)
                    },
                forall|j: int| 1 <= j < start.len() ==> (#[trigger] origin[j]).0 < visited,
                forall|i: int, kk: int|
                    0 <= i < visited && 0 <= kk < alen && (#[trigger] start[i].next@[kk]) is Some
                        ==> start[i].next@[kk]->0 < start.len(),
                forall|j: int, i: int, kk: int|
                    #![trigger origin[j], start[i].next@[kk]]
                    1 <= j < start.len() && 0 <= i < visited && 0 <= kk < alen && before_pair(
                        (i, kk),
                        origin[j],
                    ) ==> start[i].next@[kk] is None || start[i].next@[kk]->0 < j,
                forall|j: int, kk: int|
                    #![trigger origin[j], row@[kk]]
                    1 <= j < states@.len() && 0 <= kk < k && before_pair(
                        (visited as int, kk),
                        origin[j],
                    ) ==> row@[kk] is None || row@[kk]->0 < j,
            decreases alen - k,
        {
            let ch = alphabet[k];
            let u = cache.move_on(&states[visited].terminals, ch, Ghost(rt));
            if is_empty_bits(&u) {
                row.push(None);
            } else {
                match find_state(&states, &u) {
                    Some(j) => {
                        row.push(Some(j));
                    },
                    None => {
                        let ghost before = states@;
                        states.push(DfaState::new(u));
                        proof {
                            origin = origin.push((visited as int, k as int));
                            lemma_distinct_bound(
                                states@.map_values(|s: DfaState| s.terminals@),
                                n as nat,
                            );
                        }
                        row.push(Some(states.len() - 1));
                    },
                }
            }
            k += 1;
        }
        let ghost mid = states@;
        states[visited].next = row;
        proof {
            assert forall|j: int| 0 <= j < states@.len() implies (#[trigger] states@[j]).terminals
                == mid[j].terminals by {}
            assert forall|i: int, kk: int|
                0 <= i < visited + 1 && 0 <= kk < alen implies #[trigger] transition_ok(
                rt,
                alphabet@,
                states@,
                i,
                kk,
            ) by {
                if i < visited {
                    assert(states@[i] == start[i]);
                    assert(transition_ok(rt, alphabet@, start, i, kk));
                    match start[i].next@[kk] {
                        Some(j) => {
                            assert(states@[j as int].terminals == start[j as int].terminals);
                        },
                        None => {},
                    }
                } else {
                    assert(states@[i].next@ == row@);
                    match row@[kk] {
                        Some(j) => {
                            assert(states@[j as int].terminals == mid[j as int].terminals);
                        },
                        None => {},
                    }
                }
            }
            assert forall|j: int| 1 <= j < states@.len() implies {
                let (i, k) = #[trigger] origin[j];
                &&& 0 <= i < visited + 1
                &&& i < j
                &&& 0 <= k < alen
                &&& states@[i].next@[k] == Some(j as usize)
            } by {
                let (i, k) = origin[j];
                if j < start.len() {
                    assert(origin[j] == start_origin[j]);
                    assert(states@[i] == start[i]);
                }
            }
            assert forall|j: int, i: int, kk: int|
                #![trigger origin[j], states@[i].next@[kk]]
                1 <= j < states@.len() && 0 <= i < visited + 1 && 0 <= kk < alen && before_pair(
                    (i, kk),
                    origin[j],
                ) implies states@[i].next@[kk] is None || states@[i].next@[kk]->0 < j by {
                if i < visited {
                    assert(states@[i] == start[i]);
                    if j < start.len() {
                        assert(origin[j] == start_origin[j]);
                    } else {
                        if start[i].next@[kk] is Some {
                            assert(start[i].next@[kk]->0 < start.len());
                        }
                    }
                } else {
                    assert(states@[i].next@ == row@);
                }
            }
        }
        visited += 1;
    }
    proof {
        assert forall|i: int, j: int| 0 <= i < j < states@.len() implies state_set(
            #[trigger] states@[i],
        ) != state_set(#[trigger] states@[j]) by {
            if state_set(states@[i]) == state_set(states@[j]) {
                lemma_members_determine(states@[i].terminals@, states@[j].terminals@);
            }
        }
        assert(discovery(alen as int, states@, origin));
    }
    states
}

/// One state of the flat table: the token it accepts, if any, the index of the
/// specification whose automaton it belongs to, and its transitions.
pub struct State {
    pub accepts: Option<String>,
    pub token_index: usize,
    pub next: Vec<(char, usize)>,
}

/// The automata of all token specifications in one flat table.
pub struct LexerSpec {
    pub token_specs: Vec<TokenSpec>,
    pub states: Vec<State>,
    pub initial_states: Vec<usize>,
}

/// The transitions of one state of the flat table: each defined transition of `row`, in
/// the order of the alphabet, moved by `offset`.
pub open spec fn shifted_row(alphabet: Seq<char>, row: Seq<Option<usize>>, offset: int) -> Seq<
    (char, usize),
>
    decreases row.len(),
{
    if row.len() == 0 {
        seq![]
    } else {
        let k = row.len() - 1;
        let rest = shifted_row(alphabet, row.take(k), offset);
        match row[k] {
            Some(j) => rest.push((alphabet[k], (j + offset) as usize)),
            None => rest,
        }
    }
}

/// `s` is state `d` of the automaton of `tree` over `alphabet`, placed at `offset` in the
/// table of the specification `index` named `name`.
pub open spec fn flat_state(
    tree: RegexNode,
    alphabet: Seq<char>,
    d: DfaState,
    offset: int,
    index: int,
    name: Seq<char>,
    s: State,
) -> bool {
    &&& s.token_index == index
    &&& (s.accepts is Some) == state_set(d).contains(sentinel_pos(tree) as nat)
    &&& s.accepts is Some ==> s.accepts->0@ == name
    &&& s.next@ == shifted_row(alphabet, d.next@, offset)
}

/// The states `offset .. offset + len` of `states` are the automaton of a pattern with the
/// tree `tree` and the alphabet `alphabet`, for the specification `index` named `name`.
pub open spec fn block_of(
    tree: RegexNode,
    alphabet: Seq<char>,
    states: Seq<State>,
    offset: int,
    len: int,
    index: int,
    name: Seq<char>,
) -> bool {
    exists|dfa: Seq<DfaState>|
        #![trigger is_dfa_of(tree, alphabet, dfa)]
        is_dfa_of(tree, alphabet, dfa) && dfa.len() == len && forall|j: int|
            0 <= j < len ==> #[trigger] flat_state(
                tree,
                alphabet,
                dfa[j],
                offset,
                index,
                name,
                states[offset + j],
            )
}

/// A tree and alphabet as the pattern parser hands them out.
pub open spec fn is_compiled(tree: RegexNode, alphabet: Seq<char>) -> bool {
    &&& is_augmented(tree)
    &&& alphabet.no_duplicates()
    &&& alphabet.to_set() == chars_of(body(tree))
}

/// The end of the block of specification `i`: the start of the next one, or the end of
/// the table.
pub open spec fn block_end(initial_states: Seq<usize>, len: int, i: int) -> int {
    if i + 1 < initial_states.len() {
        initial_states[i + 1] as int
    } else {
        len
    }
}

/// The table holds, in order, one block of states per specification, each the automaton of
/// a compiled pattern, and `initial_states` holds where each block starts.
pub open spec fn is_table_of(
    specs: Seq<TokenSpec>,
    states: Seq<State>,
    initial_states: Seq<usize>,
) -> bool {
    &&& initial_states.len() == specs.len()
    &&& specs.len() > 0 ==> initial_states[0] == 0
    &&& specs.len() == 0 ==> states.len() == 0
    &&& forall|i: int|
        0 <= i < specs.len() ==> #[trigger] initial_states[i] < block_end(
            initial_states,
            states.len() as int,
            i,
        ) <= states.len()
    &&& forall|i: int| 0 <= i < specs.len() ==> #[trigger] compiled_block(specs, states, initial_states, i)
}

/// The pattern of specification `i` parses, and its block is the automaton of the tree
/// over its alphabet.
pub open spec fn compiled_block(
    specs: Seq<TokenSpec>,
    states: Seq<State>,
    initial_states: Seq<usize>,
    i: int,
) -> bool {
    let tree = parse_pattern(specs[i].spec_pattern())->Ok_0;
    &&& parse_pattern(specs[i].spec_pattern()) is Ok
    &&& is_compiled(tree, alphabet_of(tree))
    &&& block_of(
        tree,
        alphabet_of(tree),
        states,
        initial_states[i] as int,
        block_end(initial_states, states.len() as int, i) - initial_states[i],
        i,
        specs[i].spec_name(),
    )
}

/// Some pattern is the first one refused, with the message `m`.
pub open spec fn refused(specs: Seq<TokenSpec>, m: Seq<char>) -> bool {
    exists|i: int| #[trigger] first_refused(specs, i, m)
}

/// The pattern of specification `i` is the first one refused, with the message `m`.
pub open spec fn first_refused(specs: Seq<TokenSpec>, i: int, m: Seq<char>) -> bool {
    &&& 0 <= i < specs.len()
    &&& parse_pattern(specs[i].spec_pattern()) == Err::<RegexNode, Seq<char>>(m)
    &&& forall|k: int| 0 <= k < i ==> (#[trigger] parse_pattern(specs[k].spec_pattern())) is Ok
}

/// The two lists hold the same names and patterns.
pub open spec fn same_specs(a: Seq<TokenSpec>, b: Seq<TokenSpec>) -> bool {
    &&& a.len() == b.len()
    &&& forall|i: int|
        0 <= i < a.len() ==> (#[trigger] a[i]).spec_name() == b[i].spec_name()
            && a[i].spec_pattern() == b[i].spec_pattern()
}

/// The patterns are short enough that their positions can be numbered.
pub open spec fn patterns_fit(specs: Seq<TokenSpec>) -> bool {
    forall|i: int| 0 <= i < specs.len() ==> 13 * (#[trigger] specs[i]).spec_pattern().len() + 1 <= usize::MAX
}

proof fn lemma_block_stable(
    tree: RegexNode,
    alphabet: Seq<char>,
    s1: Seq<State>,
    s2: Seq<State>,
    offset: int,
    len: int,
    index: int,
    name: Seq<char>,
)
    requires
        block_of(tree, alphabet, s1, offset, len, index, name),
        0 <= offset,
        offset + len <= s1.len() <= s2.len(),
        forall|x: int| 0 <= x < s1.len() ==> #[trigger] s2[x] == s1[x],
    ensures
        block_of(tree, alphabet, s2, offset, len, index, name),
{
    let dfa = choose|dfa: Seq<DfaState>|
        #![trigger is_dfa_of(tree, alphabet, dfa)]
        is_dfa_of(tree, alphabet, dfa) && dfa.len() == len && forall|j: int|
            0 <= j < len ==> #[trigger] flat_state(
                tree,
                alphabet,
                dfa[j],
                offset,
                index,
                name,
                s1[offset + j],
            );
    assert forall|j: int| 0 <= j < len implies #[trigger] flat_state(
        tree,
        alphabet,
        dfa[j],
        offset,
        index,
        name,
        s2[offset + j],
    ) by {
        assert(s2[offset + j] == s1[offset + j]);
    }
}

#[verifier::rlimit(40)]
proof fn lemma_extend_table(
    specs: Seq<TokenSpec>,
    i: int,
    before: Seq<State>,
    states: Seq<State>,
    before_init: Seq<usize>,
    init: Seq<usize>,
    tree: RegexNode,
    alphabet: Seq<char>,
    dfa: Seq<DfaState>,
)
    requires
        0 <= i < specs.len(),
        states.len() <= usize::MAX,
        is_table_of(specs.take(i), before, before_init),
        init == before_init.push(before.len() as usize),
        states.len() == before.len() + dfa.len(),
        forall|x: int| 0 <= x < before.len() ==> #[trigger] states[x] == before[x],
        parse_pattern(specs[i].spec_pattern()) == Ok::<RegexNode, Seq<char>>(tree),
        alphabet == alphabet_of(tree),
        is_compiled(tree, alphabet),
        is_dfa_of(tree, alphabet, dfa),
        forall|x: int|
            0 <= x < dfa.len() ==> #[trigger] flat_state(
                tree,
                alphabet,
                dfa[x],
                before.len() as int,
                i,
                specs[i].spec_name(),
                states[before.len() + x],
            ),
    ensures
        is_table_of(specs.take(i + 1), states, init),
{
    let before_specs = specs.take(i);
    let new_specs = specs.take(i + 1);
    let n_old = before_init.len() as int;
    assert(init[n_old] == before.len());
    assert forall|x: int| 0 <= x < n_old implies block_end(init, states.len() as int, x) == block_end(
        before_init,
        before.len() as int,
        x,
    ) by {}
    assert(new_specs.len() == before_specs.len() + 1);
    assert forall|x: int| 0 <= x < new_specs.len() implies #[trigger] compiled_block(
        new_specs,
        states,
        init,
        x,
    ) by {
        if x < n_old {
            assert(compiled_block(before_specs, before, before_init, x));
            assert(new_specs[x] == before_specs[x]);
            let t = parse_pattern(before_specs[x].spec_pattern())->Ok_0;
            let a = alphabet_of(t);
            assert(init[x] == before_init[x]);
            lemma_block_stable(
                t,
                a,
                before,
                states,
                before_init[x] as int,
                block_end(before_init, before.len() as int, x) - before_init[x],
                x,
                before_specs[x].spec_name(),
            );
            assert(block_of(
                t,
                a,
                states,
                init[x] as int,
                block_end(init, states.len() as int, x) - init[x],
                x,
                new_specs[x].spec_name(),
            ));
        } else {
            assert(x == n_old);
            assert(block_end(init, states.len() as int, x) == states.len());
            assert(new_specs[x] == specs[i]);
            assert(block_of(
                tree,
                alphabet,
                states,
                before.len() as int,
                dfa.len() as int,
                i,
                specs[i].spec_name(),
            ));
            assert(block_of(
                tree,
                alphabet,
                states,
                init[x] as int,
                block_end(init, states.len() as int, x) - init[x],
                x,
                new_specs[x].spec_name(),
            ));
        }
    }
}

fn shift_row(alphabet: &Vec<char>, row: &Vec<Option<usize>>, offset: usize) -> (r: Vec<(char, usize)>)
    requires
        row@.len() <= alphabet@.len(),
        forall|k: int| 0 <= k < row@.len() && #[trigger] row@[k] is Some ==> row@[k]->0 + offset <= usize::MAX,
    ensures
        r@ == shifted_row(alphabet@, row@, offset as int),
{
    let mut r: Vec<(char, usize)> = Vec::new();
    let mut k: usize = 0;
    while k < row.len()
        invariant
            k <= row@.len() <= alphabet@.len(),
            forall|k: int| 0 <= k < row@.len() && #[trigger] row@[k] is Some ==> row@[k]->0 + offset <= usize::MAX,
            r@ == shifted_row(alphabet@, row@.take(k as int), offset as int),
        decreases row@.len() - k,
    {
        assert(row@.take(k + 1).take(k as int) == row@.take(k as int));
        match row[k] {
            Some(j) => r.push((alphabet[k], j + offset)),
            None => {},
        }
        k += 1;
    }
    assert(row@.take(row@.len() as int) == row@);
    r
}

impl LexerSpec {
    /// Compiles the specifications, in order, into one flat table.
    pub fn new(token_specs: &Vec<TokenSpec>) -> (r: Result<Self, String>)
        requires
            patterns_fit(token_specs@),
        ensures
            r is Ok ==> same_specs(r->Ok_0.token_specs@, token_specs@) && is_table_of(
                token_specs@,
                r->Ok_0.states@,
                r->Ok_0.initial_states@,
            ),
            r is Ok <==> forall|i: int|
                0 <= i < token_specs@.len() ==> (#[trigger] parse_pattern(
                    token_specs@[i].spec_pattern(),
                )) is Ok,
            r is Err ==> refused(token_specs@, r->Err_0@),
    {
        Self::fill_states(token_specs)
    }

    #[verifier::rlimit(60)]
    fn fill_states(token_specs: &Vec<TokenSpec>) -> (r: Result<Self, String>)
        requires
            patterns_fit(token_specs@),
        ensures
            r is Ok ==> same_specs(r->Ok_0.token_specs@, token_specs@) && is_table_of(
                token_specs@,
                r->Ok_0.states@,
                r->Ok_0.initial_states@,
            ),
            r is Ok <==> forall|i: int|
                0 <= i < token_specs@.len() ==> (#[trigger] parse_pattern(
                    token_specs@[i].spec_pattern(),
                )) is Ok,
            r is Err ==> refused(token_specs@, r->Err_0@),
    {
        let mut specs: Vec<TokenSpec> = Vec::new();
        let mut states: Vec<State> = Vec::new();
        let mut initial_states: Vec<usize> = Vec::new();
        let mut i: usize = 0;
        while i < token_specs.len()
            invariant
                patterns_fit(token_specs@),
                i <= token_specs@.len(),
                same_specs(specs@, token_specs@.take(i as int)),
                forall|k: int| 0 <= k < i ==> (#[trigger] parse_pattern(token_specs@[k].spec_pattern())) is Ok,
                is_table_of(token_specs@.take(i as int), states@, initial_states@),
            decreases token_specs@.len() - i,
        {
            let token_spec = &token_specs[i];
            let parsed = parse_regex(token_spec.pattern());
            let (tree, alphabet) = match parsed {
                Ok(p) => p,
                Err(e) => {
                    proof {
                        assert(token_spec.spec_pattern() == token_specs@[i as int].spec_pattern());
                        assert(parse_pattern(token_specs@[i as int].spec_pattern()) == Err::<RegexNode, Seq<char>>(e@));
                        assert(first_refused(token_specs@, i as int, e@));
                        assert(refused(token_specs@, e@));
                    }
                    return Err(e);
                },
            };
            let dfa = create_dfa(&tree, &alphabet);
            let dfa_root_idx = states.len();
            let ghost before = states@;
            let ghost before_init = initial_states@;
            let ghost before_specs = token_specs@.take(i as int);
            initial_states.push(dfa_root_idx);
            let mut j: usize = 0;
            while j < dfa.len()
                invariant
                    is_dfa_of(tree, alphabet@, dfa@),
                    dfa_root_idx == before.len(),
                    j <= dfa@.len(),
                    states@.len() == dfa_root_idx + j,
                    forall|x: int| 0 <= x < before.len() ==> #[trigger] states@[x] == before[x],
                    forall|x: int|
                        0 <= x < j ==> {
                            let st = #[trigger] states@[dfa_root_idx + x];
                            &&& st.token_index == i
                            &&& (st.accepts is Some) == state_set(dfa@[x]).contains(
                                sentinel_pos(tree) as nat,
                            )
                            &&& st.accepts is Some ==> st.accepts->0@ == token_spec.spec_name()
                        },
                decreases dfa@.len() - j,
            {
                let accepts = if dfa[j].is_accepting() {
                    Some(token_spec.name().to_string())
                } else {
                    None
                };
                states.push(State { accepts, token_index: i, next: Vec::new() });
                j += 1;
            }
            let total = states.len();
            let mut j: usize = 0;
            while j < dfa.len()
                invariant
                    is_dfa_of(tree, alphabet@, dfa@),
                    is_compiled(tree, alphabet@),
                    dfa_root_idx == before.len(),
                    total == states@.len() == dfa_root_idx + dfa@.len(),
                    j <= dfa@.len(),
                    forall|x: int| 0 <= x < before.len() ==> #[trigger] states@[x] == before[x],
                    forall|x: int|
                        0 <= x < dfa@.len() ==> {
                            let st = #[trigger] states@[dfa_root_idx + x];
                            &&& st.token_index == i
                            &&& (st.accepts is Some) == state_set(dfa@[x]).contains(
                                sentinel_pos(tree) as nat,
                            )
                            &&& st.accepts is Some ==> st.accepts->0@ == token_spec.spec_name()
                        },
                    forall|x: int|
                        0 <= x < j ==> #[trigger] flat_state(
                            tree,
                            alphabet@,
                            dfa@[x],
                            dfa_root_idx as int,
                            i as int,
                            token_spec.spec_name(),
                            states@[dfa_root_idx + x],
                        ),
                decreases dfa@.len() - j,
            {
                let dfa_state = &dfa[j];
                proof {
                    assert forall|k: int|
                        0 <= k < dfa_state.next@.len() && #[trigger] dfa_state.next@[k] is Some implies
                        dfa_state.next@[k]->0 + dfa_root_idx <= usize::MAX by {
                        assert(transition_ok(tree, alphabet@, dfa@, j as int, k));
                    }
                }
                let next = shift_row(&alphabet, &dfa_state.next, dfa_root_idx);
                let ghost mid = states@;
                states[dfa_root_idx + j].next = next;
                proof {
                    assert forall|x: int| 0 <= x < states@.len() && x != dfa_root_idx + j implies #[trigger] states@[x] == mid[x] by {}
                }
                j += 1;
            }
            let name = token_spec.name().to_string();
            let pattern = token_spec.pattern().to_string();
            specs.push(TokenSpec::new(name, pattern));
            let total_len = states.len();
            proof {
                lemma_extend_table(
                    token_specs@,
                    i as int,
                    before,
                    states@,
                    before_init,
                    initial_states@,
                    tree,
                    alphabet@,
                    dfa@,
                );
                assert(same_specs(specs@, token_specs@.take(i + 1)));
            }
            i += 1;
        }
        proof {
            assert(token_specs@.take(i as int) == token_specs@);
        }
        Ok(LexerSpec { token_specs: specs, states, initial_states })
    }
}

} // verus!
