//! Scans source text into tokens with the flat table, by longest match.
use vstd::prelude::*;

use crate::lexer_spec::{
    DfaState, LexerSpec, State, block_end, block_of, compiled_block, flat_state, is_dfa_of,
    is_table_of, shifted_row, transition_ok,
};
use crate::TokenSpec;
use crate::regex_parser::{alphabet_of, parse_pattern};
use crate::regex_parser::digit_chars;
use vstd::string::StringExecFns;

verus! {

/// A half-open range of byte offsets in the source.
#[derive(Clone, Copy, PartialEq, Eq, Debug, Structural)]
pub struct Span {
    pub start_pos: usize,
    pub end_pos: usize,
}

impl Span {
    pub fn new(start_pos: usize, end_pos: usize) -> (r: Self)
        ensures
            r == (Span { start_pos, end_pos }),
    {
        Span { start_pos, end_pos }
    }

    pub fn start_pos(&self) -> (r: usize)
        ensures
            r == self.start_pos,
    {
        self.start_pos
    }

    pub fn end_pos(&self) -> (r: usize)
        ensures
            r == self.end_pos,
    {
        self.end_pos
    }
}

/// The class of a token: the index of the specification that matched it, which is also
/// its priority (lower wins), or the end of the input.
#[derive(Clone, Copy, PartialEq, Eq, Debug, Structural)]
pub enum TerminalClass {
    Token(usize),
    End,
}

/// A token: its class and where it stands in the source.
#[derive(Clone, Copy, PartialEq, Eq, Debug, Structural)]
pub struct Terminal {
    pub class: TerminalClass,
    pub span: Span,
}

impl Terminal {
    pub fn new(class: TerminalClass, span: Span) -> (r: Self)
        ensures
            r == (Terminal { class, span }),
    {
        Terminal { class, span }
    }

    pub fn class(&self) -> (r: TerminalClass)
        ensures
            r == self.class,
    {
        self.class
    }

    pub fn span(&self) -> (r: Span)
        ensures
            r == self.span,
    {
        self.span
    }
}

/// The byte that the scanner reads for a character of the source.
pub open spec fn byte_of(c: char) -> u8 {
    ((c as u32) % 256) as u8
}

/// The bytes that the scanner reads for a source text.
pub open spec fn bytes_of(text: Seq<char>) -> Seq<u8> {
    text.map_values(|c: char| byte_of(c))
}

/// Whether the byte, read as a character, is white space.
pub open spec fn is_space(b: u8) -> bool {
    b == 32 || (9 <= b && b <= 13) || b == 0x85 || b == 0xA0
}

/// The target of the first transition of `row` on `c`.
pub open spec fn lookup(row: Seq<(char, usize)>, c: char) -> Option<usize>
    decreases row.len(),
{
    if row.len() == 0 {
        None
    } else if row[0].0 == c {
        Some(row[0].1)
    } else {
        lookup(row.drop_first(), c)
    }
}

/// The states that `c` leads to from the states of `f`.
pub open spec fn step(table: Seq<Seq<(char, usize)>>, f: Set<usize>, c: char) -> Set<usize> {
    Set::new(
        |t: usize|
            exists|q: usize|
                #![trigger f.contains(q), table[q as int]]
                f.contains(q) && q < table.len() && lookup(table[q as int], c) == Some(t),
    )
}

/// The states reached from `init` after reading the `d` bytes of `input` from `s`.
pub open spec fn frontier(
    table: Seq<Seq<(char, usize)>>,
    init: Set<usize>,
    input: Seq<u8>,
    s: int,
    d: nat,
) -> Set<usize>
    decreases d,
{
    if d == 0 {
        init
    } else {
        step(table, frontier(table, init, input, s, (d - 1) as nat), input[s + d - 1] as char)
    }
}

/// How many bytes from `pos` on can be read from the states `f` before no state has a
/// transition or the input ends.
pub open spec fn run(table: Seq<Seq<(char, usize)>>, f: Set<usize>, input: Seq<u8>, pos: int) -> nat
    decreases input.len() - pos,
{
    if 0 <= pos < input.len() && step(table, f, input[pos] as char) != Set::<usize>::empty() {
        1 + run(table, step(table, f, input[pos] as char), input, pos + 1)
    } else {
        0
    }
}

/// Some state of `f` accepts a token.
pub open spec fn accepting(classes: Seq<Option<usize>>, f: Set<usize>) -> bool {
    exists|q: usize| #[trigger] f.contains(q) && q < classes.len() && classes[q as int] is Some
}

/// `c` is the smallest class that a state of `f` accepts.
pub open spec fn is_min_class(classes: Seq<Option<usize>>, f: Set<usize>, c: usize) -> bool {
    &&& exists|q: usize|
        #[trigger] f.contains(q) && q < classes.len() && classes[q as int] == Some(c)
    &&& forall|q: usize|
        #[trigger] f.contains(q) && q < classes.len() && classes[q as int] is Some ==> c
            <= classes[q as int]->0
}

pub open spec fn min_class(classes: Seq<Option<usize>>, f: Set<usize>) -> usize {
    choose|c: usize| is_min_class(classes, f, c)
}

/// The largest depth up to `d` whose frontier accepts a token, if any.
pub open spec fn best(
    classes: Seq<Option<usize>>,
    table: Seq<Seq<(char, usize)>>,
    init: Set<usize>,
    input: Seq<u8>,
    s: int,
    d: nat,
) -> Option<nat>
    decreases d,
{
    if accepting(classes, frontier(table, init, input, s, d)) {
        Some(d)
    } else if d == 0 {
        None
    } else {
        best(classes, table, init, input, s, (d - 1) as nat)
    }
}

/// The first position from `pos` on that does not hold white space.
pub open spec fn skip_ws(input: Seq<u8>, pos: int) -> int
    decreases input.len() - pos,
{
    if 0 <= pos < input.len() && is_space(input[pos]) {
        skip_ws(input, pos + 1)
    } else {
        pos
    }
}

/// The token that scanning from `pos` yields: after white space, the end of the input, or
/// the longest match, of the earliest specification among those that match it; `None`
/// where nothing matches.
pub open spec fn scan(
    classes: Seq<Option<usize>>,
    table: Seq<Seq<(char, usize)>>,
    init: Set<usize>,
    input: Seq<u8>,
    pos: int,
) -> Option<Terminal> {
    let s = skip_ws(input, pos);
    if s >= input.len() {
        Some(Terminal { class: TerminalClass::End, span: Span { start_pos: s as usize, end_pos: s as usize } })
    } else {
        match best(classes, table, init, input, s, run(table, init, input, s)) {
            Some(d) => Some(
                Terminal {
                    class: TerminalClass::Token(
                        min_class(classes, frontier(table, init, input, s, d)),
                    ),
                    span: Span { start_pos: s as usize, end_pos: (s + d) as usize },
                },
            ),
            None => None,
        }
    }
}

/// The offsets at which the lines of `input` start.
pub open spec fn line_starts(input: Seq<u8>) -> Seq<usize>
    decreases input.len(),
{
    if input.len() == 0 {
        seq![0usize]
    } else {
        let k = input.len() - 1;
        let rest = line_starts(input.take(k));
        if input[k] == 10 {
            rest.push((k + 1) as usize)
        } else {
            rest
        }
    }
}

/// The transitions of the flat table, state by state.
pub open spec fn table_of(states: Seq<State>) -> Seq<Seq<(char, usize)>> {
    states.map_values(|s: State| s.next@)
}

/// The class that each state of the flat table accepts, if any.
pub open spec fn classes_of(states: Seq<State>) -> Seq<Option<usize>> {
    states.map_values(
        |s: State|
            if s.accepts is Some {
                Some(s.token_index)
            } else {
                None
            },
    )
}

/// Every transition and every initial state of the table names a state of the table.
pub open spec fn table_closed(table: Seq<Seq<(char, usize)>>, initial_states: Seq<usize>) -> bool {
    &&& forall|q: int, i: int|
        0 <= q < table.len() && 0 <= i < table[q].len() ==> (#[trigger] table[q][i]).1
            < table.len()
    &&& forall|i: int| 0 <= i < initial_states.len() ==> #[trigger] initial_states[i] < table.len()
}

proof fn lemma_shifted_row_targets(alphabet: Seq<char>, row: Seq<Option<usize>>, offset: int, bound: int)
    requires
        0 <= offset,
        offset + bound <= usize::MAX,
        forall|k: int| 0 <= k < row.len() && (#[trigger] row[k]) is Some ==> row[k]->0 < bound,
    ensures
        forall|i: int|
            0 <= i < shifted_row(alphabet, row, offset).len() ==> (#[trigger] shifted_row(
                alphabet,
                row,
                offset,
            )[i]).1 < offset + bound,
    decreases row.len(),
{
    if row.len() > 0 {
        let k = row.len() - 1;
        assert forall|kk: int| 0 <= kk < row.take(k).len() && (#[trigger] row.take(k)[kk]) is Some implies row.take(k)[kk]->0 < bound by {
            assert(row.take(k)[kk] == row[kk]);
        }
        lemma_shifted_row_targets(alphabet, row.take(k), offset, bound);
        let rest = shifted_row(alphabet, row.take(k), offset);
        let all = shifted_row(alphabet, row, offset);
        assert forall|i: int| 0 <= i < all.len() implies (#[trigger] all[i]).1 < offset + bound by {
            match row[k] {
                Some(j) => {
                    assert(all == rest.push((alphabet[k], (j + offset) as usize)));
                    if i < rest.len() {
                        assert(all[i] == rest[i]);
                    }
                },
                None => {
                    assert(all == rest);
                },
            }
        }
    }
}

proof fn lemma_find_block(specs: Seq<TokenSpec>, states: Seq<State>, init: Seq<usize>, q: int, k: int)
    requires
        is_table_of(specs, states, init),
        0 <= k < init.len(),
        init[k] <= q < states.len(),
    ensures
        exists|b: int| 0 <= b < init.len() && init[b] <= q < #[trigger] block_end(init, states.len() as int, b),
    decreases init.len() - k,
{
    if q >= block_end(init, states.len() as int, k) {
        assert(k + 1 < init.len());
        assert(init[k] < block_end(init, states.len() as int, k));
        lemma_find_block(specs, states, init, q, k + 1);
    }
}

#[verifier::rlimit(50)]
proof fn lemma_state_targets(specs: Seq<TokenSpec>, states: Seq<State>, init: Seq<usize>, q: int)
    requires
        is_table_of(specs, states, init),
        states.len() <= usize::MAX,
        0 <= q < states.len(),
    ensures
        forall|i: int| 0 <= i < states[q].next@.len() ==> (#[trigger] states[q].next@[i]).1 < states.len(),
{
    lemma_find_block(specs, states, init, q, 0);
    let b = choose|b: int| 0 <= b < init.len() && init[b] <= q < #[trigger] block_end(init, states.len() as int, b);
    assert(compiled_block(specs, states, init, b));
    let off = init[b] as int;
    let len = block_end(init, states.len() as int, b) - off;
    let tree = parse_pattern(specs[b].spec_pattern())->Ok_0;
    let alphabet = alphabet_of(tree);
    assert(block_of(tree, alphabet, states, off, len, b, specs[b].spec_name()));
    let dfa = choose|dfa: Seq<DfaState>|
        #![trigger is_dfa_of(tree, alphabet, dfa)]
        is_dfa_of(tree, alphabet, dfa) && dfa.len() == len && forall|j: int|
            0 <= j < len ==> #[trigger] flat_state(
                tree,
                alphabet,
                dfa[j],
                off,
                b,
                specs[b].spec_name(),
                states[off + j],
            );
    let j = q - off;
    assert(flat_state(tree, alphabet, dfa[j], off, b, specs[b].spec_name(), states[off + j]));
    let row = dfa[j].next@;
    assert forall|k: int| 0 <= k < row.len() && (#[trigger] row[k]) is Some implies row[k]->0 < len by {
        assert(transition_ok(tree, alphabet, dfa, j, k));
    }
    lemma_shifted_row_targets(alphabet, row, off, len);
}

proof fn lemma_shifted_row_keys(alphabet: Seq<char>, row: Seq<Option<usize>>, offset: int)
    requires
        alphabet.no_duplicates(),
        row.len() <= alphabet.len(),
    ensures
        forall|i: int|
            0 <= i < shifted_row(alphabet, row, offset).len() ==> alphabet.take(row.len() as int).contains(
                (#[trigger] shifted_row(alphabet, row, offset)[i]).0,
            ),
        forall|i: int, j: int|
            0 <= i < j < shifted_row(alphabet, row, offset).len() ==> (#[trigger] shifted_row(
                alphabet,
                row,
                offset,
            )[i]).0 != (#[trigger] shifted_row(alphabet, row, offset)[j]).0,
    decreases row.len(),
{
    if row.len() > 0 {
        let k = row.len() - 1;
        lemma_shifted_row_keys(alphabet, row.take(k), offset);
        let rest = shifted_row(alphabet, row.take(k), offset);
        let all = shifted_row(alphabet, row, offset);
        assert(row.take(k).len() == k);
        assert forall|i: int| 0 <= i < rest.len() implies alphabet.take(k + 1).contains(
            rest[i].0,
        ) && rest[i].0 != alphabet[k] by {
            assert(alphabet.take(k).contains(rest[i].0));
            let m = choose|m: int| 0 <= m < k && alphabet.take(k)[m] == rest[i].0;
            assert(alphabet.take(k + 1)[m] == rest[i].0);
            assert(alphabet[m] == rest[i].0);
        }
        assert(alphabet.take(k + 1)[k] == alphabet[k]);
        match row[k] {
            Some(t) => {
                assert(all == rest.push((alphabet[k], (t + offset) as usize)));
            },
            None => {
                assert(all == rest);
            },
        }
    }
}

/// In the table that compiling token specifications yields, no state has two transitions
/// on one character.
pub proof fn lemma_row_keys_distinct(specs: Seq<TokenSpec>, states: Seq<State>, init: Seq<usize>)
    requires
        is_table_of(specs, states, init),
    ensures
        forall|q: int, i: int, j: int|
            0 <= q < states.len() && 0 <= i < j < states[q].next@.len() ==> (
            #[trigger] states[q].next@[i]).0 != (#[trigger] states[q].next@[j]).0,
{
    assert forall|q: int, i: int, j: int|
        0 <= q < states.len() && 0 <= i < j < states[q].next@.len() implies (
        #[trigger] states[q].next@[i]).0 != (#[trigger] states[q].next@[j]).0 by {
        lemma_state_keys(specs, states, init, q);
    }
}

#[verifier::rlimit(50)]
proof fn lemma_state_keys(specs: Seq<TokenSpec>, states: Seq<State>, init: Seq<usize>, q: int)
    requires
        is_table_of(specs, states, init),
        0 <= q < states.len(),
    ensures
        forall|i: int, j: int|
            0 <= i < j < states[q].next@.len() ==> (#[trigger] states[q].next@[i]).0 != (
            #[trigger] states[q].next@[j]).0,
{
    lemma_find_block(specs, states, init, q, 0);
    let b = choose|b: int| 0 <= b < init.len() && init[b] <= q < #[trigger] block_end(init, states.len() as int, b);
    assert(compiled_block(specs, states, init, b));
    let off = init[b] as int;
    let len = block_end(init, states.len() as int, b) - off;
    let tree = parse_pattern(specs[b].spec_pattern())->Ok_0;
    let alphabet = alphabet_of(tree);
    assert(block_of(tree, alphabet, states, off, len, b, specs[b].spec_name()));
    let dfa = choose|dfa: Seq<DfaState>|
        #![trigger is_dfa_of(tree, alphabet, dfa)]
        is_dfa_of(tree, alphabet, dfa) && dfa.len() == len && forall|j: int|
            0 <= j < len ==> #[trigger] flat_state(
                tree,
                alphabet,
                dfa[j],
                off,
                b,
                specs[b].spec_name(),
                states[off + j],
            );
    let j = q - off;
    assert(flat_state(tree, alphabet, dfa[j], off, b, specs[b].spec_name(), states[off + j]));
    lemma_shifted_row_keys(alphabet, dfa[j].next@, off);
}

/// The two states of flat tables accept the same token, for the same specification, with
/// the same transitions.
pub open spec fn same_state(x: State, y: State) -> bool {
    &&& x.token_index == y.token_index
    &&& (x.accepts is Some) == (y.accepts is Some)
    &&& x.accepts is Some ==> x.accepts->0@ == y.accepts->0@
    &&& x.next@ == y.next@
}

proof fn lemma_blocks_agree(
    specs: Seq<TokenSpec>,
    s1: Seq<State>,
    i1: Seq<usize>,
    s2: Seq<State>,
    i2: Seq<usize>,
    b: int,
)
    requires
        is_table_of(specs, s1, i1),
        is_table_of(specs, s2, i2),
        0 <= b < specs.len(),
        i1[b] == i2[b],
    ensures
        block_end(i1, s1.len() as int, b) == block_end(i2, s2.len() as int, b),
        forall|q: int|
            i1[b] <= q < block_end(i1, s1.len() as int, b) ==> same_state(#[trigger] s1[q], s2[q]),
{
    let tree = parse_pattern(specs[b].spec_pattern())->Ok_0;
    let a = alphabet_of(tree);
    let name = specs[b].spec_name();
    assert(compiled_block(specs, s1, i1, b));
    assert(compiled_block(specs, s2, i2, b));
    let off = i1[b] as int;
    let len1 = block_end(i1, s1.len() as int, b) - off;
    let len2 = block_end(i2, s2.len() as int, b) - off;
    assert(block_of(tree, a, s1, off, len1, b, name));
    assert(block_of(tree, a, s2, off, len2, b, name));
    let d1 = choose|dfa: Seq<DfaState>|
        #![trigger is_dfa_of(tree, a, dfa)]
        is_dfa_of(tree, a, dfa) && dfa.len() == len1 && forall|j: int|
            0 <= j < len1 ==> #[trigger] flat_state(tree, a, dfa[j], off, b, name, s1[off + j]);
    let d2 = choose|dfa: Seq<DfaState>|
        #![trigger is_dfa_of(tree, a, dfa)]
        is_dfa_of(tree, a, dfa) && dfa.len() == len2 && forall|j: int|
            0 <= j < len2 ==> #[trigger] flat_state(tree, a, dfa[j], off, b, name, s2[off + j]);
    crate::lexer_spec::lemma_dfa_unique(tree, a, d1, d2);
    assert forall|q: int| i1[b] <= q < block_end(i1, s1.len() as int, b) implies same_state(
        #[trigger] s1[q],
        s2[q],
    ) by {
        let j = q - off;
        assert(flat_state(tree, a, d1[j], off, b, name, s1[off + j]));
        assert(flat_state(tree, a, d2[j], off, b, name, s2[off + j]));
        assert(d1[j].terminals@ == d2[j].terminals@);
    }
}

#[verifier::rlimit(50)]
proof fn lemma_offsets_agree(
    specs: Seq<TokenSpec>,
    s1: Seq<State>,
    i1: Seq<usize>,
    s2: Seq<State>,
    i2: Seq<usize>,
    b: int,
)
    requires
        is_table_of(specs, s1, i1),
        is_table_of(specs, s2, i2),
        0 <= b < specs.len(),
    ensures
        forall|c: int| 0 <= c <= b ==> #[trigger] i1[c] == i2[c],
    decreases b,
{
    if b > 0 {
        lemma_offsets_agree(specs, s1, i1, s2, i2, b - 1);
        lemma_blocks_agree(specs, s1, i1, s2, i2, b - 1);
        assert(i1[b] == block_end(i1, s1.len() as int, b - 1));
        assert(i2[b] == block_end(i2, s2.len() as int, b - 1));
    }
}

/// Compiling the same specifications twice gives the same table: the same initial states
/// and, state by state, the same accepted token, specification and transitions.
pub proof fn lemma_table_unique(
    specs: Seq<TokenSpec>,
    s1: Seq<State>,
    i1: Seq<usize>,
    s2: Seq<State>,
    i2: Seq<usize>,
)
    requires
        is_table_of(specs, s1, i1),
        is_table_of(specs, s2, i2),
    ensures
        i1 == i2,
        s1.len() == s2.len(),
        forall|q: int| 0 <= q < s1.len() ==> same_state(#[trigger] s1[q], s2[q]),
{
    if specs.len() > 0 {
        let last = specs.len() - 1;
        lemma_offsets_agree(specs, s1, i1, s2, i2, last);
        assert(i1 =~= i2);
        lemma_blocks_agree(specs, s1, i1, s2, i2, last);
        assert forall|q: int| 0 <= q < s1.len() implies same_state(#[trigger] s1[q], s2[q]) by {
            lemma_find_block(specs, s1, i1, q, 0);
            let b = choose|b: int|
                0 <= b < i1.len() && i1[b] <= q < #[trigger] block_end(i1, s1.len() as int, b);
            lemma_blocks_agree(specs, s1, i1, s2, i2, b);
        }
    } else {
        assert(i1 =~= i2);
    }
}

/// The table that compiling token specifications yields names only its own states, in its
/// transitions and in its initial states, so a scanner can run on it.
pub proof fn lemma_compiled_table_closed(specs: Seq<TokenSpec>, states: Seq<State>, init: Seq<usize>)
    requires
        is_table_of(specs, states, init),
        states.len() <= usize::MAX,
    ensures
        table_closed(table_of(states), init),
{
    let table = table_of(states);
    assert forall|i: int| 0 <= i < init.len() implies #[trigger] init[i] < table.len() by {
        assert(init[i] < block_end(init, states.len() as int, i));
    }
    assert forall|q: int, i: int| 0 <= q < table.len() && 0 <= i < table[q].len() implies (#[trigger] table[q][i]).1 < table.len() by {
        lemma_state_targets(specs, states, init, q);
        assert(table[q] == states[q].next@);
    }
}

impl LexerSpec {
    /// Whether every transition and every initial state of the table names a state of it.
    pub fn is_closed(&self) -> (r: bool)
        ensures
            r == table_closed(table_of(self.states@), self.initial_states@),
    {
        let n = self.states.len();
        let ghost table = table_of(self.states@);
        let mut q: usize = 0;
        while q < n
            invariant
                n == self.states@.len() == table.len(),
                table == table_of(self.states@),
                q <= n,
                forall|p: int, i: int|
                    0 <= p < q && 0 <= i < table[p].len() ==> (#[trigger] table[p][i]).1 < n,
            decreases n - q,
        {
            let row = &self.states[q].next;
            assert(table[q as int] == row@);
            let mut i: usize = 0;
            while i < row.len()
                invariant
                    n == self.states@.len() == table.len(),
                    table == table_of(self.states@),
                    q < n,
                    table[q as int] == row@,
                    i <= row@.len(),
                    forall|p: int, k: int|
                        0 <= p < q && 0 <= k < table[p].len() ==> (#[trigger] table[p][k]).1 < n,
                    forall|k: int| 0 <= k < i ==> (#[trigger] row@[k]).1 < n,
                decreases row@.len() - i,
            {
                if row[i].1 >= n {
                    assert(table[q as int][i as int].1 >= n);
                    return false;
                }
                i += 1;
            }
            q += 1;
        }
        let mut i: usize = 0;
        while i < self.initial_states.len()
            invariant
                n == self.states@.len() == table.len(),
                table == table_of(self.states@),
                i <= self.initial_states@.len(),
                forall|p: int, k: int|
                    0 <= p < n && 0 <= k < table[p].len() ==> (#[trigger] table[p][k]).1 < n,
                forall|k: int| 0 <= k < i ==> #[trigger] self.initial_states@[k] < n,
            decreases self.initial_states@.len() - i,
        {
            if self.initial_states[i] >= n {
                return false;
            }
            i += 1;
        }
        true
    }
}

/// The scanner over one source text.
pub struct Lexer {
    source: String,
    chars: Vec<u8>,
    line_start_indices: Vec<usize>,
    start_pos: usize,
    current_pos: usize,
    current_token: Option<Terminal>,
    states: Vec<Option<usize>>,
    transition_table: Vec<Vec<(char, usize)>>,
    initial_states: Vec<usize>,
    states_stack: Vec<Vec<usize>>,
}

pub open spec fn rows_view(t: Seq<Vec<(char, usize)>>) -> Seq<Seq<(char, usize)>> {
    t.map_values(|r: Vec<(char, usize)>| r@)
}

fn copy_row(row: &Vec<(char, usize)>) -> (r: Vec<(char, usize)>)
    ensures
        r@ == row@,
{
    let mut r: Vec<(char, usize)> = Vec::new();
    let mut i: usize = 0;
    while i < row.len()
        invariant
            i <= row@.len(),
            r@ == row@.take(i as int),
        decreases row@.len() - i,
    {
        let e = row[i];
        r.push(e);
        assert(row@.take(i + 1) == row@.take(i as int).push(e));
        i += 1;
    }
    assert(row@.take(row@.len() as int) == row@);
    r
}

fn copy_indices(v: &Vec<usize>) -> (r: Vec<usize>)
    ensures
        r@ == v@,
{
    let mut r: Vec<usize> = Vec::new();
    let mut i: usize = 0;
    while i < v.len()
        invariant
            i <= v@.len(),
            r@ == v@.take(i as int),
        decreases v@.len() - i,
    {
        r.push(v[i]);
        assert(v@.take(i + 1) == v@.take(i as int).push(v@[i as int]));
        i += 1;
    }
    assert(v@.take(v@.len() as int) == v@);
    r
}

impl Lexer {
    pub closed spec fn input(&self) -> Seq<u8> {
        self.chars@
    }

    pub closed spec fn text(&self) -> Seq<char> {
        self.source@
    }

    pub closed spec fn classes(&self) -> Seq<Option<usize>> {
        self.states@
    }

    pub closed spec fn table(&self) -> Seq<Seq<(char, usize)>> {
        rows_view(self.transition_table@)
    }

    pub closed spec fn init(&self) -> Set<usize> {
        self.initial_states@.to_set()
    }

    /// The offset at which the last token ended, or where the next one is looked for.
    pub closed spec fn boundary(&self) -> int {
        self.start_pos as int
    }

    /// The scan cursor.
    pub closed spec fn cursor(&self) -> int {
        self.current_pos as int
    }

    /// The token that `peek_token` has computed and kept, if any.
    pub closed spec fn cached(&self) -> Option<Terminal> {
        self.current_token
    }

    pub closed spec fn wf(&self) -> bool {
        &&& self.base()
        &&& self.states_stack@.len() == 1
        &&& self.states_stack@[0]@ == self.initial_states@
        &&& match self.current_token {
            Some(t) => t.span == Span { start_pos: self.start_pos, end_pos: self.current_pos },
            None => self.start_pos == self.current_pos,
        }
    }

    /// The two scanners work on the same source and the same table.
    pub open spec fn same_setup(&self, other: &Self) -> bool {
        &&& self.text() == other.text()
        &&& self.input() == other.input()
        &&& self.lines() == other.lines()
        &&& self.classes() == other.classes()
        &&& self.table() == other.table()
        &&& self.init() == other.init()
    }

    /// The two scanners hold the same source, line index and table.
    spec fn same_fields(&self, other: &Self) -> bool {
        &&& self.source == other.source
        &&& self.chars == other.chars
        &&& self.line_start_indices == other.line_start_indices
        &&& self.states == other.states
        &&& self.transition_table == other.transition_table
        &&& self.initial_states == other.initial_states
    }

    /// What holds throughout, whatever the scan is doing.
    spec fn base(&self) -> bool {
        &&& self.chars@.len() == self.source@.len() <= usize::MAX
        &&& forall|i: int| 0 <= i < self.chars@.len() ==> #[trigger] self.chars@[i] == byte_of(self.source@[i])
        &&& self.line_start_indices@ == line_starts(self.chars@)
        &&& self.start_pos <= self.current_pos <= self.chars@.len()
        &&& self.states@.len() == self.transition_table@.len()
        &&& table_closed(self.table(), self.initial_states@)
        &&& self.states_stack@.len() >= 1
        &&& self.states_stack@[0]@ == self.initial_states@
        &&& forall|d: int, i: int|
            0 <= d < self.states_stack@.len() && 0 <= i < self.states_stack@[d]@.len() ==> (
            #[trigger] self.states_stack@[d]@[i]) < self.transition_table@.len()
    }

    /// The frontier stack holds, for each byte read since the boundary, the states reached.
    spec fn stack_ok(&self) -> bool {
        &&& self.states_stack@.len() == self.current_pos - self.start_pos + 1
        &&& forall|d: int|
            0 <= d < self.states_stack@.len() ==> (#[trigger] self.states_stack@[d])@.to_set()
                == frontier(
                self.table(),
                self.init(),
                self.chars@,
                self.start_pos as int,
                d as nat,
            )
    }

    /// What a well-formed scanner guarantees: the boundary and the cursor lie in the input,
    /// the input is the source read byte by byte, the line index is that of the input, and a
    /// kept token spans from the boundary to the cursor.
    pub proof fn lemma_wf(&self)
        requires
            self.wf(),
        ensures
            0 <= self.boundary() <= self.cursor() <= self.input().len() <= usize::MAX,
            self.input() == bytes_of(self.text()),
            self.lines() == line_starts(self.input()),
            match self.cached() {
                Some(t) => t.span == Span {
                    start_pos: self.boundary() as usize,
                    end_pos: self.cursor() as usize,
                },
                None => self.boundary() == self.cursor(),
            },
    {
        assert(self.input() =~= bytes_of(self.text()));
    }

    /// What the next call of `peek_token` or `next_token` hands out: the kept token, or the
    /// one that scanning from the cursor yields (`None` for a lexical error).
    pub open spec fn upcoming(&self) -> Option<Terminal> {
        match self.cached() {
            Some(t) => Some(t),
            None => scan(self.classes(), self.table(), self.init(), self.input(), self.cursor()),
        }
    }

    /// A scanner at the start of `source`, over the table of `spec`.
    pub fn from_source_str(spec: &LexerSpec, source: &str) -> (r: Self)
        requires
            table_closed(table_of(spec.states@), spec.initial_states@),
        ensures
            r.wf(),
            r.text() == source@,
            r.input() == bytes_of(source@),
            r.lines() == line_starts(r.input()),
            r.classes() == classes_of(spec.states@),
            r.table() == table_of(spec.states@),
            r.init() == spec.initial_states@.to_set(),
            r.cursor() == 0,
            r.boundary() == 0,
            r.cached() is None,
    {
        let n = source.unicode_len();
        let mut chars: Vec<u8> = Vec::new();
        let mut line_start_indices: Vec<usize> = Vec::new();
        line_start_indices.push(0);
        let mut i: usize = 0;
        while i < n
            invariant
                n == source@.len(),
                i <= n,
                chars@ == source@.take(i as int).map_values(|c: char| byte_of(c)),
                line_start_indices@ == line_starts(chars@),
            decreases n - i,
        {
            let c = source.get_char(i);
            let b = ((c as u32) % 256) as u8;
            let ghost before = chars@;
            chars.push(b);
            if b == 10 {
                line_start_indices.push(i + 1);
            }
            proof {
                assert(chars@.take(i as int) == before);
                assert(source@.take(i + 1).map_values(|c: char| byte_of(c)) =~= before.push(b));
            }
            i += 1;
        }
        proof {
            assert(source@.take(n as int) == source@);
        }
        let mut states: Vec<Option<usize>> = Vec::new();
        let mut transition_table: Vec<Vec<(char, usize)>> = Vec::new();
        let mut q: usize = 0;
        while q < spec.states.len()
            invariant
                q <= spec.states@.len(),
                transition_table@.len() == q,
                states@ == classes_of(spec.states@).take(q as int),
                rows_view(transition_table@) == table_of(spec.states@).take(q as int),
            decreases spec.states@.len() - q,
        {
            let state = &spec.states[q];
            let class = if state.accepts.is_some() {
                Some(state.token_index)
            } else {
                None
            };
            let ghost before = transition_table@;
            states.push(class);
            let row = copy_row(&state.next);
            let ghost row_view = row@;
            transition_table.push(row);
            proof {
                assert(transition_table@ == before.push(row));
                assert(transition_table@.len() == q + 1);
                assert(transition_table@[q as int] == row);
                assert(row_view == spec.states@[q as int].next@);
                assert(transition_table@[q as int]@ == spec.states@[q as int].next@);
                assert(table_of(spec.states@)[q as int] == spec.states@[q as int].next@);
                assert(forall|j: int| 0 <= j < q ==> transition_table@[j] == before[j]);
                assert(forall|j: int| 0 <= j < q ==> rows_view(before)[j] == before[j]@);
                assert(classes_of(spec.states@).take(q + 1) =~= classes_of(spec.states@).take(
                    q as int,
                ).push(class));
                assert forall|j: int| 0 <= j < q + 1 implies #[trigger] transition_table@[j]@
                    == table_of(spec.states@)[j] by {
                    if j < q {
                        assert(rows_view(before)[j] == table_of(spec.states@).take(q as int)[j]);
                    }
                }
                assert(rows_view(transition_table@) =~= table_of(spec.states@).take(q + 1));
            }
            q += 1;
        }
        proof {
            assert(classes_of(spec.states@).take(q as int) == classes_of(spec.states@));
            assert(table_of(spec.states@).take(q as int) == table_of(spec.states@));
        }
        let initial_states = copy_indices(&spec.initial_states);
        let mut states_stack: Vec<Vec<usize>> = Vec::new();
        states_stack.push(copy_indices(&spec.initial_states));
        let r = Lexer {
            source: source.to_string(),
            chars,
            line_start_indices,
            start_pos: 0,
            current_pos: 0,
            current_token: None,
            states,
            transition_table,
            initial_states,
            states_stack,
        };
        proof {
            assert(r.table() == table_of(spec.states@));
        }
        r
    }
}

/// How many of the offsets are at most `p`.
pub open spec fn count_le(lines: Seq<usize>, p: int) -> nat
    decreases lines.len(),
{
    if lines.len() == 0 {
        0
    } else {
        count_le(lines.drop_last(), p) + if lines.last() <= p {
            1nat
        } else {
            0nat
        }
    }
}

/// The decimal digits of `n`.
pub open spec fn decimal(n: nat) -> Seq<char>
    decreases n,
{
    if n < 10 {
        seq![digit_chars()[n as int]]
    } else {
        decimal(n / 10) + seq![digit_chars()[(n % 10) as int]]
    }
}

/// `k` copies of `c`.
pub open spec fn repeat(c: char, k: nat) -> Seq<char> {
    Seq::new(k, |_i: int| c)
}

/// `n` in decimal, right-aligned in three columns.
pub open spec fn pad3(n: nat) -> Seq<char> {
    if decimal(n).len() < 3 {
        repeat(' ', (3 - decimal(n).len()) as nat) + decimal(n)
    } else {
        decimal(n)
    }
}

/// The rendering of `span` in the text: its line, numbered from one, and under it a caret
/// at its first character followed by a dash for each further one.
pub open spec fn render_span(text: Seq<char>, lines: Seq<usize>, span: Span) -> Seq<char> {
    let n = count_le(lines, span.start_pos as int);
    let start = lines[n - 1] as int;
    let end = if n < lines.len() {
        lines[n as int] - 1
    } else {
        text.len() as int
    };
    let len = span.end_pos - span.start_pos;
    "Line "@ + pad3(n) + "|"@ + text.subrange(start, end) + "\n"@ + repeat(' ', 9) + repeat(
        ' ',
        (span.start_pos - start) as nat,
    ) + "^"@ + repeat('-', if len >= 1 { (len - 1) as nat } else { 0 })
}

/// The report of a lexical error: the rendered span and the character at `pos`, or EOF.
pub open spec fn error_report(text: Seq<char>, lines: Seq<usize>, span: Span, pos: int) -> Seq<
    char,
> {
    render_span(text, lines, span) + "\nerror: unexpected character found: "@ + if pos
        < text.len() {
        seq![text[pos]]
    } else {
        "EOF"@
    }
}

/// The report of a lexical error at offset `s`, where no token can start.
pub open spec fn lexical_error(text: Seq<char>, lines: Seq<usize>, s: int) -> Seq<char> {
    error_report(text, lines, Span { start_pos: s as usize, end_pos: s as usize }, s)
}

/// Once only white space is left, scanning yields the end token, with an empty span at the
/// end of the input; scanning again from there yields the same token.
pub proof fn lemma_end_repeats(
    classes: Seq<Option<usize>>,
    table: Seq<Seq<(char, usize)>>,
    init: Set<usize>,
    input: Seq<u8>,
    pos: int,
)
    requires
        0 <= pos <= input.len(),
        skip_ws(input, pos) >= input.len(),
    ensures
        scan(classes, table, init, input, pos) == Some(
            Terminal {
                class: TerminalClass::End,
                span: Span { start_pos: input.len() as usize, end_pos: input.len() as usize },
            },
        ),
        scan(classes, table, init, input, input.len() as int) == scan(
            classes,
            table,
            init,
            input,
            pos,
        ),
{
    lemma_skip_ws_bounds(input, pos);
}

/// Scanning yields the end token only where nothing but white space is left.
pub proof fn lemma_end_only_at_end(
    classes: Seq<Option<usize>>,
    table: Seq<Seq<(char, usize)>>,
    init: Set<usize>,
    input: Seq<u8>,
    pos: int,
)
    requires
        scan(classes, table, init, input, pos) is Some,
        scan(classes, table, init, input, pos)->0.class == TerminalClass::End,
    ensures
        skip_ws(input, pos) >= input.len(),
{
}

proof fn lemma_skip_ws_bounds(input: Seq<u8>, pos: int)
    requires
        0 <= pos <= input.len(),
    ensures
        pos <= skip_ws(input, pos) <= input.len(),
        forall|i: int| pos <= i < skip_ws(input, pos) ==> is_space(#[trigger] input[i]),
        skip_ws(input, pos) < input.len() ==> !is_space(input[skip_ws(input, pos)]),
    decreases input.len() - pos,
{
    if pos < input.len() && is_space(input[pos]) {
        lemma_skip_ws_bounds(input, pos + 1);
    }
}

/// A token starts at the first byte from the cursor that is not white space: every byte
/// skipped before it is white space, and none of them lies in its span.
pub proof fn lemma_token_after_whitespace(
    classes: Seq<Option<usize>>,
    table: Seq<Seq<(char, usize)>>,
    init: Set<usize>,
    input: Seq<u8>,
    pos: int,
)
    requires
        0 <= pos <= input.len() <= usize::MAX,
        scan(classes, table, init, input, pos) is Some,
    ensures
        ({
            let t = scan(classes, table, init, input, pos)->0;
            let start = t.span.start_pos as int;
            &&& start == skip_ws(input, pos)
            &&& pos <= start <= t.span.end_pos
            &&& forall|i: int| pos <= i < start ==> is_space(#[trigger] input[i])
            &&& start < input.len() ==> !is_space(input[start])
        }),
{
    lemma_skip_ws_bounds(input, pos);
    let s = skip_ws(input, pos);
    if s < input.len() {
        lemma_run_bound(table, init, input, s);
        lemma_best_bound(classes, table, init, input, s, run(table, init, input, s));
    }
}

proof fn lemma_run_bound(table: Seq<Seq<(char, usize)>>, f: Set<usize>, input: Seq<u8>, pos: int)
    requires
        0 <= pos <= input.len(),
    ensures
        pos + run(table, f, input, pos) <= input.len(),
    decreases input.len() - pos,
{
    if pos < input.len() && step(table, f, input[pos] as char) != Set::<usize>::empty() {
        lemma_run_bound(table, step(table, f, input[pos] as char), input, pos + 1);
    }
}

proof fn lemma_best_bound(
    classes: Seq<Option<usize>>,
    table: Seq<Seq<(char, usize)>>,
    init: Set<usize>,
    input: Seq<u8>,
    s: int,
    d: nat,
)
    ensures
        best(classes, table, init, input, s, d) is Some ==> best(
            classes,
            table,
            init,
            input,
            s,
            d,
        )->0 <= d,
    decreases d,
{
    if d > 0 {
        lemma_best_bound(classes, table, init, input, s, (d - 1) as nat);
    }
}

/// A byte that no automaton can read from its initial state, where no initial state accepts,
/// is a lexical error.
pub proof fn lemma_stuck_is_error(
    classes: Seq<Option<usize>>,
    table: Seq<Seq<(char, usize)>>,
    init: Set<usize>,
    input: Seq<u8>,
    pos: int,
)
    requires
        0 <= pos,
        skip_ws(input, pos) < input.len(),
        step(table, init, input[skip_ws(input, pos)] as char) == Set::<usize>::empty(),
        !accepting(classes, init),
    ensures
        scan(classes, table, init, input, pos) is None,
{
    let s = skip_ws(input, pos);
    lemma_skip_ws_idempotent(input, pos);
    assert(run(table, init, input, s) == 0);
    assert(frontier(table, init, input, s, 0) == init);
}

proof fn lemma_line_starts(input: Seq<u8>)
    requires
        input.len() <= usize::MAX,
    ensures
        line_starts(input).len() >= 1,
        line_starts(input)[0] == 0,
        forall|i: int, j: int|
            0 <= i < j < line_starts(input).len() ==> line_starts(input)[i] < line_starts(input)[j],
        forall|i: int| 0 <= i < line_starts(input).len() ==> line_starts(input)[i] <= input.len(),
    decreases input.len(),
{
    if input.len() > 0 {
        let k = input.len() - 1;
        lemma_line_starts(input.take(k));
        let rest = line_starts(input.take(k));
        if input[k] == 10 {
            let all = rest.push((k + 1) as usize);
            assert(line_starts(input) == all);
            assert forall|i: int, j: int| 0 <= i < j < all.len() implies all[i] < all[j] by {
                if j < rest.len() {
                    assert(rest[i] < rest[j]);
                } else {
                    assert(rest[i] <= k);
                }
            }
        }
    }
}

proof fn lemma_count_le_bounds(lines: Seq<usize>, p: int)
    requires
        lines.len() >= 1,
        lines[0] <= p,
    ensures
        1 <= count_le(lines, p) <= lines.len(),
    decreases lines.len(),
{
    if lines.len() > 1 {
        assert(lines.drop_last()[0] == lines[0]);
        lemma_count_le_bounds(lines.drop_last(), p);
    } else {
        assert(lines.last() == lines[0]);
        assert(count_le(lines.drop_last(), p) == 0);
    }
}

proof fn lemma_count_le_sorted(lines: Seq<usize>, p: int)
    requires
        lines.len() >= 1,
        lines[0] <= p,
        forall|i: int, j: int| 0 <= i < j < lines.len() ==> lines[i] < lines[j],
    ensures
        1 <= count_le(lines, p) <= lines.len(),
        lines[count_le(lines, p) - 1] <= p,
        count_le(lines, p) < lines.len() ==> lines[count_le(lines, p) as int] > p,
    decreases lines.len(),
{
    lemma_count_le_bounds(lines, p);
    if lines.len() > 1 {
        lemma_count_le_sorted(lines.drop_last(), p);
        lemma_count_le_bounds(lines.drop_last(), p);
    }
}

fn digit_str(d: usize) -> (r: &'static str)
    requires
        d < 10,
    ensures
        r@ == seq![digit_chars()[d as int]],
{
    proof {
        reveal_strlit("0");
        reveal_strlit("1");
        reveal_strlit("2");
        reveal_strlit("3");
        reveal_strlit("4");
        reveal_strlit("5");
        reveal_strlit("6");
        reveal_strlit("7");
        reveal_strlit("8");
        reveal_strlit("9");
    }
    match d {
        0 => "0",
        1 => "1",
        2 => "2",
        3 => "3",
        4 => "4",
        5 => "5",
        6 => "6",
        7 => "7",
        8 => "8",
        _ => "9",
    }
}

fn decimal_string(n: usize) -> (r: String)
    ensures
        r@ == decimal(n as nat),
    decreases n,
{
    if n < 10 {
        String::from_str(digit_str(n))
    } else {
        let mut r = decimal_string(n / 10);
        r.append(digit_str(n % 10));
        r
    }
}

fn append_repeat(r: &mut String, piece: &str, k: usize, Ghost(c): Ghost<char>)
    requires
        piece@ == seq![c],
    ensures
        final(r)@ == old(r)@ + repeat(c, k as nat),
{
    let mut i: usize = 0;
    while i < k
        invariant
            piece@ == seq![c],
            i <= k,
            r@ == old(r)@ + repeat(c, i as nat),
        decreases k - i,
    {
        let ghost before = r@;
        r.append(piece);
        assert(repeat(c, (i + 1) as nat) =~= repeat(c, i as nat) + seq![c]);
        assert(r@ =~= old(r)@ + repeat(c, (i + 1) as nat));
        i += 1;
    }
}

pub proof fn lemma_min_class_unique(classes: Seq<Option<usize>>, f: Set<usize>, c: usize)
    requires
        is_min_class(classes, f, c),
    ensures
        min_class(classes, f) == c,
{
    let m = min_class(classes, f);
    assert(is_min_class(classes, f, m));
    let q1 = choose|q: usize| #[trigger] f.contains(q) && q < classes.len() && classes[q as int] == Some(c);
    let q2 = choose|q: usize| #[trigger] f.contains(q) && q < classes.len() && classes[q as int] == Some(m);
    assert(c <= m);
    assert(m <= c);
}

fn is_space_byte(b: u8) -> (r: bool)
    ensures
        r == is_space(b),
{
    b == 32 || (9 <= b && b <= 13) || b == 0x85 || b == 0xA0
}

impl Lexer {
    fn peek_char(&self) -> (r: Option<u8>)
        ensures
            r == if self.current_pos < self.chars@.len() {
                Some(self.chars@[self.current_pos as int])
            } else {
                None::<u8>
            },
    {
        if self.current_pos < self.chars.len() {
            Some(self.chars[self.current_pos])
        } else {
            None
        }
    }

    fn read_char(&mut self) -> (r: Option<u8>)
        requires
            old(self).current_pos <= old(self).chars@.len(),
        ensures
            r == if old(self).current_pos < old(self).chars@.len() {
                Some(old(self).chars@[old(self).current_pos as int])
            } else {
                None::<u8>
            },
            final(self).current_pos == if old(self).current_pos < old(self).chars@.len() {
                old(self).current_pos + 1
            } else {
                old(self).current_pos as int
            },
            *final(self) == (Lexer { current_pos: final(self).current_pos, ..*old(self) }),
    {
        if self.current_pos < self.chars.len() {
            let ch = self.chars[self.current_pos];
            self.current_pos += 1;
            Some(ch)
        } else {
            None
        }
    }

    fn revert_char(&mut self)
        requires
            old(self).current_pos > 0,
        ensures
            *final(self) == (Lexer { current_pos: (old(self).current_pos - 1) as usize, ..*old(self) }),
    {
        self.current_pos -= 1;
    }

    fn move_start_pos(&mut self)
        ensures
            *final(self) == (Lexer { start_pos: old(self).current_pos, ..*old(self) }),
    {
        self.start_pos = self.current_pos;
    }

    fn current_span(&self) -> (r: Span)
        ensures
            r == (Span { start_pos: self.start_pos, end_pos: self.current_pos }),
    {
        Span::new(self.start_pos, self.current_pos)
    }

    fn skip_whitespaces(&mut self)
        requires
            old(self).base(),
            old(self).states_stack@.len() == 1,
        ensures
            final(self).base(),
            final(self).states_stack == old(self).states_stack,
            final(self).current_pos == skip_ws(old(self).chars@, old(self).current_pos as int),
            final(self).start_pos == final(self).current_pos,
            *final(self) == (Lexer {
                current_pos: final(self).current_pos,
                start_pos: final(self).start_pos,
                ..*old(self)
            }),
    {
        while self.current_pos < self.chars.len() && is_space_byte(self.chars[self.current_pos])
            invariant
                self.base(),
                self.start_pos <= old(self).start_pos,
                *self == (Lexer { current_pos: self.current_pos, ..*old(self) }),
                skip_ws(self.chars@, self.current_pos as int) == skip_ws(
                    old(self).chars@,
                    old(self).current_pos as int,
                ),
            decreases self.chars@.len() - self.current_pos,
        {
            self.current_pos += 1;
        }
        self.move_start_pos();
    }

    /// The target of the transition of `state` on `c`, if any.
    fn transition(&self, state: usize, c: char) -> (r: Option<usize>)
        requires
            self.base(),
            state < self.transition_table@.len(),
        ensures
            r == lookup(self.table()[state as int], c),
            r is Some ==> r->0 < self.transition_table@.len(),
    {
        let row = &self.transition_table[state];
        proof {
            assert(self.table()[state as int] == row@);
        }
        let mut i: usize = 0;
        assert(row@.skip(0) == row@);
        while i < row.len()
            invariant
                self.base(),
                state < self.transition_table@.len(),
                row@ == self.table()[state as int],
                i <= row@.len(),
                lookup(row@, c) == lookup(row@.skip(i as int), c),
            decreases row@.len() - i,
        {
            assert(row@.skip(i as int)[0] == row@[i as int]);
            assert(row@.skip(i as int).drop_first() == row@.skip(i + 1));
            if row[i].0 == c {
                assert(row@[i as int].1 < self.transition_table@.len());
                return Some(row[i].1);
            }
            i += 1;
        }
        assert(row@.skip(i as int).len() == 0);
        None
    }

    /// Pushes the states that `input` leads to from the deepest frontier, if there are any.
    fn move_states_on_stack(&mut self, input: char) -> (r: bool)
        requires
            old(self).base(),
        ensures
            final(self).base(),
            ({
                let top = old(self).states_stack@[old(self).states_stack@.len() - 1]@.to_set();
                let next = step(old(self).table(), top, input);
                &&& r == (next != Set::<usize>::empty())
                &&& r ==> final(self).states_stack@ == old(self).states_stack@.push(
                    final(self).states_stack@.last(),
                ) && final(self).states_stack@.last()@.to_set() == next
                &&& !r ==> final(self).states_stack == old(self).states_stack
            }),
            *final(self) == (Lexer { states_stack: final(self).states_stack, ..*old(self) }),
    {
        let top = self.states_stack.len() - 1;
        let ghost topset = self.states_stack@[top as int]@.to_set();
        let ghost table = self.table();
        let mut new_states: Vec<usize> = Vec::new();
        let mut i: usize = 0;
        while i < self.states_stack[top].len()
            invariant
                self.base(),
                *self == *old(self),
                top == self.states_stack@.len() - 1,
                table == self.table(),
                topset == self.states_stack@[top as int]@.to_set(),
                i <= self.states_stack@[top as int]@.len(),
                forall|j: int| 0 <= j < new_states@.len() ==> #[trigger] new_states@[j] < self.transition_table@.len(),
                new_states@.to_set() == Set::new(
                    |t: usize|
                        exists|j: int|
                            0 <= j < i && lookup(table[self.states_stack@[top as int]@[j] as int], input)
                                == Some(t),
                ),
            decreases self.states_stack@[top as int]@.len() - i,
        {
            let state = self.states_stack[top][i];
            let ghost before = new_states@;
            match self.transition(state, input) {
                Some(t) => {
                    new_states.push(t);
                },
                None => {},
            }
            proof {
                let row = self.states_stack@[top as int]@;
                assert forall|t: usize| #[trigger] new_states@.to_set().contains(t) == Set::new(
                    |t: usize|
                        exists|j: int| 0 <= j < i + 1 && lookup(table[row[j] as int], input) == Some(t),
                ).contains(t) by {
                    if new_states@.to_set().contains(t) {
                        let k = choose|k: int| 0 <= k < new_states@.len() && new_states@[k] == t;
                        if k < before.len() {
                            assert(before.to_set().contains(t));
                        } else {
                            assert(lookup(table[row[i as int] as int], input) == Some(t));
                        }
                    }
                    if Set::new(
                        |t: usize|
                            exists|j: int| 0 <= j < i + 1 && lookup(table[row[j] as int], input) == Some(t),
                    ).contains(t) {
                        let j = choose|j: int| 0 <= j < i + 1 && lookup(table[row[j] as int], input) == Some(t);
                        if j < i {
                            assert(before.to_set().contains(t));
                            let k = choose|k: int| 0 <= k < before.len() && before[k] == t;
                            assert(new_states@[k] == t);
                        } else {
                            assert(new_states@[new_states@.len() - 1] == t);
                        }
                    }
                }
                assert(new_states@.to_set() =~= Set::new(
                    |t: usize|
                        exists|j: int| 0 <= j < i + 1 && lookup(table[row[j] as int], input) == Some(t),
                ));
            }
            i += 1;
        }
        proof {
            let row = self.states_stack@[top as int]@;
            assert forall|t: usize| #[trigger] new_states@.to_set().contains(t) == step(table, topset, input).contains(t) by {
                if new_states@.to_set().contains(t) {
                    let j = choose|j: int| 0 <= j < row.len() && lookup(table[row[j] as int], input) == Some(t);
                    assert(topset.contains(row[j]));
                    assert(row[j] < table.len());
                }
                if step(table, topset, input).contains(t) {
                    let q = choose|q: usize| #![trigger topset.contains(q), table[q as int]] topset.contains(q) && q < table.len() && lookup(table[q as int], input) == Some(t);
                    let j = choose|j: int| 0 <= j < row.len() && row[j] == q;
                    assert(lookup(table[row[j] as int], input) == Some(t));
                }
            }
            assert(new_states@.to_set() =~= step(table, topset, input));
        }
        if new_states.len() > 0 {
            proof {
                assert(new_states@.to_set().contains(new_states@[0]));
            }
            self.states_stack.push(new_states);
            true
        } else {
            proof {
                assert(new_states@.to_set() =~= Set::<usize>::empty());
            }
            false
        }
    }
}

pub proof fn lemma_skip_ws_idempotent(input: Seq<u8>, pos: int)
    ensures
        skip_ws(input, skip_ws(input, pos)) == skip_ws(input, pos),
        pos <= skip_ws(input, pos),
        pos >= 0 ==> skip_ws(input, pos) <= input.len() || skip_ws(input, pos) == pos,
    decreases input.len() - pos,
{
    if 0 <= pos < input.len() && is_space(input[pos]) {
        lemma_skip_ws_idempotent(input, pos + 1);
    }
}

impl Lexer {
    /// The number of the line that holds offset `p`, counted from one.
    fn line_number(&self, p: usize) -> (r: usize)
        requires
            self.base(),
        ensures
            r == count_le(self.line_start_indices@, p as int),
    {
        let lines = &self.line_start_indices;
        let mut count: usize = 0;
        let mut i: usize = 0;
        while i < lines.len()
            invariant
                i <= lines@.len(),
                count <= i,
                count == count_le(lines@.take(i as int), p as int),
            decreases lines@.len() - i,
        {
            assert(lines@.take(i + 1).drop_last() == lines@.take(i as int));
            if lines[i] <= p {
                count += 1;
            }
            i += 1;
        }
        assert(lines@.take(lines@.len() as int) == lines@);
        count
    }

    /// The text of a token.
    pub fn get_lexeme<'a>(&'a self, token: &Terminal) -> (r: &'a str)
        requires
            self.wf(),
            token.span.start_pos <= token.span.end_pos <= self.input().len(),
        ensures
            r@ == self.text().subrange(token.span.start_pos as int, token.span.end_pos as int),
    {
        self.source.as_str().substring_char(token.span.start_pos(), token.span.end_pos())
    }

    /// The line that holds `span`, with the span marked under it.
    pub fn show_span(&self, span: &Span) -> (r: String)
        requires
            self.wf(),
            span.start_pos <= span.end_pos,
            span.start_pos <= self.input().len(),
        ensures
            r@ == render_span(self.text(), self.lines(), *span),
    {
        self.render(span)
    }

    /// The offsets at which the lines of the source start.
    pub closed spec fn lines(&self) -> Seq<usize> {
        self.line_start_indices@
    }

    fn render(&self, span: &Span) -> (r: String)
        requires
            self.base(),
            span.start_pos <= span.end_pos,
            span.start_pos <= self.chars@.len(),
        ensures
            r@ == render_span(self.source@, self.line_start_indices@, *span),
    {
        let input_len = self.chars.len();
        proof {
            lemma_line_starts(self.chars@);
            lemma_count_le_sorted(self.line_start_indices@, span.start_pos as int);
        }
        let line_number = self.line_number(span.start_pos);
        let line_start_idx = self.line_start_indices[line_number - 1];
        let line_end_idx = if line_number < self.line_start_indices.len() {
            self.line_start_indices[line_number] - 1
        } else {
            self.chars.len()
        };
        let line = self.source.as_str().substring_char(line_start_idx, line_end_idx);
        let span_offset = span.start_pos - line_start_idx;
        let span_length = span.end_pos - span.start_pos;
        proof {
            reveal_strlit("Line ");
            reveal_strlit(" ");
            reveal_strlit("|");
            reveal_strlit("\n");
            reveal_strlit("^");
            reveal_strlit("-");
        }
        assert(" "@ == seq![' ']);
        assert("-"@ == seq!['-']);
        let mut r = String::from_str("Line ");
        let digits = decimal_string(line_number);
        if digits.as_str().unicode_len() < 3 {
            append_repeat(&mut r, " ", 3 - digits.as_str().unicode_len(), Ghost(' '));
        }
        r.append(digits.as_str());
        r.append("|");
        r.append(line);
        r.append("\n");
        append_repeat(&mut r, " ", 9, Ghost(' '));
        append_repeat(&mut r, " ", span_offset, Ghost(' '));
        r.append("^");
        let dashes = if span_length >= 1 {
            span_length - 1
        } else {
            0
        };
        append_repeat(&mut r, "-", dashes, Ghost('-'));
        proof {
            assert(r@ =~= render_span(self.text(), self.line_start_indices@, *span));
        }
        r
    }

    /// The smallest class accepted in the deepest frontier, if any.
    fn min_accepting(&self) -> (r: Option<usize>)
        requires
            self.base(),
        ensures
            ({
                let top = self.states_stack@.last()@.to_set();
                &&& (r is Some) == accepting(self.states@, top)
                &&& r is Some ==> is_min_class(self.states@, top, r->0)
            }),
    {
        let top = &self.states_stack[self.states_stack.len() - 1];
        let ghost cl = self.states@;
        let mut best: Option<usize> = None;
        let mut i: usize = 0;
        while i < top.len()
            invariant
                self.base(),
                cl == self.states@,
                *top == self.states_stack@.last(),
                i <= top@.len(),
                best is None ==> forall|j: int| 0 <= j < i ==> !(#[trigger] cl[top@[j] as int] is Some),
                best is Some ==> exists|j: int| 0 <= j < i && #[trigger] cl[top@[j] as int] == Some(best->0),
                best is Some ==> forall|j: int|
                    0 <= j < i && (#[trigger] cl[top@[j] as int]) is Some ==> best->0 <= cl[top@[j] as int]->0,
            decreases top@.len() - i,
        {
            let q = top[i];
            assert(q < self.transition_table@.len());
            match self.states[q] {
                Some(c) => {
                    match best {
                        Some(b) => {
                            if c < b {
                                best = Some(c);
                            }
                        },
                        None => {
                            best = Some(c);
                        },
                    }
                },
                None => {},
            }
            i += 1;
        }
        proof {
            let ts = top@.to_set();
            if best is Some {
                let j = choose|j: int| 0 <= j < i && #[trigger] cl[top@[j] as int] == Some(best->0);
                assert(ts.contains(top@[j]));
                assert forall|q: usize| #[trigger] ts.contains(q) && q < cl.len() && cl[q as int] is Some implies best->0 <= cl[q as int]->0 by {
                    let k = choose|k: int| 0 <= k < top@.len() && top@[k] == q;
                    assert(cl[top@[k] as int] is Some);
                }
            } else {
                assert forall|q: usize| #[trigger] ts.contains(q) && q < cl.len() implies !(cl[q as int] is Some) by {
                    let k = choose|k: int| 0 <= k < top@.len() && top@[k] == q;
                    assert(!(cl[top@[k] as int] is Some));
                }
            }
        }
        best
    }

    /// The report of a lexical error at the cursor: the source line with the current span
    /// marked, and the character that no token can start with.
    fn report_error(&self) -> (r: String)
        requires
            self.base(),
        ensures
            r@ == error_report(
                self.source@,
                self.line_start_indices@,
                Span { start_pos: self.start_pos, end_pos: self.current_pos },
                self.current_pos as int,
            ),
    {
        let span_str = self.render(&self.current_span());
        let mut r = span_str;
        proof {
            reveal_strlit("\nerror: unexpected character found: ");
            reveal_strlit("EOF");
        }
        r.append("\nerror: unexpected character found: ");
        if self.current_pos < self.chars.len() {
            let c = self.source.as_str().substring_char(self.current_pos, self.current_pos + 1);
            r.append(c);
        } else {
            r.append("EOF");
        }
        r
    }

    /// Picks the token at the deepest frontier that accepts, backing off one byte at a time.
    fn evaluate_stack(&mut self) -> (r: Result<Terminal, String>)
        requires
            old(self).base(),
            old(self).stack_ok(),
            old(self).current_token is None,
            (old(self).current_pos - old(self).start_pos) as nat == run(
                old(self).table(),
                old(self).init(),
                old(self).chars@,
                old(self).start_pos as int,
            ),
        ensures
            final(self).base(),
            final(self).stack_ok(),
            final(self).same_fields(old(self)),
            final(self).start_pos == old(self).start_pos,
            final(self).current_token is None,
            ({
                let s = old(self).start_pos as int;
                let l = run(old(self).table(), old(self).init(), old(self).chars@, s);
                match best(old(self).states@, old(self).table(), old(self).init(), old(self).chars@, s, l) {
                    Some(d) => r == Ok::<Terminal, String>(
                        Terminal {
                            class: TerminalClass::Token(
                                min_class(
                                    old(self).states@,
                                    frontier(old(self).table(), old(self).init(), old(self).chars@, s, d),
                                ),
                            ),
                            span: Span { start_pos: s as usize, end_pos: (s + d) as usize },
                        },
                    ) && final(self).current_pos == s + d,
                    None => r is Err && final(self).current_pos == s && r->Err_0@ == error_report(
                        old(self).source@,
                        old(self).line_start_indices@,
                        Span { start_pos: s as usize, end_pos: s as usize },
                        s,
                    ),
                }
            }),
    {
        let ghost s = self.start_pos as int;
        let ghost l = run(self.table(), self.init(), self.chars@, s);
        loop
            invariant
                self.base(),
                self.stack_ok(),
                self.same_fields(old(self)),
                self.start_pos == old(self).start_pos,
                self.current_token is None,
                s == self.start_pos,
                l == run(old(self).table(), old(self).init(), old(self).chars@, s),
                best(self.states@, self.table(), self.init(), self.chars@, s, l) == best(
                    self.states@,
                    self.table(),
                    self.init(),
                    self.chars@,
                    s,
                    (self.current_pos - s) as nat,
                ),
            decreases self.states_stack@.len(),
        {
            let ghost d = (self.current_pos - s) as nat;
            proof {
                assert(self.states_stack@.last() == self.states_stack@[d as int]);
            }
            match self.min_accepting() {
                Some(c) => {
                    proof {
                        lemma_min_class_unique(self.states@, frontier(self.table(), self.init(), self.chars@, s, d), c);
                    }
                    let span = self.current_span();
                    return Ok(Terminal::new(TerminalClass::Token(c), span));
                },
                None => {
                    if self.states_stack.len() == 1 {
                        return Err(self.report_error());
                    }
                    let ghost before = self.states_stack@;
                    self.states_stack.pop();
                    self.revert_char();
                    proof {
                        assert forall|k: int| 0 <= k < self.states_stack@.len() implies #[trigger] self.states_stack@[k] == before[k] by {}
                    }
                },
            }
        }
    }

    /// Reads as far as some automaton can go, then picks the token.
    fn get(&mut self) -> (r: Result<Terminal, String>)
        requires
            old(self).base(),
            old(self).states_stack@.len() == 1,
            old(self).start_pos == old(self).current_pos,
            old(self).current_token is None,
        ensures
            final(self).base(),
            final(self).stack_ok(),
            final(self).same_fields(old(self)),
            final(self).start_pos == old(self).start_pos,
            final(self).current_token is None,
            ({
                let s = old(self).start_pos as int;
                let l = run(old(self).table(), old(self).init(), old(self).chars@, s);
                match best(old(self).states@, old(self).table(), old(self).init(), old(self).chars@, s, l) {
                    Some(d) => r == Ok::<Terminal, String>(
                        Terminal {
                            class: TerminalClass::Token(
                                min_class(
                                    old(self).states@,
                                    frontier(old(self).table(), old(self).init(), old(self).chars@, s, d),
                                ),
                            ),
                            span: Span { start_pos: s as usize, end_pos: (s + d) as usize },
                        },
                    ) && final(self).current_pos == s + d,
                    None => r is Err && final(self).current_pos == s && r->Err_0@ == error_report(
                        old(self).source@,
                        old(self).line_start_indices@,
                        Span { start_pos: s as usize, end_pos: s as usize },
                        s,
                    ),
                }
            }),
    {
        let ghost s = self.start_pos as int;
        proof {
            assert(self.states_stack@[0]@.to_set() == self.init());
        }
        loop
            invariant
                self.base(),
                self.stack_ok(),
                self.same_fields(old(self)),
                self.start_pos == old(self).start_pos,
                self.current_token is None,
                s == self.start_pos,
                run(self.table(), self.init(), self.chars@, s) == (self.current_pos - s) + run(
                    self.table(),
                    frontier(self.table(), self.init(), self.chars@, s, (self.current_pos - s) as nat),
                    self.chars@,
                    self.current_pos as int,
                ),
            decreases self.chars@.len() - self.current_pos,
        {
            let ghost d = (self.current_pos - s) as nat;
            proof {
                assert(self.states_stack@.last() == self.states_stack@[d as int]);
            }
            match self.peek_char() {
                Some(c) => {
                    let ghost before = self.states_stack@;
                    if self.move_states_on_stack(c as char) {
                        self.read_char();
                        proof {
                            assert forall|k: int| 0 <= k < self.states_stack@.len() implies (#[trigger] self.states_stack@[k])@.to_set()
                                == frontier(self.table(), self.init(), self.chars@, s, k as nat) by {
                                if k < before.len() {
                                    assert(self.states_stack@[k] == before[k]);
                                }
                            }
                        }
                    } else {
                        return self.evaluate_stack();
                    }
                },
                None => {
                    return self.evaluate_stack();
                },
            }
        }
    }

    /// The next token, without moving past it: computed once and kept.
    pub fn peek_token(&mut self) -> (r: Result<Terminal, String>)
        requires
            old(self).wf(),
        ensures
            final(self).wf(),
            final(self).same_setup(old(self)),
            final(self).upcoming() == old(self).upcoming(),
            match old(self).upcoming() {
                Some(t) => r == Ok::<Terminal, String>(t) && final(self).cached() == Some(t),
                None => r is Err && final(self).cached() is None && r->Err_0@ == lexical_error(
                    old(self).text(),
                    old(self).lines(),
                    skip_ws(old(self).input(), old(self).cursor()),
                ),
            },
            old(self).cached() is None ==> final(self).boundary() == skip_ws(
                old(self).input(),
                old(self).cursor(),
            ),
            old(self).cached() is Some ==> *final(self) == *old(self),
            r is Ok ==> final(self).boundary() == r->Ok_0.span.start_pos && final(self).cursor()
                == r->Ok_0.span.end_pos,
            r is Err ==> final(self).cursor() == skip_ws(old(self).input(), old(self).cursor())
                && final(self).boundary() == final(self).cursor(),
    {
        if self.current_token.is_none() {
            let ghost c0 = self.current_pos as int;
            self.skip_whitespaces();
            proof {
                lemma_skip_ws_idempotent(self.chars@, c0);
            }
            if self.peek_char().is_none() {
                let end_token = Terminal::new(TerminalClass::End, self.current_span());
                self.current_token = Some(end_token);
            } else {
                let t = self.get()?;
                self.current_token = Some(t);
                let ghost after_get = *self;
                while self.states_stack.len() > 1
                    invariant
                        self.base(),
                        *self == (Lexer { states_stack: self.states_stack, ..after_get }),
                    decreases self.states_stack@.len(),
                {
                    let ghost before = self.states_stack@;
                    self.states_stack.pop();
                    proof {
                        assert forall|k: int| 0 <= k < self.states_stack@.len() implies #[trigger] self.states_stack@[k] == before[k] by {}
                    }
                }
            }
        }
        Ok(self.current_token.unwrap())
    }

    /// The next token, moving past it.
    pub fn next_token(&mut self) -> (r: Result<Terminal, String>)
        requires
            old(self).wf(),
        ensures
            final(self).wf(),
            final(self).same_setup(old(self)),
            final(self).cached() is None,
            match old(self).upcoming() {
                Some(t) => r == Ok::<Terminal, String>(t) && final(self).cursor() == t.span.end_pos
                    && final(self).boundary() == t.span.end_pos,
                None => r is Err && final(self).cursor() == skip_ws(old(self).input(), old(self).cursor())
                    && r->Err_0@ == lexical_error(
                    old(self).text(),
                    old(self).lines(),
                    skip_ws(old(self).input(), old(self).cursor()),
                ),
            },
    {
        let token = self.peek_token()?;
        self.move_start_pos();
        self.current_token = None;
        Ok(token)
    }
}

} // verus!
