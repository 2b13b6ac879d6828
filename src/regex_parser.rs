use vstd::prelude::*;

pub mod lexer;

use crate::regex_parser::lexer::{Lexer, SpecialToken, Token, bad_escape_message, scan_token};

verus! {

/// A leaf of a pattern's tree: one character at a position unique in the tree.
#[derive(Clone, Copy, PartialEq, Eq, Hash, Debug, Structural)]
pub struct RegexTerminal {
    pub pos: usize,
    pub ch: char,
}

/// A node of a pattern's syntax tree.
#[derive(PartialEq, Eq, Debug)]
pub enum RegexNode {
    Cat(Box<RegexNode>, Box<RegexNode>),
    Or(Box<RegexNode>, Box<RegexNode>),
    Parenthesized(Box<RegexNode>),
    Kleene(Box<RegexNode>),
    Terminal(RegexTerminal),
}

/// The character that marks the end of a complete match.
pub const SENTINEL: char = '\0';

/// The leaves of a tree, left to right.
pub open spec fn leaves(node: RegexNode) -> Seq<RegexTerminal>
    decreases node,
{
    match node {
        RegexNode::Cat(l, r) => leaves(*l) + leaves(*r),
        RegexNode::Or(l, r) => leaves(*l) + leaves(*r),
        RegexNode::Parenthesized(c) => leaves(*c),
        RegexNode::Kleene(c) => leaves(*c),
        RegexNode::Terminal(t) => seq![t],
    }
}

/// The characters that the leaves of a tree carry.
pub open spec fn chars_of(node: RegexNode) -> Set<char>
    decreases node,
{
    match node {
        RegexNode::Cat(l, r) => chars_of(*l) + chars_of(*r),
        RegexNode::Or(l, r) => chars_of(*l) + chars_of(*r),
        RegexNode::Parenthesized(c) => chars_of(*c),
        RegexNode::Kleene(c) => chars_of(*c),
        RegexNode::Terminal(t) => set![t.ch],
    }
}

/// The characters of the leaves of a tree, left to right.
pub open spec fn leaf_chars(node: RegexNode) -> Seq<char> {
    leaves(node).map_values(|t: RegexTerminal| t.ch)
}

/// `a` with `c` added at the end, unless `a` holds it already.
pub open spec fn add_char(a: Seq<char>, c: char) -> Seq<char> {
    if a.contains(c) {
        a
    } else {
        a.push(c)
    }
}

/// `a` with the characters of `s` added in order, each unless already held.
pub open spec fn add_chars(a: Seq<char>, s: Seq<char>) -> Seq<char>
    decreases s.len(),
{
    if s.len() == 0 {
        a
    } else {
        add_char(add_chars(a, s.drop_last()), s.last())
    }
}

/// The alphabet of an augmented tree: the characters of the leaves of its body, each once,
/// in the order in which they first occur.
pub open spec fn alphabet_of(tree: RegexNode) -> Seq<char> {
    add_chars(seq![], leaf_chars(body(tree)))
}

proof fn lemma_add_chars_props(a: Seq<char>, s: Seq<char>)
    requires
        a.no_duplicates(),
    ensures
        add_chars(a, s).no_duplicates(),
        add_chars(a, s).to_set() == a.to_set() + s.to_set(),
    decreases s.len(),
{
    if s.len() == 0 {
        assert(s.to_set() =~= Set::<char>::empty());
        assert(a.to_set() + s.to_set() =~= a.to_set());
    } else {
        let init = s.drop_last();
        lemma_add_chars_props(a, init);
        let b = add_chars(a, init);
        assert(s == init.push(s.last()));
        lemma_push_to_set(init, s.last());
        if b.contains(s.last()) {
            assert(b.to_set().contains(s.last()));
            assert(b.to_set() =~= a.to_set() + s.to_set());
        } else {
            lemma_push_to_set(b, s.last());
            assert(b.push(s.last()).to_set() =~= a.to_set() + s.to_set());
            assert forall|i: int, j: int| 0 <= i < j < b.push(s.last()).len() implies b.push(
                s.last(),
            )[i] != b.push(s.last())[j] by {
                if j == b.len() {
                    assert(b.push(s.last())[i] == b[i]);
                }
            }
        }
    }
}

proof fn lemma_concat_to_set(a: Seq<char>, b: Seq<char>)
    ensures
        (a + b).to_set() == a.to_set() + b.to_set(),
{
    assert forall|c: char| #[trigger] (a + b).to_set().contains(c) == (a.to_set() + b.to_set()).contains(c) by {
        if (a + b).to_set().contains(c) {
            let i = choose|i: int| 0 <= i < (a + b).len() && (a + b)[i] == c;
            if i < a.len() {
                assert(a[i] == c);
            } else {
                assert(b[i - a.len()] == c);
            }
        }
        if a.to_set().contains(c) {
            let i = choose|i: int| 0 <= i < a.len() && a[i] == c;
            assert((a + b)[i] == c);
        } else if b.to_set().contains(c) {
            let i = choose|i: int| 0 <= i < b.len() && b[i] == c;
            assert((a + b)[a.len() + i] == c);
        }
    }
    assert((a + b).to_set() =~= a.to_set() + b.to_set());
}

proof fn lemma_leaf_chars_set(node: RegexNode)
    ensures
        leaf_chars(node).to_set() == chars_of(node),
    decreases node,
{
    match node {
        RegexNode::Cat(l, r) | RegexNode::Or(l, r) => {
            lemma_leaf_chars_set(*l);
            lemma_leaf_chars_set(*r);
            assert(leaf_chars(node) =~= leaf_chars(*l) + leaf_chars(*r));
            lemma_concat_to_set(leaf_chars(*l), leaf_chars(*r));
        },
        RegexNode::Parenthesized(c) | RegexNode::Kleene(c) => {
            lemma_leaf_chars_set(*c);
        },
        RegexNode::Terminal(t) => {
            assert(leaf_chars(node) =~= seq![t.ch]);
            lemma_push_to_set(Seq::<char>::empty(), t.ch);
            assert(seq![t.ch] =~= Seq::<char>::empty().push(t.ch));
            assert(Seq::<char>::empty().to_set() =~= Set::<char>::empty());
            assert(set![t.ch] =~= Set::<char>::empty().insert(t.ch));
        },
    }
}

/// The alphabet of a tree holds each character of the leaves of its body exactly once, and
/// no other character: for every pattern the parser accepts, the alphabet is the set of its
/// literal characters and of the characters that its classes stand for.
pub proof fn lemma_alphabet_is_leaf_chars(tree: RegexNode)
    ensures
        alphabet_of(tree).no_duplicates(),
        alphabet_of(tree).to_set() == chars_of(body(tree)),
{
    lemma_add_chars_props(seq![], leaf_chars(body(tree)));
    lemma_leaf_chars_set(body(tree));
    assert(Seq::<char>::empty().to_set() =~= Set::<char>::empty());
    assert(Set::<char>::empty() + chars_of(body(tree)) =~= chars_of(body(tree)));
}

pub proof fn lemma_add_chars_concat(a: Seq<char>, s1: Seq<char>, s2: Seq<char>)
    ensures
        add_chars(a, s1 + s2) == add_chars(add_chars(a, s1), s2),
    decreases s2.len(),
{
    if s2.len() == 0 {
        assert(s1 + s2 =~= s1);
    } else {
        lemma_add_chars_concat(a, s1, s2.drop_last());
        assert((s1 + s2).drop_last() =~= s1 + s2.drop_last());
    }
}

/// The leaves carry the positions `start`, `start + 1`, ... in order.
pub open spec fn numbered(s: Seq<RegexTerminal>, start: int) -> bool {
    forall|i: int| 0 <= i < s.len() ==> #[trigger] s[i].pos == start + i
}

/// A tree as the parser hands it out: a body followed by the sentinel leaf, with the
/// leaves numbered from zero.
pub open spec fn is_augmented(tree: RegexNode) -> bool {
    &&& tree matches RegexNode::Cat(_, r) && *r == RegexNode::Terminal(
        RegexTerminal { pos: (leaves(tree).len() - 1) as usize, ch: SENTINEL },
    )
    &&& numbered(leaves(tree), 0)
}

/// The part of an augmented tree before the sentinel.
pub open spec fn body(tree: RegexNode) -> RegexNode {
    match tree {
        RegexNode::Cat(l, _) => *l,
        _ => tree,
    }
}

/// The position of the sentinel leaf in an augmented tree.
pub open spec fn sentinel_pos(tree: RegexNode) -> int {
    leaves(tree).len() - 1
}

/// The characters that `\\d` stands for, in the order of its alternatives.
pub open spec fn digit_chars() -> Seq<char> {
    seq!['0','1','2','3','4','5','6','7','8','9']
}

/// The characters that `\\w` stands for, in the order of its alternatives.
pub open spec fn lowercase_chars() -> Seq<char> {
    seq!['a','b','c','d','e','f','g','h','i','j','k','l','m','n','o','p','q','r','s','t','u','v','w','x','y','z']
}

pub open spec fn digits() -> Set<char> {
    digit_chars().to_set()
}

pub open spec fn lowercase_letters() -> Set<char> {
    lowercase_chars().to_set()
}

pub proof fn lemma_push_to_set<A>(s: Seq<A>, x: A)
    ensures
        s.push(x).to_set() == s.to_set().insert(x),
{
    assert forall|c: A| #[trigger] s.push(x).to_set().contains(c) implies s.to_set().insert(x).contains(c) by {
        let j = choose|j: int| 0 <= j < s.push(x).len() && s.push(x)[j] == c;
        if j < s.len() {
            assert(s[j] == c);
        }
    }
    assert forall|c: A| #[trigger] s.to_set().insert(x).contains(c) implies s.push(x).to_set().contains(c) by {
        if c == x {
            assert(s.push(x)[s.len() as int] == c);
        } else {
            let j = choose|j: int| 0 <= j < s.len() && s[j] == c;
            assert(s.push(x)[j] == c);
        }
    }
    assert(s.push(x).to_set() =~= s.to_set().insert(x));
}

fn digit_char(i: u8) -> (c: char)
    requires
        i < 10,
    ensures
        c == digit_chars()[i as int],
{
    match i {
        0 => '0',
        1 => '1',
        2 => '2',
        3 => '3',
        4 => '4',
        5 => '5',
        6 => '6',
        7 => '7',
        8 => '8',
        _ => '9',
    }
}

fn lowercase_char(i: u8) -> (c: char)
    requires
        i < 26,
    ensures
        c == lowercase_chars()[i as int],
{
    match i {
        0 => 'a',
        1 => 'b',
        2 => 'c',
        3 => 'd',
        4 => 'e',
        5 => 'f',
        6 => 'g',
        7 => 'h',
        8 => 'i',
        9 => 'j',
        10 => 'k',
        11 => 'l',
        12 => 'm',
        13 => 'n',
        14 => 'o',
        15 => 'p',
        16 => 'q',
        17 => 'r',
        18 => 's',
        19 => 't',
        20 => 'u',
        21 => 'v',
        22 => 'w',
        23 => 'x',
        24 => 'y',
        _ => 'z',
    }
}

/// The messages with which a pattern is refused.
pub open spec fn is_parse_error(m: Seq<char>) -> bool {
    ||| m == bad_escape_message()
    ||| m == "Expected EOF"@
    ||| m == "Expected closing right parenthesis"@
    ||| m == "Expected (special) character"@
}

/// The outcome of parsing a part of a pattern: the tree, where the next token starts, and
/// the next free position; or the message of the failure.
pub type Parsed = Result<(RegexNode, int, int), Seq<char>>;

/// The alternation of the leaves for the first `k` characters of `chars`, numbered from `n`.
pub open spec fn class_tree(chars: Seq<char>, n: int, k: nat) -> RegexNode
    decreases k,
{
    if k <= 1 {
        RegexNode::Terminal(RegexTerminal { pos: n as usize, ch: chars[0] })
    } else {
        RegexNode::Or(
            Box::new(class_tree(chars, n, (k - 1) as nat)),
            Box::new(RegexNode::Terminal(RegexTerminal { pos: (n + k - 1) as usize, ch: chars[k - 1] })),
        )
    }
}

/// A leaf: a character, or the alternation that `\\d` or `\\w` stands for.
pub open spec fn parse_leaf(p: Seq<char>, c: int, n: int) -> Parsed {
    match scan_token(p, c) {
        (None, _) => Err(bad_escape_message()),
        (Some(Token::Char(ch)), c2) => Ok(
            (RegexNode::Terminal(RegexTerminal { pos: n as usize, ch }), c2, n + 1),
        ),
        (Some(Token::Special(SpecialToken::Number)), c2) => Ok(
            (class_tree(digit_chars(), n, 10), c2, n + 10),
        ),
        (Some(Token::Special(SpecialToken::Lowercase)), c2) => Ok(
            (class_tree(lowercase_chars(), n, 26), c2, n + 26),
        ),
        (Some(_), _) => Err("Expected (special) character"@),
    }
}

/// A group in parentheses, or a leaf.
pub open spec fn parse_group(p: Seq<char>, c: int, n: int) -> Parsed
    decreases p.len() - c, 1nat,
{
    match scan_token(p, c) {
        (None, _) => Err(bad_escape_message()),
        (Some(Token::LeftParen), c2) => if c < c2 {
            match parse_alternation(p, c2, n) {
                Err(e) => Err(e),
                Ok((t, c3, n3)) => match scan_token(p, c3) {
                    (None, _) => Err(bad_escape_message()),
                    (Some(Token::RightParen), c4) => Ok(
                        (RegexNode::Parenthesized(Box::new(t)), c4, n3),
                    ),
                    (Some(_), _) => Err("Expected closing right parenthesis"@),
                },
            }
        } else {
            Err(bad_escape_message())
        },
        (Some(_), _) => parse_leaf(p, c, n),
    }
}

/// A group or leaf, repeated where a star follows.
pub open spec fn parse_repetition(p: Seq<char>, c: int, n: int) -> Parsed
    decreases p.len() - c, 2nat,
{
    match parse_group(p, c, n) {
        Err(e) => Err(e),
        Ok((t, c1, n1)) => match scan_token(p, c1) {
            (None, _) => Err(bad_escape_message()),
            (Some(Token::Star), c2) => Ok((RegexNode::Kleene(Box::new(t)), c2, n1)),
            (Some(_), _) => Ok((t, c1, n1)),
        },
    }
}

/// Tokens that end a concatenation.
pub open spec fn ends_concatenation(t: Token) -> bool {
    t == Token::Or || t == Token::End || t == Token::RightParen
}

/// The rest of a concatenation whose first terms are `acc`.
pub open spec fn concatenation_rest(p: Seq<char>, c: int, n: int, acc: RegexNode) -> Parsed
    decreases p.len() - c, 3nat,
{
    match scan_token(p, c) {
        (None, _) => Err(bad_escape_message()),
        (Some(t), _) => if ends_concatenation(t) {
            Ok((acc, c, n))
        } else {
            match parse_repetition(p, c, n) {
                Err(e) => Err(e),
                Ok((t3, c3, n3)) => if c < c3 <= p.len() {
                    concatenation_rest(p, c3, n3, RegexNode::Cat(Box::new(acc), Box::new(t3)))
                } else {
                    Err(bad_escape_message())
                },
            }
        },
    }
}

/// A concatenation of one or more terms.
pub open spec fn parse_concatenation(p: Seq<char>, c: int, n: int) -> Parsed
    decreases p.len() - c, 4nat,
{
    match parse_repetition(p, c, n) {
        Err(e) => Err(e),
        Ok((t, c1, n1)) => if c < c1 <= p.len() {
            concatenation_rest(p, c1, n1, t)
        } else {
            Err(bad_escape_message())
        },
    }
}

/// The rest of an alternation whose first branches are `acc`.
pub open spec fn alternation_rest(p: Seq<char>, c: int, n: int, acc: RegexNode) -> Parsed
    decreases p.len() - c, 5nat,
{
    match scan_token(p, c) {
        (None, _) => Err(bad_escape_message()),
        (Some(Token::Or), c2) => if c < c2 {
            match parse_concatenation(p, c2, n) {
                Err(e) => Err(e),
                Ok((t2, c3, n3)) => if c2 < c3 <= p.len() {
                    alternation_rest(p, c3, n3, RegexNode::Or(Box::new(acc), Box::new(t2)))
                } else {
                    Err(bad_escape_message())
                },
            }
        } else {
            Err(bad_escape_message())
        },
        (Some(_), _) => Ok((acc, c, n)),
    }
}

/// An alternation of one or more concatenations.
pub open spec fn parse_alternation(p: Seq<char>, c: int, n: int) -> Parsed
    decreases p.len() - c, 6nat,
{
    match parse_concatenation(p, c, n) {
        Err(e) => Err(e),
        Ok((t, c1, n1)) => if c < c1 <= p.len() {
            alternation_rest(p, c1, n1, t)
        } else {
            Err(bad_escape_message())
        },
    }
}

/// The augmented tree of a whole pattern, or the message with which it is refused.
pub open spec fn parse_pattern(p: Seq<char>) -> Result<RegexNode, Seq<char>> {
    match parse_alternation(p, 0, 0) {
        Err(e) => Err(e),
        Ok((t, c, n)) => match scan_token(p, c) {
            (None, _) => Err(bad_escape_message()),
            (Some(Token::End), _) => Ok(
                RegexNode::Cat(
                    Box::new(t),
                    Box::new(RegexNode::Terminal(RegexTerminal { pos: n as usize, ch: SENTINEL })),
                ),
            ),
            (Some(_), _) => Err("Expected EOF"@),
        },
    }
}

pub proof fn lemma_numbered_concat(a: Seq<RegexTerminal>, b: Seq<RegexTerminal>, start: int)
    requires
        numbered(a, start),
        numbered(b, start + a.len()),
    ensures
        numbered(a + b, start),
{
    assert forall|i: int| 0 <= i < (a + b).len() implies #[trigger] (a + b)[i].pos == start + i by {
        if i < a.len() {
            assert((a + b)[i] == a[i]);
        } else {
            assert((a + b)[i] == b[i - a.len()]);
        }
    }
}

/// Parses a pattern into its augmented tree and its alphabet.
pub fn parse_regex(pattern: &str) -> (r: Result<(RegexNode, Vec<char>), String>)
    requires
        13 * pattern@.len() + 1 <= usize::MAX,
    ensures
        r is Ok ==> {
            let (tree, alphabet) = r->Ok_0;
            &&& is_augmented(tree)
            &&& leaves(tree).len() <= usize::MAX
            &&& alphabet@.no_duplicates()
            &&& alphabet@.to_set() == chars_of(body(tree))
            &&& alphabet@ == alphabet_of(tree)
        },
        r is Err ==> is_parse_error(r->Err_0@),
        match parse_pattern(pattern@) {
            Ok(tree) => r is Ok && r->Ok_0.0 == tree,
            Err(m) => r is Err && r->Err_0@ == m,
        },
{
    let parser = RegexParser::new(pattern);
    parser.parse()
}

struct RegexParser {
    lexer: Lexer,
    current_pos: usize,
    alphabet: Vec<char>,
}

impl RegexParser {
    spec fn inv(&self) -> bool {
        &&& self.lexer.wf()
        &&& self.alphabet@.no_duplicates()
        &&& self.current_pos <= 13 * self.lexer.position()
        &&& 13 * self.lexer.text().len() + 1 <= usize::MAX
    }

    /// The step from `old` to `new` returned `r` as `expected` says.
    spec fn follows(old: &Self, new: &Self, r: Result<RegexNode, String>, expected: Parsed) -> bool {
        match expected {
            Ok((t, c, n)) => r == Ok::<RegexNode, String>(t) && new.lexer.position() == c
                && new.current_pos == n,
            Err(m) => r is Err && r->Err_0@ == m,
        }
    }

    /// What a parsing step that returned `r` from `old` to `new` has done.
    spec fn step(old: &Self, new: &Self, r: RegexNode) -> bool {
        &&& numbered(leaves(r), old.current_pos as int)
        &&& leaves(r).len() == new.current_pos - old.current_pos
        &&& new.alphabet@.to_set() == old.alphabet@.to_set() + chars_of(r)
        &&& new.alphabet@ == add_chars(old.alphabet@, leaf_chars(r))
        &&& new.lexer.rest() < old.lexer.rest()
    }

    fn new(pattern: &str) -> (r: Self)
        requires
            13 * pattern@.len() + 1 <= usize::MAX,
        ensures
            r.inv(),
            r.current_pos == 0,
            r.lexer.position() == 0,
            r.lexer.text() == pattern@,
            r.alphabet@.len() == 0,
    {
        let lexer = Lexer::new(pattern);
        Self { lexer, current_pos: 0, alphabet: Vec::new() }
    }

    fn parse(self) -> (r: Result<(RegexNode, Vec<char>), String>)
        requires
            self.inv(),
            self.current_pos == 0,
            self.lexer.position() == 0,
            self.alphabet@.len() == 0,
        ensures
            r is Ok ==> {
                let (tree, alphabet) = r->Ok_0;
                &&& is_augmented(tree)
                &&& leaves(tree).len() <= usize::MAX
                &&& alphabet@.no_duplicates()
                &&& alphabet@.to_set() == chars_of(body(tree))
                &&& alphabet@ == alphabet_of(tree)
                },
            r is Err ==> is_parse_error(r->Err_0@),
            match parse_pattern(self.lexer.text()) {
                Ok(tree) => r is Ok && r->Ok_0.0 == tree,
                Err(m) => r is Err && r->Err_0@ == m,
            },
    {
        let mut parser = self;
        let ghost start = parser;
        let p1 = parser.p1()?;
        let t = parser.lexer.peek()?;
        if t != Token::End {
            proof {
                reveal_strlit("Expected EOF");
            }
            return Err("Expected EOF".to_string());
        }
        proof {
            parser.lexer.lemma_position_bound();
            assert(start.alphabet@.to_set() =~= Set::empty());
            assert(start.alphabet@ =~= seq![]);
            assert(parser.alphabet@.to_set() =~= chars_of(p1));
        }
        let tree = parser.augment(p1);
        Ok((tree, parser.alphabet))
    }

    fn p1(&mut self) -> (r: Result<RegexNode, String>)
        requires
            old(self).inv(),
        ensures
            final(self).inv(),
            Self::follows(
                old(self),
                final(self),
                r,
                parse_alternation(old(self).lexer.text(), old(self).lexer.position(), old(self).current_pos as int),
            ),
            final(self).lexer.text() == old(self).lexer.text(),
            r is Ok ==> Self::step(old(self), final(self), r->Ok_0),
            r is Err ==> is_parse_error(r->Err_0@),
        decreases old(self).lexer.rest(), 4nat,
    {
        let ghost start = *self;
        let mut p1 = self.p2()?;
        proof {
            self.lexer.lemma_position_bound();
        }
        loop
            invariant
                self.inv(),
                start == *old(self),
                self.lexer.text() == start.lexer.text(),
                Self::step(&start, self, p1),
                parse_alternation(start.lexer.text(), start.lexer.position(), start.current_pos as int)
                    == alternation_rest(self.lexer.text(), self.lexer.position(), self.current_pos as int, p1),
            decreases self.lexer.rest(),
        {
            let t = self.lexer.peek()?;
            if t != Token::Or {
                return Ok(p1);
            }
            let ghost mid = *self;
            let _ = self.lexer.next()?;
            proof {
                self.lexer.lemma_position_bound();
            }
            let ghost after_or = *self;
            let p2 = self.p2()?;
            proof {
                lemma_add_chars_concat(start.alphabet@, leaf_chars(p1), leaf_chars(p2));
                lemma_numbered_concat(leaves(p1), leaves(p2), start.current_pos as int);
                assert(self.alphabet@.to_set() =~= start.alphabet@.to_set() + (chars_of(p1)
                    + chars_of(p2)));
            }
            p1 = Self::or(p1, p2);
            proof {
                self.lexer.lemma_position_bound();
            }
        }
    }

    fn p2(&mut self) -> (r: Result<RegexNode, String>)
        requires
            old(self).inv(),
        ensures
            final(self).inv(),
            Self::follows(
                old(self),
                final(self),
                r,
                parse_concatenation(old(self).lexer.text(), old(self).lexer.position(), old(self).current_pos as int),
            ),
            final(self).lexer.text() == old(self).lexer.text(),
            r is Ok ==> Self::step(old(self), final(self), r->Ok_0),
            r is Err ==> is_parse_error(r->Err_0@),
        decreases old(self).lexer.rest(), 3nat,
    {
        let ghost start = *self;
        let mut p2 = self.p3()?;
        proof {
            self.lexer.lemma_position_bound();
        }
        loop
            invariant
                self.inv(),
                start == *old(self),
                self.lexer.text() == start.lexer.text(),
                Self::step(&start, self, p2),
                parse_concatenation(start.lexer.text(), start.lexer.position(), start.current_pos as int)
                    == concatenation_rest(self.lexer.text(), self.lexer.position(), self.current_pos as int, p2),
            decreases self.lexer.rest(),
        {
            let t = self.lexer.peek()?;
            if Self::is_in_follow_p2(t) {
                return Ok(p2);
            }
            let p3 = self.p3()?;
            proof {
                lemma_add_chars_concat(start.alphabet@, leaf_chars(p2), leaf_chars(p3));
                lemma_numbered_concat(leaves(p2), leaves(p3), start.current_pos as int);
                assert(self.alphabet@.to_set() =~= start.alphabet@.to_set() + (chars_of(p2)
                    + chars_of(p3)));
            }
            p2 = Self::cat(p2, p3);
            proof {
                self.lexer.lemma_position_bound();
            }
        }
    }

    fn p3(&mut self) -> (r: Result<RegexNode, String>)
        requires
            old(self).inv(),
        ensures
            final(self).inv(),
            Self::follows(
                old(self),
                final(self),
                r,
                parse_repetition(old(self).lexer.text(), old(self).lexer.position(), old(self).current_pos as int),
            ),
            final(self).lexer.text() == old(self).lexer.text(),
            r is Ok ==> Self::step(old(self), final(self), r->Ok_0),
            r is Err ==> is_parse_error(r->Err_0@),
        decreases old(self).lexer.rest(), 2nat,
    {
        let mut p3 = self.p4()?;
        let t = self.lexer.peek()?;
        if t == Token::Star {
            let _ = self.lexer.next();
            p3 = Self::kleene(p3);
        }
        Ok(p3)
    }

    fn p4(&mut self) -> (r: Result<RegexNode, String>)
        requires
            old(self).inv(),
        ensures
            final(self).inv(),
            Self::follows(
                old(self),
                final(self),
                r,
                parse_group(old(self).lexer.text(), old(self).lexer.position(), old(self).current_pos as int),
            ),
            final(self).lexer.text() == old(self).lexer.text(),
            r is Ok ==> Self::step(old(self), final(self), r->Ok_0),
            r is Err ==> is_parse_error(r->Err_0@),
        decreases old(self).lexer.rest(), 1nat,
    {
        let t = self.lexer.peek()?;
        if t == Token::LeftParen {
            let _ = self.lexer.next()?;
            proof {
                self.lexer.lemma_position_bound();
            }
            let p1 = self.p1()?;
            let t = self.lexer.peek()?;
            if t != Token::RightParen {
                proof {
                    reveal_strlit("Expected closing right parenthesis");
                }
                return Err("Expected closing right parenthesis".to_string());
            }
            let _ = self.lexer.next()?;
            Ok(Self::parenthesized(p1))
        } else {
            self.p5()
        }
    }

    fn p5(&mut self) -> (r: Result<RegexNode, String>)
        requires
            old(self).inv(),
        ensures
            final(self).inv(),
            Self::follows(
                old(self),
                final(self),
                r,
                parse_leaf(old(self).lexer.text(), old(self).lexer.position(), old(self).current_pos as int),
            ),
            final(self).lexer.text() == old(self).lexer.text(),
            r is Ok ==> Self::step(old(self), final(self), r->Ok_0),
            r is Err ==> is_parse_error(r->Err_0@),
    {
        proof {
            self.lexer.lemma_position_bound();
        }
        let ghost before = *self;
        let t = self.lexer.next()?;
        proof {
            self.lexer.lemma_position_bound();
        }
        match t {
            Token::Char(ch) => {
                assert(self.lexer.position() >= before.lexer.position() + 1);
                let leaf = self.single_char(ch);
                assert(self.alphabet@.to_set() =~= before.alphabet@.to_set() + chars_of(leaf));
                Ok(leaf)
            },
            Token::Special(SpecialToken::Number) => {
                assert(self.lexer.position() == before.lexer.position() + 2);
                Ok(self.number())
            },
            Token::Special(SpecialToken::Lowercase) => {
                assert(self.lexer.position() == before.lexer.position() + 2);
                Ok(self.lowercase())
            },
            _ => {
                proof {
                    reveal_strlit("Expected (special) character");
                }
                Err("Expected (special) character".to_string())
            },
        }
    }

    fn is_in_follow_p2(token: Token) -> (r: bool)
        ensures
            r == (token == Token::Or || token == Token::End || token == Token::RightParen),
    {
        token == Token::Or || token == Token::End || token == Token::RightParen
    }

    fn augment(&mut self, node: RegexNode) -> (r: RegexNode)
        requires
            old(self).current_pos < usize::MAX,
            numbered(leaves(node), 0),
            leaves(node).len() == old(self).current_pos,
        ensures
            is_augmented(r),
            body(r) == node,
            r == RegexNode::Cat(
                Box::new(node),
                Box::new(RegexNode::Terminal(RegexTerminal { pos: old(self).current_pos, ch: SENTINEL })),
            ),
            leaves(r).len() == final(self).current_pos,
            final(self).alphabet == old(self).alphabet,
    {
        let sentinel = RegexNode::terminal(SENTINEL, self.current_pos);
        self.current_pos += 1;
        proof {
            lemma_numbered_concat(leaves(node), leaves(sentinel), 0);
        }
        Self::cat(node, sentinel)
    }

    fn add_to_alphabet(&mut self, ch: char)
        requires
            old(self).alphabet@.no_duplicates(),
        ensures
            final(self).alphabet@.no_duplicates(),
            final(self).alphabet@.to_set() == old(self).alphabet@.to_set().insert(ch),
            final(self).alphabet@ == add_char(old(self).alphabet@, ch),
            final(self).lexer == old(self).lexer,
            final(self).current_pos == old(self).current_pos,
    {
        let mut i: usize = 0;
        while i < self.alphabet.len()
            invariant
                0 <= i <= self.alphabet@.len(),
                forall|j: int| 0 <= j < i ==> self.alphabet@[j] != ch,
                *self == *old(self),
                old(self).alphabet@.no_duplicates(),
            decreases self.alphabet@.len() - i,
        {
            if self.alphabet[i] == ch {
                proof {
                    assert(self.alphabet@.contains(ch));
                    assert(self.alphabet@.to_set().contains(ch));
                    assert(self.alphabet@.to_set().insert(ch) =~= self.alphabet@.to_set());
                }
                return;
            }
            i += 1;
        }
        let ghost before = self.alphabet@;
        assert(!before.contains(ch));
        self.alphabet.push(ch);
        proof {
            assert(self.alphabet@ == before.push(ch));
            assert(self.alphabet@.to_set() =~= before.to_set().insert(ch)) by {
                assert forall|c: char| #[trigger] self.alphabet@.to_set().contains(c) implies before.to_set().insert(ch).contains(c) by {
                    let j = choose|j: int| 0 <= j < self.alphabet@.len() && self.alphabet@[j] == c;
                    if j < before.len() {
                        assert(before[j] == c);
                    }
                }
                assert forall|c: char| #[trigger] before.to_set().insert(ch).contains(c) implies self.alphabet@.to_set().contains(c) by {
                    if c == ch {
                        assert(self.alphabet@[before.len() as int] == c);
                    } else {
                        let j = choose|j: int| 0 <= j < before.len() && before[j] == c;
                        assert(self.alphabet@[j] == c);
                    }
                }
            }
        }
    }

    fn number(&mut self) -> (r: RegexNode)
        requires
            old(self).alphabet@.no_duplicates(),
            old(self).current_pos + 10 < usize::MAX,
        ensures
            final(self).alphabet@.no_duplicates(),
            final(self).alphabet@.to_set() == old(self).alphabet@.to_set() + digits(),
            final(self).alphabet@ == add_chars(old(self).alphabet@, leaf_chars(r)),
            final(self).lexer == old(self).lexer,
            final(self).current_pos == old(self).current_pos + 10,
            numbered(leaves(r), old(self).current_pos as int),
            r == class_tree(digit_chars(), old(self).current_pos as int, 10),
            leaves(r).len() == 10,
            chars_of(r) == digits(),
    {
        let ghost start = *self;
        let mut node = self.single_char('0');
        proof {
            lemma_push_to_set(Seq::<char>::empty(), '0');
            assert(digit_chars().take(1) =~= Seq::<char>::empty().push('0'));
            assert(Seq::<char>::empty().to_set() =~= Set::empty());
        }
        let mut i: u8 = 1;
        while i < 10
            invariant
                1 <= i <= 10,
                start.current_pos + 10 < usize::MAX,
                self.alphabet@.no_duplicates(),
                self.lexer == start.lexer,
                self.current_pos == start.current_pos + i,
                numbered(leaves(node), start.current_pos as int),
                node == class_tree(digit_chars(), start.current_pos as int, i as nat),
                self.alphabet@ == add_chars(start.alphabet@, leaf_chars(node)),
                leaves(node).len() == i,
                chars_of(node) == digit_chars().take(i as int).to_set(),
                self.alphabet@.to_set() == start.alphabet@.to_set() + chars_of(node),
            decreases 10 - i,
        {
            let ch = digit_char(i);
            let leaf = self.single_char(ch);
            proof {
                assert(digit_chars().take(i + 1) =~= digit_chars().take(i as int).push(ch));
                lemma_push_to_set(digit_chars().take(i as int), ch);
                lemma_numbered_concat(leaves(node), leaves(leaf), start.current_pos as int);
            }
            proof {
                lemma_add_chars_concat(start.alphabet@, leaf_chars(node), leaf_chars(leaf));
            }
            node = Self::or(node, leaf);
            proof {
                assert(self.alphabet@.to_set() =~= start.alphabet@.to_set() + chars_of(node));
            }
            i += 1;
        }
        proof {
            assert(digit_chars().take(10) =~= digit_chars());
        }
        node
    }

    fn lowercase(&mut self) -> (r: RegexNode)
        requires
            old(self).alphabet@.no_duplicates(),
            old(self).current_pos + 26 < usize::MAX,
        ensures
            final(self).alphabet@.no_duplicates(),
            final(self).alphabet@.to_set() == old(self).alphabet@.to_set() + lowercase_letters(),
            final(self).alphabet@ == add_chars(old(self).alphabet@, leaf_chars(r)),
            final(self).lexer == old(self).lexer,
            final(self).current_pos == old(self).current_pos + 26,
            numbered(leaves(r), old(self).current_pos as int),
            r == class_tree(lowercase_chars(), old(self).current_pos as int, 26),
            leaves(r).len() == 26,
            chars_of(r) == lowercase_letters(),
    {
        let ghost start = *self;
        let mut node = self.single_char('a');
        proof {
            lemma_push_to_set(Seq::<char>::empty(), 'a');
            assert(lowercase_chars().take(1) =~= Seq::<char>::empty().push('a'));
            assert(Seq::<char>::empty().to_set() =~= Set::empty());
        }
        let mut i: u8 = 1;
        while i < 26
            invariant
                1 <= i <= 26,
                start.current_pos + 26 < usize::MAX,
                self.alphabet@.no_duplicates(),
                self.lexer == start.lexer,
                self.current_pos == start.current_pos + i,
                numbered(leaves(node), start.current_pos as int),
                node == class_tree(lowercase_chars(), start.current_pos as int, i as nat),
                self.alphabet@ == add_chars(start.alphabet@, leaf_chars(node)),
                leaves(node).len() == i,
                chars_of(node) == lowercase_chars().take(i as int).to_set(),
                self.alphabet@.to_set() == start.alphabet@.to_set() + chars_of(node),
            decreases 26 - i,
        {
            let ch = lowercase_char(i);
            let leaf = self.single_char(ch);
            proof {
                assert(lowercase_chars().take(i + 1) =~= lowercase_chars().take(i as int).push(ch));
                lemma_push_to_set(lowercase_chars().take(i as int), ch);
                lemma_numbered_concat(leaves(node), leaves(leaf), start.current_pos as int);
            }
            proof {
                lemma_add_chars_concat(start.alphabet@, leaf_chars(node), leaf_chars(leaf));
            }
            node = Self::or(node, leaf);
            proof {
                assert(self.alphabet@.to_set() =~= start.alphabet@.to_set() + chars_of(node));
            }
            i += 1;
        }
        proof {
            assert(lowercase_chars().take(26) =~= lowercase_chars());
        }
        node
    }

    fn single_char(&mut self, ch: char) -> (r: RegexNode)
        requires
            old(self).alphabet@.no_duplicates(),
            old(self).current_pos < usize::MAX,
        ensures
            final(self).alphabet@.no_duplicates(),
            final(self).alphabet@.to_set() == old(self).alphabet@.to_set().insert(ch),
            final(self).alphabet@ == add_chars(old(self).alphabet@, leaf_chars(r)),
            final(self).lexer == old(self).lexer,
            final(self).current_pos == old(self).current_pos + 1,
            r == RegexNode::Terminal(RegexTerminal { pos: old(self).current_pos, ch }),
            numbered(leaves(r), old(self).current_pos as int),
            leaves(r).len() == 1,
            chars_of(r) == set![ch],
    {
        let ghost before = self.alphabet@;
        let leaf = RegexNode::terminal(ch, self.current_pos);
        self.current_pos += 1;
        self.add_to_alphabet(ch);
        proof {
            assert(leaf_chars(leaf) =~= seq![ch]);
            assert(leaf_chars(leaf).drop_last() =~= Seq::<char>::empty());
            assert(add_chars(before, Seq::<char>::empty()) == before);
            assert(add_chars(before, leaf_chars(leaf)) == add_char(
                add_chars(before, leaf_chars(leaf).drop_last()),
                leaf_chars(leaf).last(),
            ));
        }
        leaf
    }

    fn cat(left: RegexNode, right: RegexNode) -> (r: RegexNode)
        ensures
            r == RegexNode::Cat(Box::new(left), Box::new(right)),
            leaves(r) == leaves(left) + leaves(right),
            leaf_chars(r) == leaf_chars(left) + leaf_chars(right),
            chars_of(r) == chars_of(left) + chars_of(right),
    {
        let r = RegexNode::Cat(Box::new(left), Box::new(right));
        assert(leaf_chars(r) =~= leaf_chars(left) + leaf_chars(right));
        r
    }

    fn or(left: RegexNode, right: RegexNode) -> (r: RegexNode)
        ensures
            r == RegexNode::Or(Box::new(left), Box::new(right)),
            leaves(r) == leaves(left) + leaves(right),
            leaf_chars(r) == leaf_chars(left) + leaf_chars(right),
            chars_of(r) == chars_of(left) + chars_of(right),
    {
        let r = RegexNode::Or(Box::new(left), Box::new(right));
        assert(leaf_chars(r) =~= leaf_chars(left) + leaf_chars(right));
        r
    }

    fn parenthesized(node: RegexNode) -> (r: RegexNode)
        ensures
            r == RegexNode::Parenthesized(Box::new(node)),
            leaves(r) == leaves(node),
            chars_of(r) == chars_of(node),
    {
        RegexNode::Parenthesized(Box::new(node))
    }

    fn kleene(node: RegexNode) -> (r: RegexNode)
        ensures
            r == RegexNode::Kleene(Box::new(node)),
            leaves(r) == leaves(node),
            chars_of(r) == chars_of(node),
    {
        RegexNode::Kleene(Box::new(node))
    }
}

impl RegexNode {
    /// A leaf carrying `ch` at position `pos`.
    pub fn terminal(ch: char, pos: usize) -> (r: Self)
        ensures
            r == RegexNode::Terminal(RegexTerminal { pos, ch }),
    {
        let terminal = RegexTerminal { ch, pos };
        Self::Terminal(terminal)
    }
}

} // verus!
