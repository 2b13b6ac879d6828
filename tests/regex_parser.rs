use std::collections::HashSet;

use jlek::regex_parser::lexer::{Lexer, SpecialToken, Token};
use jlek::regex_parser::{RegexNode, RegexTerminal, parse_regex};

#[test]
fn regex_parser_main() {
    let (_, alphabet) = parse_regex("a(bc)*|\\d").unwrap();
    assert_eq!(
        alphabet.into_iter().collect::<HashSet<char>>(),
        HashSet::from([
            'a', 'b', 'c', '0', '1', '2', '3', '4', '5', '6', '7', '8', '9'
        ])
    );
}

#[test]
fn lexer_main() {
    let mut lexer = Lexer::new("a(bc)");
    assert_eq!(lexer.next().unwrap(), Token::Char('a'));
    assert_eq!(lexer.next().unwrap(), Token::LeftParen);
    assert_eq!(lexer.next().unwrap(), Token::Char('b'));
    assert_eq!(lexer.next().unwrap(), Token::Char('c'));
    assert_eq!(lexer.next().unwrap(), Token::RightParen);
    assert_eq!(lexer.next().unwrap(), Token::End);
}

#[test]
fn pattern_lexer_end_repeats() {
    let mut lexer = Lexer::new("");
    assert_eq!(lexer.next().unwrap(), Token::End);
    assert_eq!(lexer.peek().unwrap(), Token::End);
    assert_eq!(lexer.next().unwrap(), Token::End);
}

#[test]
fn pattern_lexer_escapes() {
    let mut lexer = Lexer::new("\\*\\|\\(\\)\\\\\\d\\w*|");
    assert_eq!(lexer.next().unwrap(), Token::Char('*'));
    assert_eq!(lexer.next().unwrap(), Token::Char('|'));
    assert_eq!(lexer.next().unwrap(), Token::Char('('));
    assert_eq!(lexer.next().unwrap(), Token::Char(')'));
    assert_eq!(lexer.next().unwrap(), Token::Char('\\'));
    assert_eq!(lexer.next().unwrap(), Token::Special(SpecialToken::Number));
    assert_eq!(lexer.peek().unwrap(), Token::Special(SpecialToken::Lowercase));
    assert_eq!(lexer.next().unwrap(), Token::Special(SpecialToken::Lowercase));
    assert_eq!(lexer.next().unwrap(), Token::Star);
    assert_eq!(lexer.next().unwrap(), Token::Or);
    assert_eq!(lexer.next().unwrap(), Token::End);
}

#[test]
fn pattern_lexer_bad_escape() {
    let mut lexer = Lexer::new("\\x");
    assert_eq!(
        lexer.next().err().unwrap(),
        "Error while parsing special character"
    );
}

#[test]
fn parser_errors() {
    assert_eq!(parse_regex("(a").err().unwrap(), "Expected closing right parenthesis");
    assert_eq!(parse_regex("a)").err().unwrap(), "Expected EOF");
    assert_eq!(parse_regex("").err().unwrap(), "Expected (special) character");
    assert_eq!(parse_regex("a|*").err().unwrap(), "Expected (special) character");
    assert_eq!(parse_regex("\\q").err().unwrap(), "Error while parsing special character");
}

#[test]
fn parser_tree_is_augmented() {
    let (tree, alphabet) = parse_regex("ab").unwrap();
    assert_eq!(alphabet, vec!['a', 'b']);
    let expected = RegexNode::Cat(
        Box::new(RegexNode::Cat(
            Box::new(RegexNode::terminal('a', 0)),
            Box::new(RegexNode::terminal('b', 1)),
        )),
        Box::new(RegexNode::Terminal(RegexTerminal { pos: 2, ch: '\0' })),
    );
    assert_eq!(tree, expected);
}

#[test]
fn parser_kleene_and_alternation() {
    let (tree, alphabet) = parse_regex("a*|b").unwrap();
    assert_eq!(alphabet, vec!['a', 'b']);
    let expected = RegexNode::Cat(
        Box::new(RegexNode::Or(
            Box::new(RegexNode::Kleene(Box::new(RegexNode::terminal('a', 0)))),
            Box::new(RegexNode::terminal('b', 1)),
        )),
        Box::new(RegexNode::terminal('\0', 2)),
    );
    assert_eq!(tree, expected);
}

#[test]
fn lowercase_alphabet_has_all_letters() {
    let (_, alphabet) = parse_regex("\\w").unwrap();
    assert_eq!(alphabet.len(), 26);
    assert_eq!(
        alphabet.into_iter().collect::<HashSet<char>>(),
        ('a'..='z').collect::<HashSet<char>>()
    );
}

#[test]
fn nul_is_a_literal_character() {
    let (tree, alphabet) = parse_regex("\0").unwrap();
    assert_eq!(alphabet, vec!['\0']);
    let expected = RegexNode::Cat(
        Box::new(RegexNode::terminal('\0', 0)),
        Box::new(RegexNode::terminal('\0', 1)),
    );
    assert_eq!(tree, expected);
}
