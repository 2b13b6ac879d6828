use std::collections::HashMap;

use jlek::TokenSpec;
use jlek::lexer_spec::LexerSpec;

fn digits_to(target: usize) -> HashMap<char, usize> {
    HashMap::from([
        ('0', target),
        ('1', target),
        ('2', target),
        ('3', target),
        ('4', target),
        ('5', target),
        ('6', target),
        ('7', target),
        ('8', target),
        ('9', target),
    ])
}

#[test]
fn number() {
    let number = TokenSpec::new("Number".to_string(), "\\d\\d*".to_string());
    let token_specs = vec![number];
    let lexer_spec = LexerSpec::new(&token_specs).unwrap();
    assert_eq!(&lexer_spec.initial_states, &vec![0]);
    assert_eq!(&lexer_spec.states[0].accepts, &None);
    assert_eq!(
        lexer_spec.states[0].next.iter().copied().collect::<HashMap<char, usize>>(),
        HashMap::from([
            ('0', 1),
            ('1', 1),
            ('2', 1),
            ('3', 1),
            ('4', 1),
            ('5', 1),
            ('6', 1),
            ('7', 1),
            ('8', 1),
            ('9', 1),
        ])
    );
    assert_eq!(&lexer_spec.states[1].accepts, &Some("Number".to_string()));
    assert_eq!(
        lexer_spec.states[1].next.iter().copied().collect::<HashMap<char, usize>>(),
        HashMap::from([
            ('0', 1),
            ('1', 1),
            ('2', 1),
            ('3', 1),
            ('4', 1),
            ('5', 1),
            ('6', 1),
            ('7', 1),
            ('8', 1),
            ('9', 1),
        ])
    );
}

#[test]
fn number_table_has_two_states() {
    let token_specs = vec![TokenSpec::new("Number".to_string(), "\\d\\d*".to_string())];
    let lexer_spec = LexerSpec::new(&token_specs).unwrap();
    assert_eq!(lexer_spec.states.len(), 2);
    assert_eq!(lexer_spec.states[1].next.len(), 10);
    assert_eq!(
        lexer_spec.states[0].next.iter().copied().collect::<HashMap<char, usize>>(),
        digits_to(1)
    );
}

#[test]
fn second_specification_is_offset() {
    let token_specs = vec![
        TokenSpec::new("A".to_string(), "a".to_string()),
        TokenSpec::new("B".to_string(), "bc".to_string()),
    ];
    let lexer_spec = LexerSpec::new(&token_specs).unwrap();
    assert_eq!(lexer_spec.initial_states, vec![0, 2]);
    assert_eq!(lexer_spec.states.len(), 5);
    assert_eq!(lexer_spec.states[0].next, vec![('a', 1)]);
    assert_eq!(lexer_spec.states[1].accepts, Some("A".to_string()));
    assert_eq!(lexer_spec.states[2].next, vec![('b', 3)]);
    assert_eq!(lexer_spec.states[3].next, vec![('c', 4)]);
    assert_eq!(lexer_spec.states[3].accepts, None);
    assert_eq!(lexer_spec.states[4].accepts, Some("B".to_string()));
    assert_eq!(lexer_spec.states[4].token_index, 1);
}

#[test]
fn compilation_is_repeatable() {
    let token_specs = vec![
        TokenSpec::new("Ident".to_string(), "\\w\\w*".to_string()),
        TokenSpec::new("Op".to_string(), "a(bc)*|\\d".to_string()),
    ];
    let first = LexerSpec::new(&token_specs).unwrap();
    let second = LexerSpec::new(&token_specs).unwrap();
    assert_eq!(first.initial_states, second.initial_states);
    assert_eq!(first.states.len(), second.states.len());
    for (a, b) in first.states.iter().zip(second.states.iter()) {
        assert_eq!(a.accepts, b.accepts);
        assert_eq!(a.next, b.next);
    }
}

#[test]
fn bad_pattern_is_refused() {
    let token_specs = vec![TokenSpec::new("Bad".to_string(), "(a".to_string())];
    let err = LexerSpec::new(&token_specs).err().unwrap();
    assert_eq!(err, "Expected closing right parenthesis");
}

#[test]
fn token_spec_getters() {
    let spec = TokenSpec::new("Number".to_string(), "\\d\\d*".to_string());
    assert_eq!(spec.name(), "Number");
    assert_eq!(spec.pattern(), "\\d\\d*");
}
