use stellaris_tech_tree::color::{ColorCode, InvalidColorCode};
use stellaris_tech_tree::lexer::{parse_localisation_token, tokenize, write_tokens, Token};

fn text(s: &str) -> Token {
    Token::Text(s.to_string())
}

#[test]
fn text_is_split_into_codes_references_and_plain_text() {
    let lexed = parse_localisation_token("§Y$matter_decompressor_4$§!扭曲黑洞的引力，£minerals£矿物。");
    assert_eq!(
        lexed.tokens,
        vec![
            Token::ColorCode(ColorCode::Yellow),
            Token::Variable("matter_decompressor_4".to_string()),
            Token::ColorEnd,
            text("扭曲黑洞的引力，£minerals£矿物。"),
        ]
    );
    assert!(lexed.unrecognized.is_empty());
}

#[test]
fn marker_that_begins_no_code_is_plain_text_and_reported() {
    let lexed = parse_localisation_token("a§xb§§Rc§");
    assert_eq!(lexed.tokens, vec![text("a§xb§"), Token::ColorCode(ColorCode::Red), text("c§")]);
    assert_eq!(lexed.unrecognized, vec![1, 4, 8]);
}

#[test]
fn plain_text_alone_is_one_token() {
    assert_eq!(parse_localisation_token("just text").tokens, vec![text("just text")]);
    assert_eq!(parse_localisation_token("").tokens, vec![]);
    assert_eq!(parse_localisation_token("$ not closed").tokens, vec![text("$ not closed")]);
}

#[test]
fn every_colour_has_its_letter() {
    let all = [
        ('W', ColorCode::White),
        ('T', ColorCode::LightGrey),
        ('L', ColorCode::Brown),
        ('P', ColorCode::LightRed),
        ('R', ColorCode::Red),
        ('S', ColorCode::DarkOrange),
        ('H', ColorCode::Orange),
        ('Y', ColorCode::Yellow),
        ('G', ColorCode::Green),
        ('E', ColorCode::Teal),
        ('B', ColorCode::Blue),
        ('M', ColorCode::Purple),
    ];
    for (letter, color) in all {
        assert_eq!(ColorCode::from(letter), color);
        assert_eq!(char::from(color), letter);
        let code = format!("§{}", letter);
        assert_eq!(ColorCode::from_str(&code), Ok(color));
        assert_eq!(ColorCode::from_code(&code), color);
        assert_eq!(color.code(), code);
        assert_eq!(parse_localisation_token(&code).tokens, vec![Token::ColorCode(color)]);
    }
    assert_eq!(ColorCode::from('x'), ColorCode::Default);
    assert_eq!(char::from(ColorCode::Default), '!');
    assert_eq!(ColorCode::from_str("§!"), Ok(ColorCode::Default));
    assert_eq!(ColorCode::Default.code(), "§!");
    assert_eq!(ColorCode::from_str("§x"), Err(InvalidColorCode));
    assert_eq!(ColorCode::from_str("W"), Err(InvalidColorCode));
    assert_eq!(ColorCode::from_str("§WW"), Err(InvalidColorCode));
    assert_eq!(ColorCode::from_code("nothing"), ColorCode::Default);
}

#[test]
fn given_references_are_cut_out_where_they_stand() {
    let references = vec!["$a$".to_string(), "$gone$".to_string(), "$b$".to_string()];
    assert_eq!(
        tokenize("x$a$§G$b$y$a$", &references),
        vec![
            text("x"),
            Token::Variable("a".to_string()),
            Token::ColorCode(ColorCode::Green),
            Token::Variable("b".to_string()),
            text("y$a$"),
        ]
    );
    assert_eq!(tokenize("abc", &vec!["b".to_string()]), vec![text("a"), text("b"), text("c")]);
}

#[test]
fn tokens_make_the_text_again() {
    for s in ["", "plain", "§Y$a$§!x§", "a§xb§§Rc$", "$a$$b$ $ c$ §!§!"] {
        assert_eq!(write_tokens(&parse_localisation_token(s).tokens), s);
    }
    assert_eq!(
        write_tokens(&vec![
            Token::ColorCode(ColorCode::Blue),
            Token::Variable("v".to_string()),
            Token::Text(" t ".to_string()),
            Token::ColorEnd,
        ]),
        "§B$v$ t §!"
    );
}
