use rlox::scanner::Scanner;
use rlox::tokens::TokenType::{
    AND, BANG, BANG_EQUAL, CLASS, DOT, ELSE, EOF, EQUAL, EQUAL_EQUAL, FALSE, FOR, FUN, GREATER,
    GREATER_EQUAL, IDENTIFIER, IF, LEFT_PAREN, LESS, LESS_EQUAL, NIL, NUMBER, OR, PLUS, PRINT,
    RETURN, RIGHT_PAREN, SEMICOLON, SLASH, STAR, STRING, SUPER, THIS, TRUE, VAR, WHILE,
};
use rlox::tokens::{LiteralValue, ScanError, Token, TokenType};

fn kinds(src: &str) -> Vec<TokenType> {
    let prg = String::from(src);
    let mut s = Scanner::new(&prg);
    s.scan_tokens().iter().map(|t| t.tt).collect()
}

fn lexemes(src: &str) -> Vec<String> {
    let prg = String::from(src);
    let mut s = Scanner::new(&prg);
    s.scan_tokens().iter().map(|t| t.lexeme.clone()).collect()
}

#[test]
fn scan_string() {
    let prg = String::from("\"this is a rox string\"");
    let mut s = Scanner::new(&prg);
    let toks = s.scan_tokens();

    assert_eq!(toks.len(), 2);

    let Token { tt, .. } = toks.get(1).unwrap();
    assert_eq!(tt, &EOF);

    let Token {
        tt,
        lexeme,
        literal,
        ..
    } = toks.get(0).unwrap();
    assert_eq!(tt, &STRING);
    assert_eq!(lexeme, "\"this is a rox string\"");
    if let LiteralValue::Str(s) = literal {
        assert_eq!(s, "this is a rox string");
    } else {
        panic!("Expected String");
    }
}

#[test]
fn scan_num() {
    let prg = String::from("992");
    let mut s = Scanner::new(&prg);
    let toks = s.scan_tokens();

    assert_eq!(toks.len(), 2);

    let Token { tt, .. } = toks.get(1).unwrap();
    assert_eq!(tt, &EOF);

    let Token {
        tt,
        lexeme,
        literal,
        ..
    } = toks.get(0).unwrap();
    assert_eq!(tt, &NUMBER);
    assert_eq!(lexeme, "992");

    if let LiteralValue::Num(f) = literal {
        assert_eq!(f, &992i64);
    } else {
        panic!("Expected Integer ");
    }
}

#[test]
fn scan_num_float() {
    let prg = String::from("11.24");
    let mut s = Scanner::new(&prg);
    let toks = s.scan_tokens();

    assert_eq!(toks.len(), 2);

    let Token { tt, .. } = toks.get(1).unwrap();
    assert_eq!(tt, &EOF);

    let Token {
        tt,
        lexeme,
        literal,
        ..
    } = toks.get(0).unwrap();
    assert_eq!(tt, &NUMBER);
    assert_eq!(lexeme, "11.24");
    if let LiteralValue::NumFloat(f) = literal {
        assert_eq!(f.parse::<f64>().unwrap(), 11.24f64);
    } else {
        panic!("Expected Float");
    }
}

#[test]
fn scan_identifier() {
    let prg = String::from("heh123");
    let mut s = Scanner::new(&prg);
    let toks = s.scan_tokens();

    assert_eq!(toks.len(), 2);

    let Token {
        tt,
        lexeme,
        literal,
        ..
    } = toks.get(0).unwrap();
    assert_eq!(tt, &IDENTIFIER);
    assert_eq!(lexeme, "heh123");
    if let LiteralValue::NoVal = literal {
    } else {
        panic!("Expected No Literal");
    }
}

#[test]
fn scan_keyword() {
    let prg = String::from("class");
    let mut s = Scanner::new(&prg);
    let toks = s.scan_tokens();

    assert_eq!(toks.len(), 2);

    let Token { tt, lexeme, .. } = toks.get(0).unwrap();
    assert_eq!(tt, &CLASS);
    assert_eq!(lexeme, "class");
}

#[test]
fn empty_input_gives_only_eof() {
    let prg = String::new();
    let mut s = Scanner::new(&prg);
    let toks = s.scan_tokens();
    assert_eq!(toks.len(), 1);
    assert_eq!(toks[0].tt, EOF);
    assert_eq!(toks[0].lexeme, "");
    assert_eq!(toks[0].line, 1);
}

#[test]
fn eof_is_last_and_only_once() {
    let ks = kinds("var x = (1 + 2) * 3; // done\nprint x;");
    assert_eq!(ks.last(), Some(&EOF));
    assert_eq!(ks.iter().filter(|k| **k == EOF).count(), 1);
    assert_eq!(
        ks,
        vec![VAR, IDENTIFIER, EQUAL, LEFT_PAREN, NUMBER, PLUS, NUMBER, RIGHT_PAREN, STAR, NUMBER, SEMICOLON, PRINT, IDENTIFIER, SEMICOLON, EOF]
    );
}

#[test]
fn lexemes_are_source_slices() {
    let src = "fun f(a,b){return a>=b.c;}";
    let ls = lexemes(src);
    assert_eq!(
        ls,
        vec!["fun", "f", "(", "a", ",", "b", ")", "{", "return", "a", ">=", "b", ".", "c", ";", "}", ""]
    );
    assert_eq!(ls.concat(), src.replace(" ", ""));
}

#[test]
fn comment_moves_to_next_line() {
    let prg = String::from("// comment\n+");
    let mut s = Scanner::new(&prg);
    let toks = s.scan_tokens();
    assert_eq!(toks.len(), 2);
    assert_eq!(toks[0].tt, PLUS);
    assert_eq!(toks[0].lexeme, "+");
    assert_eq!(toks[0].line, 2);
    assert_eq!(toks[1].tt, EOF);
    assert_eq!(toks[1].line, 2);
}

#[test]
fn identifier_munches_maximally() {
    assert_eq!(kinds("abc123"), vec![IDENTIFIER, EOF]);
    assert_eq!(lexemes("abc123"), vec!["abc123", ""]);
    assert_eq!(lexemes("_a_b9 c"), vec!["_a_b9", "c", ""]);
    assert_eq!(kinds("classy orchid"), vec![IDENTIFIER, IDENTIFIER, EOF]);
    assert_eq!(kinds("Class"), vec![IDENTIFIER, EOF]);
}

#[test]
fn number_munches_maximally() {
    assert_eq!(lexemes("12345+6"), vec!["12345", "+", "6", ""]);
    assert_eq!(lexemes("1.2.3"), vec!["1.2", ".", "3", ""]);
    assert_eq!(kinds("1.2.3"), vec![NUMBER, DOT, NUMBER, EOF]);
    assert_eq!(lexemes("12."), vec!["12", ".", ""]);
    assert_eq!(lexemes("7.x"), vec!["7", ".", "x", ""]);
}

#[test]
fn two_character_operators() {
    assert_eq!(kinds("!="), vec![BANG_EQUAL, EOF]);
    assert_eq!(kinds("!"), vec![BANG, EOF]);
    assert_eq!(kinds("!a"), vec![BANG, IDENTIFIER, EOF]);
    assert_eq!(kinds("! ="), vec![BANG, EQUAL, EOF]);
    assert_eq!(kinds("== = <= < >= >"), vec![EQUAL_EQUAL, EQUAL, LESS_EQUAL, LESS, GREATER_EQUAL, GREATER, EOF]);
    assert_eq!(kinds("/ / //x"), vec![SLASH, SLASH, EOF]);
}

#[test]
fn every_keyword() {
    assert_eq!(
        kinds("and class else false for fun if nil or print return super this true var while"),
        vec![AND, CLASS, ELSE, FALSE, FOR, FUN, IF, NIL, OR, PRINT, RETURN, SUPER, THIS, TRUE, VAR, WHILE, EOF]
    );
}

#[test]
fn multiline_string_keeps_its_start_line() {
    let prg = String::from("\"a\nb\" x");
    let mut s = Scanner::new(&prg);
    let toks = s.scan_tokens();
    assert_eq!(toks.len(), 3);
    assert_eq!(toks[0].tt, STRING);
    assert_eq!(toks[0].line, 1);
    assert_eq!(toks[1].lexeme, "x");
    assert_eq!(toks[1].line, 2);
    assert_eq!(toks[2].line, 2);
}

#[test]
fn unterminated_string_is_reported() {
    let prg = String::from("1\n\"abc");
    let mut s = Scanner::new(&prg);
    let toks = s.scan_tokens();
    assert_eq!(toks.len(), 3);
    assert_eq!(toks[1].tt, STRING);
    assert_eq!(toks[1].lexeme, "\"abc");
    if let LiteralValue::Str(v) = &toks[1].literal {
        assert_eq!(v, "abc");
    } else {
        panic!("Expected String");
    }
    assert_eq!(s.errors(), &vec![ScanError::UnterminatedString { line: 2 }]);
}

#[test]
fn unexpected_character_is_reported_and_skipped() {
    let prg = String::from("a @ b\n#");
    let mut s = Scanner::new(&prg);
    let ks: Vec<TokenType> = s.scan_tokens().iter().map(|t| t.tt).collect();
    assert_eq!(ks, vec![IDENTIFIER, IDENTIFIER, EOF]);
    assert_eq!(
        s.errors(),
        &vec![
            ScanError::UnexpectedCharacter { line: 1, ch: '@' },
            ScanError::UnexpectedCharacter { line: 2, ch: '#' },
        ]
    );
}

#[test]
fn scanning_twice_gives_the_same_tokens() {
    let prg = String::from("x = 1");
    let mut s = Scanner::new(&prg);
    let first: Vec<String> = s.scan_tokens().iter().map(|t| t.lexeme.clone()).collect();
    let second: Vec<String> = s.scan_tokens().iter().map(|t| t.lexeme.clone()).collect();
    assert_eq!(first, vec!["x", "=", "1", ""]);
    assert_eq!(first, second);
}

#[test]
fn largest_integer_fits() {
    let prg = String::from("9223372036854775807");
    let mut s = Scanner::new(&prg);
    assert!(s.integers_fit());
    let toks = s.scan_tokens();
    if let LiteralValue::Num(n) = toks[0].literal {
        assert_eq!(n, i64::MAX);
    } else {
        panic!("Expected Integer");
    }
}

#[test]
fn too_large_integer_is_detected() {
    let prg = String::from("1 + 9223372036854775808");
    let mut s = Scanner::new(&prg);
    assert!(!s.integers_fit());
    let prg = String::from("\"9223372036854775808\" 92233720368547758080.5");
    let mut s = Scanner::new(&prg);
    assert!(s.integers_fit());
}

#[test]
fn lines_never_decrease() {
    let prg = String::from("a\nb\n\nc \"x\ny\" d");
    let mut s = Scanner::new(&prg);
    let lines: Vec<u32> = s.scan_tokens().iter().map(|t| t.line).collect();
    assert_eq!(lines, vec![1, 2, 4, 4, 5, 5]);
}
