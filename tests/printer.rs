use rlox::expr::{Binary, Expr, Grouping, Literal, Unary};
use rlox::printer::AstPrinter;
use rlox::tokens::{LiteralValue, Token, TokenType};

#[test]
fn unary() {
    let a = AstPrinter {};

    let u = Expr::Unary(Unary {
        operator: Token::new(TokenType::PLUS, "+".to_string(), 1, LiteralValue::NoVal),
        right: Box::new(Expr::Literal(Literal {
            value: LiteralValue::Num(45),
        })),
    });
    let r = a.print(&u);

    assert_eq!(r, "(+ 45)");
}

#[test]
fn grouping() {
    let a = AstPrinter {};

    let expr = Expr::Binary(Binary {
        left: Box::new(Expr::Unary(Unary {
            operator: Token::new(TokenType::MINUS, "-".to_string(), 1, LiteralValue::NoVal),
            right: Box::new(Expr::Literal(Literal {
                value: LiteralValue::Num(123),
            })),
        })),
        operator: Token::new(TokenType::STAR, "*".to_string(), 1, LiteralValue::NoVal),
        right: Box::new(Expr::Grouping(Grouping {
            expression: Box::new(Expr::Literal(Literal {
                value: LiteralValue::NumFloat("45.67".to_string()),
            })),
        })),
    });

    let res = a.print(&expr);

    assert_eq!(res, "(* (- 123) (group 45.67))");
}

#[test]
fn literal_texts() {
    assert_eq!(LiteralValue::NoVal.to_text(), "nil");
    assert_eq!(LiteralValue::Num(0).to_text(), "0");
    assert_eq!(LiteralValue::Num(-45).to_text(), "-45");
    assert_eq!(LiteralValue::Num(i64::MIN).to_text(), "-9223372036854775808");
    assert_eq!(LiteralValue::Str("hi".to_string()).to_text(), "hi");
}

#[test]
fn nested_groups_and_strings() {
    let a = AstPrinter {};
    let e = Expr::Grouping(Grouping {
        expression: Box::new(Expr::Grouping(Grouping {
            expression: Box::new(Expr::Literal(Literal {
                value: LiteralValue::Str("s".to_string()),
            })),
        })),
    });
    assert_eq!(a.print(&e), "(group (group s))");
}
