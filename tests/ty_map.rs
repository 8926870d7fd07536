use rlox::ty_map::{map_to_rs_type, RsT};

#[test]
fn base_type_is_boxed() {
    let r = map_to_rs_type("Expr", "Expr");
    assert!(matches!(r, RsT::F(_)));
    assert_eq!(r.to_text(), "Box<Expr>");
}

#[test]
fn token_and_object_types() {
    let t = map_to_rs_type("Token", "Expr");
    assert!(matches!(t, RsT::S("tokens::Token")));
    assert_eq!(t.to_text(), "tokens::Token");
    let o = map_to_rs_type("Object", "Expr");
    assert_eq!(o.to_text(), "tokens::LiteralValue");
}

#[test]
fn base_name_wins_over_token() {
    assert_eq!(map_to_rs_type("Token", "Token").to_text(), "Box<Token>");
}
