//! Prints expression trees in a fully parenthesized prefix form, such as
//! `(* (- 123) (group 45.67))`.
use crate::expr::Expr;
use crate::tokens::{LiteralValue, SpecLiteral};
use vstd::prelude::*;
use vstd::string::StringExecFns;

verus! {

pub open spec fn digit_char(d: int) -> char {
    seq!['0', '1', '2', '3', '4', '5', '6', '7', '8', '9'][d]
}

/// Decimal digits of `n`, without leading zeros.
pub open spec fn nat_digits(n: nat) -> Seq<char>
    decreases n,
{
    if n < 10 {
        seq![digit_char(n as int)]
    } else {
        nat_digits(n / 10) + seq![digit_char((n % 10) as int)]
    }
}

/// Decimal text of `n`.
pub open spec fn decimal(n: int) -> Seq<char> {
    if n < 0 {
        seq!['-'] + nat_digits((-n) as nat)
    } else {
        nat_digits(n as nat)
    }
}

/// How a literal value is shown: `nil`, an integer in decimal, a float as
/// its decimal text, a string as its characters.
pub open spec fn literal_text(v: SpecLiteral) -> Seq<char> {
    match v {
        SpecLiteral::NoVal => seq!['n', 'i', 'l'],
        SpecLiteral::Num(n) => decimal(n),
        SpecLiteral::NumFloat(s) => s,
        SpecLiteral::Str(s) => s,
    }
}

/// The parts, each preceded by a space.
pub open spec fn spaced(parts: Seq<Seq<char>>) -> Seq<char>
    decreases parts.len(),
{
    if parts.len() == 0 {
        Seq::empty()
    } else {
        spaced(parts.drop_last()) + seq![' '] + parts.last()
    }
}

/// `(name part part ...)`
pub open spec fn parenthesized(name: Seq<char>, parts: Seq<Seq<char>>) -> Seq<char> {
    seq!['('] + name + spaced(parts) + seq![')']
}

/// The printed form of an expression.
pub open spec fn show(e: Expr) -> Seq<char>
    decreases e,
{
    match e {
        Expr::Binary(b) => parenthesized(b.operator.lexeme@, seq![show(*b.left), show(*b.right)]),
        Expr::Grouping(g) => parenthesized(seq!['g', 'r', 'o', 'u', 'p'], seq![show(*g.expression)]),
        Expr::Literal(l) => literal_text(l.value@),
        Expr::Unary(u) => parenthesized(u.operator.lexeme@, seq![show(*u.right)]),
    }
}

/// Relies on `String::push`: appends one character.
#[verifier::external_body]
fn push_char(s: &mut String, c: char)
    ensures
        final(s)@ == old(s)@.push(c),
{
    s.push(c)
}

fn digit_char_of(d: u64) -> (c: char)
    requires
        d < 10,
    ensures
        c == digit_char(d as int),
{
    let table: [char; 10] = ['0', '1', '2', '3', '4', '5', '6', '7', '8', '9'];
    assert(table@ == seq!['0', '1', '2', '3', '4', '5', '6', '7', '8', '9']);
    table[d as usize]
}

fn push_digits(buf: &mut String, n: u64)
    ensures
        final(buf)@ == old(buf)@ + nat_digits(n as nat),
    decreases n,
{
    if n >= 10 {
        push_digits(buf, n / 10);
    }
    push_char(buf, digit_char_of(n % 10));
    assert(final(buf)@ =~= old(buf)@ + nat_digits(n as nat));
}

impl LiteralValue {
    /// The text of the value: `nil`, an integer in decimal, a float as its
    /// decimal text, a string as its characters.
    pub fn to_text(&self) -> (r: String)
        ensures
            r@ == literal_text(self@),
    {
        match self {
            LiteralValue::NoVal => {
                let mut s = String::new();
                push_char(&mut s, 'n');
                push_char(&mut s, 'i');
                push_char(&mut s, 'l');
                assert(s@ =~= seq!['n', 'i', 'l']);
                s
            },
            LiteralValue::Num(n) => {
                let mut s = String::new();
                let m: u64 = if *n < 0 {
                    push_char(&mut s, '-');
                    (-(*n as i128)) as u64
                } else {
                    *n as u64
                };
                push_digits(&mut s, m);
                assert(s@ =~= decimal(*n as int));
                s
            },
            LiteralValue::NumFloat(t) => t.clone(),
            LiteralValue::Str(t) => t.clone(),
        }
    }
}

/// Prints expression trees.
pub struct AstPrinter;

impl AstPrinter {
    /// The printed form of `expr`.
    pub fn print(&self, expr: &Expr) -> (r: String)
        ensures
            r@ == show(*expr),
        decreases *expr,
    {
        match expr {
            Expr::Binary(b) => {
                let left = self.print(&b.left);
                let right = self.print(&b.right);
                let ghost views = seq![left@, right@];
                let parts = vec![left, right];
                assert(parts@.map_values(|p: String| p@) =~= views);
                self.parenthesize(b.operator.lexeme.as_str(), parts)
            },
            Expr::Grouping(g) => {
                let e = self.print(&g.expression);
                let mut name = String::new();
                push_char(&mut name, 'g');
                push_char(&mut name, 'r');
                push_char(&mut name, 'o');
                push_char(&mut name, 'u');
                push_char(&mut name, 'p');
                assert(name@ =~= seq!['g', 'r', 'o', 'u', 'p']);
                let ghost views = seq![e@];
                let parts = vec![e];
                assert(parts@.map_values(|p: String| p@) =~= views);
                self.parenthesize(name.as_str(), parts)
            },
            Expr::Literal(l) => l.value.to_text(),
            Expr::Unary(u) => {
                let right = self.print(&u.right);
                let ghost views = seq![right@];
                let parts = vec![right];
                assert(parts@.map_values(|p: String| p@) =~= views);
                self.parenthesize(u.operator.lexeme.as_str(), parts)
            },
        }
    }

    /// `(name part part ...)`, from parts already printed.
    fn parenthesize(&self, name: &str, parts: Vec<String>) -> (r: String)
        ensures
            r@ == parenthesized(name@, parts@.map_values(|p: String| p@)),
    {
        let ghost views = parts@.map_values(|p: String| p@);
        let mut buffer = String::new();
        push_char(&mut buffer, '(');
        buffer.append(name);
        let mut i: usize = 0;
        assert(views.take(0) =~= Seq::<Seq<char>>::empty());
        assert(buffer@ =~= seq!['('] + name@ + spaced(views.take(0)));
        while i < parts.len()
            invariant
                i <= parts@.len(),
                views == parts@.map_values(|p: String| p@),
                buffer@ == seq!['('] + name@ + spaced(views.take(i as int)),
            decreases parts@.len() - i,
        {
            push_char(&mut buffer, ' ');
            buffer.append(parts[i].as_str());
            assert(views.take(i + 1).drop_last() =~= views.take(i as int));
            assert(buffer@ =~= seq!['('] + name@ + spaced(views.take(i + 1)));
            i = i + 1;
        }
        assert(views.take(parts@.len() as int) =~= views);
        push_char(&mut buffer, ')');
        buffer
    }
}

} // verus!
