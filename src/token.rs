use vstd::prelude::*;
use vstd::string::*;

verus! {

/// The three arithmetic operators of the language.
#[derive(Debug, Clone, Copy, PartialEq, Eq, Structural)]
pub enum Operator {
    Plus,
    Minus,
    Mul,
}

/// What a token is, with the value it carries.
#[derive(Debug, PartialEq, Eq)]
pub enum TokenType {
    Number(i32),
    Word(String),
    Operator(Operator),
}

/// A token and where it starts: `line` counts from 1, `col` from 0.
#[derive(Debug, PartialEq, Eq)]
pub struct Token {
    pub token_type: TokenType,
    pub line: usize,
    pub col: usize,
}

/// The mathematical value of a `TokenType`.
pub enum Lexeme {
    Number(int),
    Word(Seq<char>),
    Operator(Operator),
}

/// The mathematical value of a `Token`.
pub struct TokenView {
    pub kind: Lexeme,
    pub line: int,
    pub col: int,
}

impl View for TokenType {
    type V = Lexeme;

    open spec fn view(&self) -> Lexeme {
        match self {
            TokenType::Number(n) => Lexeme::Number(*n as int),
            TokenType::Word(w) => Lexeme::Word(w@),
            TokenType::Operator(op) => Lexeme::Operator(*op),
        }
    }
}

impl View for Token {
    type V = TokenView;

    open spec fn view(&self) -> TokenView {
        TokenView { kind: self.token_type@, line: self.line as int, col: self.col as int }
    }
}

/// The character of a decimal digit `d < 10`.
pub open spec fn digit_char(d: int) -> char {
    if d == 0 {
        '0'
    } else if d == 1 {
        '1'
    } else if d == 2 {
        '2'
    } else if d == 3 {
        '3'
    } else if d == 4 {
        '4'
    } else if d == 5 {
        '5'
    } else if d == 6 {
        '6'
    } else if d == 7 {
        '7'
    } else if d == 8 {
        '8'
    } else {
        '9'
    }
}

/// The decimal digits of `n`, most significant first, without leading zeros.
pub open spec fn decimal(n: nat) -> Seq<char>
    decreases n,
{
    if n < 10 {
        seq![digit_char(n as int)]
    } else {
        decimal(n / 10).push(digit_char((n % 10) as int))
    }
}

/// The printed symbol of an operator.
pub open spec fn operator_symbol(op: Operator) -> char {
    match op {
        Operator::Plus => '+',
        Operator::Minus => '-',
        Operator::Mul => '*',
    }
}

/// The printed value of a token: a number in decimal, a word as it is,
/// an operator as its symbol.
pub open spec fn render(kind: Lexeme) -> Seq<char> {
    match kind {
        Lexeme::Number(n) => if n < 0 {
            seq!['-'] + decimal((-n) as nat)
        } else {
            decimal(n as nat)
        },
        Lexeme::Word(w) => w,
        Lexeme::Operator(op) => seq![operator_symbol(op)],
    }
}

fn digit_str(d: u32) -> (r: &'static str)
    requires
        d < 10,
    ensures
        r@ == seq![digit_char(d as int)],
{
    proof {
        reveal_strlit("0");
        reveal_strlit("1");
        reveal_strlit("2");
        reveal_strlit("3");
        reveal_strlit("4");
        reveal_strlit("5");
        reveal_strlit("6");
        reveal_strlit("7");
        reveal_strlit("8");
        reveal_strlit("9");
    }
    let r = if d == 0 {
        "0"
    } else if d == 1 {
        "1"
    } else if d == 2 {
        "2"
    } else if d == 3 {
        "3"
    } else if d == 4 {
        "4"
    } else if d == 5 {
        "5"
    } else if d == 6 {
        "6"
    } else if d == 7 {
        "7"
    } else if d == 8 {
        "8"
    } else {
        "9"
    };
    assert(r@ =~= seq![digit_char(d as int)]);
    r
}

fn decimal_string(n: u32) -> (r: String)
    ensures
        r@ == decimal(n as nat),
    decreases n,
{
    if n < 10 {
        String::from_str(digit_str(n))
    } else {
        let mut s = decimal_string(n / 10);
        s.append(digit_str(n % 10));
        s
    }
}

impl Token {
    /// The printed value of the token.
    pub fn get_token_value(&self) -> (r: String)
        ensures
            r@ == render(self.token_type@),
    {
        match &self.token_type {
            TokenType::Number(num) => {
                if *num < 0 {
                    let magnitude: u32 = (0 - (*num as i64)) as u32;
                    let mut s = String::from_str("-");
                    proof {
                        reveal_strlit("-");
                    }
                    let digits = decimal_string(magnitude);
                    s.append(digits.as_str());
                    assert(s@ =~= render(self.token_type@));
                    s
                } else {
                    decimal_string(*num as u32)
                }
            },
            TokenType::Word(word) => word.clone(),
            TokenType::Operator(op) => {
                proof {
                    reveal_strlit("+");
                    reveal_strlit("-");
                    reveal_strlit("*");
                }
                let s = match op {
                    Operator::Plus => String::from_str("+"),
                    Operator::Minus => String::from_str("-"),
                    Operator::Mul => String::from_str("*"),
                };
                assert(s@ =~= render(self.token_type@));
                s
            },
        }
    }
}

} // verus!
