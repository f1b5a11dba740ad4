//! The words of a source text: names, numbers and symbols.
use vstd::prelude::*;

use crate::error::Error;

verus! {

/// A symbol of the source text.
#[derive(Debug, Clone, Copy, PartialEq, Eq, Structural)]
pub enum Sym {
    LParen,
    RParen,
    LBrace,
    RBrace,
    LBracket,
    RBracket,
    Bang,
    Question,
    Dot,
    Comma,
    Semi,
    Plus,
    Minus,
    Star,
    Slash,
    Bar,
    Backslash,
    Assign,
    Eq,
    NotEq,
    Lt,
    Gt,
    LtEq,
    GtEq,
    And,
    Or,
    PathSep,
    Hash,
}

/// The mathematical value of a [`Token`].
pub enum Word {
    Ident(Seq<char>),
    Number(u32),
    Symbol(Sym),
}

/// A word of the source text.
#[derive(Debug)]
pub enum Token {
    Ident(String),
    Number(u32),
    Symbol(Sym),
}

impl View for Token {
    type V = Word;

    open spec fn view(&self) -> Word {
        match self {
            Token::Ident(name) => Word::Ident(name@),
            Token::Number(n) => Word::Number(*n),
            Token::Symbol(s) => Word::Symbol(*s),
        }
    }
}

/// The values of a list of tokens.
pub open spec fn words(ts: Seq<Token>) -> Seq<Word> {
    Seq::new(ts.len(), |i: int| ts[i]@)
}

/// A blank, a tab, or the end of a line.
pub open spec fn is_space(c: char) -> bool {
    c == ' ' || c == '\t' || c == '\n' || c == '\r'
}

/// A decimal digit.
pub open spec fn is_digit(c: char) -> bool {
    '0' <= c <= '9'
}

/// A letter of a name: an ASCII letter or the underscore.
pub open spec fn is_letter(c: char) -> bool {
    ('a' <= c <= 'z') || ('A' <= c <= 'Z') || c == '_'
}

/// The value of a decimal digit.
pub open spec fn digit_value(c: char) -> nat {
    (c as u32 - '0' as u32) as nat
}

/// Where the name that holds the character before `i` ends: at the first
/// character from `i` on that is neither a letter nor a digit.
pub open spec fn name_end(s: Seq<char>, i: int) -> int
    decreases s.len() - i,
{
    if 0 <= i < s.len() && (is_letter(s[i]) || is_digit(s[i])) {
        name_end(s, i + 1)
    } else {
        i
    }
}

/// Where the number that holds the character before `i` ends.
pub open spec fn number_end(s: Seq<char>, i: int) -> int
    decreases s.len() - i,
{
    if 0 <= i < s.len() && is_digit(s[i]) {
        number_end(s, i + 1)
    } else {
        i
    }
}

/// The number that the digits from `i` up to `j` write.
pub open spec fn number_value(s: Seq<char>, i: int, j: int) -> nat
    decreases j - i,
{
    if j <= i {
        0
    } else {
        number_value(s, i, j - 1) * 10 + digit_value(s[j - 1])
    }
}

/// The symbol that starts at `i`, and how many characters it takes. A symbol
/// of two characters is taken where there is one.
pub open spec fn symbol_at(s: Seq<char>, i: int) -> Option<(Sym, int)> {
    let c = s[i];
    let d = if i + 1 < s.len() {
        s[i + 1]
    } else {
        ' '
    };
    if c == '=' && d == '=' {
        Some((Sym::Eq, 2))
    } else if c == '!' && d == '=' {
        Some((Sym::NotEq, 2))
    } else if c == '<' && d == '=' {
        Some((Sym::LtEq, 2))
    } else if c == '>' && d == '=' {
        Some((Sym::GtEq, 2))
    } else if c == '&' && d == '&' {
        Some((Sym::And, 2))
    } else if c == '|' && d == '|' {
        Some((Sym::Or, 2))
    } else if c == ':' && d == ':' {
        Some((Sym::PathSep, 2))
    } else if c == '(' {
        Some((Sym::LParen, 1))
    } else if c == ')' {
        Some((Sym::RParen, 1))
    } else if c == '{' {
        Some((Sym::LBrace, 1))
    } else if c == '}' {
        Some((Sym::RBrace, 1))
    } else if c == '[' {
        Some((Sym::LBracket, 1))
    } else if c == ']' {
        Some((Sym::RBracket, 1))
    } else if c == '!' {
        Some((Sym::Bang, 1))
    } else if c == '?' {
        Some((Sym::Question, 1))
    } else if c == '.' {
        Some((Sym::Dot, 1))
    } else if c == ',' {
        Some((Sym::Comma, 1))
    } else if c == ';' {
        Some((Sym::Semi, 1))
    } else if c == '+' {
        Some((Sym::Plus, 1))
    } else if c == '-' {
        Some((Sym::Minus, 1))
    } else if c == '*' {
        Some((Sym::Star, 1))
    } else if c == '/' {
        Some((Sym::Slash, 1))
    } else if c == '|' {
        Some((Sym::Bar, 1))
    } else if c == '\\' {
        Some((Sym::Backslash, 1))
    } else if c == '=' {
        Some((Sym::Assign, 1))
    } else if c == '<' {
        Some((Sym::Lt, 1))
    } else if c == '>' {
        Some((Sym::Gt, 1))
    } else if c == '#' {
        Some((Sym::Hash, 1))
    } else {
        None
    }
}

/// A word before the words of the rest, where the rest has words.
pub open spec fn before(w: Word, rest: Option<Seq<Word>>) -> Option<Seq<Word>> {
    match rest {
        Some(ws) => Some(seq![w] + ws),
        None => None,
    }
}

/// The words of a text from the character at `i` on. Blank space parts words
/// and is passed over. A name is a letter with the letters and digits after
/// it, a number is a run of digits, and must fit 32 bits. A character that
/// starts no word leaves the text without words.
pub open spec fn lex_from(s: Seq<char>, i: int) -> Option<Seq<Word>>
    decreases s.len() - i,
{
    if i < 0 || i >= s.len() {
        Some(Seq::empty())
    } else if is_space(s[i]) {
        lex_from(s, i + 1)
    } else if is_letter(s[i]) {
        let j = name_end(s, i + 1);
        if j <= i || j > s.len() {
            None
        } else {
            before(Word::Ident(s.subrange(i, j)), lex_from(s, j))
        }
    } else if is_digit(s[i]) {
        let j = number_end(s, i + 1);
        if j <= i || j > s.len() || number_value(s, i, j) > u32::MAX {
            None
        } else {
            before(Word::Number(number_value(s, i, j) as u32), lex_from(s, j))
        }
    } else {
        match symbol_at(s, i) {
            Some((sym, n)) => before(Word::Symbol(sym), lex_from(s, i + n)),
            None => None,
        }
    }
}

/// The words of a text.
pub open spec fn lex(s: Seq<char>) -> Option<Seq<Word>> {
    lex_from(s, 0)
}

/// The characters of a string.
fn chars_of(s: &str) -> (r: Vec<char>)
    ensures
        r@ == s@,
{
    let mut out: Vec<char> = Vec::new();
    for c in it: s.chars()
        invariant
            out@ == it.seq().take(it.index() as int),
            it.seq() == s@,
    {
        out.push(c);
    }
    out
}

fn space(c: char) -> (r: bool)
    ensures
        r == is_space(c),
{
    c == ' ' || c == '\t' || c == '\n' || c == '\r'
}

fn digit(c: char) -> (r: bool)
    ensures
        r == is_digit(c),
{
    '0' <= c && c <= '9'
}

fn letter(c: char) -> (r: bool)
    ensures
        r == is_letter(c),
{
    ('a' <= c && c <= 'z') || ('A' <= c && c <= 'Z') || c == '_'
}

fn symbol(cs: &Vec<char>, i: usize) -> (r: Option<(Sym, usize)>)
    requires
        i < cs.len(),
    ensures
        match r {
            Some((sym, n)) => symbol_at(cs@, i as int) == Some((sym, n as int)) && 1 <= n <= 2 && i
                + n <= cs.len(),
            None => symbol_at(cs@, i as int) is None,
        },
{
    let c = cs[i];
    let d = if i + 1 < cs.len() {
        cs[i + 1]
    } else {
        ' '
    };
    if c == '=' && d == '=' {
        Some((Sym::Eq, 2))
    } else if c == '!' && d == '=' {
        Some((Sym::NotEq, 2))
    } else if c == '<' && d == '=' {
        Some((Sym::LtEq, 2))
    } else if c == '>' && d == '=' {
        Some((Sym::GtEq, 2))
    } else if c == '&' && d == '&' {
        Some((Sym::And, 2))
    } else if c == '|' && d == '|' {
        Some((Sym::Or, 2))
    } else if c == ':' && d == ':' {
        Some((Sym::PathSep, 2))
    } else if c == '(' {
        Some((Sym::LParen, 1))
    } else if c == ')' {
        Some((Sym::RParen, 1))
    } else if c == '{' {
        Some((Sym::LBrace, 1))
    } else if c == '}' {
        Some((Sym::RBrace, 1))
    } else if c == '[' {
        Some((Sym::LBracket, 1))
    } else if c == ']' {
        Some((Sym::RBracket, 1))
    } else if c == '!' {
        Some((Sym::Bang, 1))
    } else if c == '?' {
        Some((Sym::Question, 1))
    } else if c == '.' {
        Some((Sym::Dot, 1))
    } else if c == ',' {
        Some((Sym::Comma, 1))
    } else if c == ';' {
        Some((Sym::Semi, 1))
    } else if c == '+' {
        Some((Sym::Plus, 1))
    } else if c == '-' {
        Some((Sym::Minus, 1))
    } else if c == '*' {
        Some((Sym::Star, 1))
    } else if c == '/' {
        Some((Sym::Slash, 1))
    } else if c == '|' {
        Some((Sym::Bar, 1))
    } else if c == '\\' {
        Some((Sym::Backslash, 1))
    } else if c == '=' {
        Some((Sym::Assign, 1))
    } else if c == '<' {
        Some((Sym::Lt, 1))
    } else if c == '>' {
        Some((Sym::Gt, 1))
    } else if c == '#' {
        Some((Sym::Hash, 1))
    } else {
        None
    }
}

/// Where the name that starts before `i` ends.
fn scan_name(cs: &Vec<char>, i: usize) -> (j: usize)
    requires
        i <= cs.len(),
    ensures
        j == name_end(cs@, i as int),
        i <= j <= cs.len(),
{
    let mut j = i;
    while j < cs.len() && (letter(cs[j]) || digit(cs[j]))
        invariant
            i <= j <= cs.len(),
            name_end(cs@, i as int) == name_end(cs@, j as int),
        decreases cs.len() - j,
    {
        j += 1;
    }
    j
}

/// Where the number that starts at `i` ends, and its value if that fits.
fn scan_number(cs: &Vec<char>, i: usize) -> (r: (usize, Option<u32>))
    requires
        i < cs.len(),
        is_digit(cs[i as int]),
    ensures
        r.0 == number_end(cs@, i + 1),
        i < r.0 <= cs.len(),
        match r.1 {
            Some(v) => number_value(cs@, i as int, r.0 as int) == v,
            None => number_value(cs@, i as int, r.0 as int) > u32::MAX,
        },
{
    let mut j = i;
    let mut value: Option<u32> = Some(0);
    while j < cs.len() && digit(cs[j])
        invariant
            i <= j <= cs.len(),
            j == i || number_end(cs@, i + 1) == number_end(cs@, j as int),
            match value {
                Some(v) => number_value(cs@, i as int, j as int) == v,
                None => number_value(cs@, i as int, j as int) > u32::MAX,
            },
        decreases cs.len() - j,
    {
        let d = cs[j] as u32 - '0' as u32;
        value = match value {
            Some(v) => match v.checked_mul(10) {
                Some(w) => w.checked_add(d),
                None => None,
            },
            None => None,
        };
        j += 1;
    }
    (j, value)
}

/// The words of the text `source`; see [`lex`]. A text that holds a
/// character that starts no word, or a number that does not fit, is refused.
pub fn tokens(source: &str) -> (r: Result<Vec<Token>, Error>)
    ensures
        match r {
            Ok(ts) => lex(source@) == Some(words(ts@)),
            Err(e) => e == Error::ParseError && lex(source@) is None,
        },
{
    let cs = chars_of(source);
    let ghost s = source@;
    let mut out: Vec<Token> = Vec::new();
    let mut i: usize = 0;
    assert(words(out@) =~= Seq::<Word>::empty());
    while i < cs.len()
        invariant
            i <= cs.len(),
            cs@ == s,
            s == source@,
            lex(s) == match lex_from(s, i as int) {
                Some(rest) => Some(words(out@) + rest),
                None => None,
            },
        decreases cs.len() - i,
    {
        let c = cs[i];
        let ghost done = words(out@);
        if space(c) {
            i += 1;
        } else if letter(c) {
            let j = scan_name(&cs, i + 1);
            let name = String::from_str(source.substring_char(i, j));
            out.push(Token::Ident(name));
            proof {
                let w = Word::Ident(s.subrange(i as int, j as int));
                assert(words(out@) =~= done.push(w));
                match lex_from(s, j as int) {
                    Some(rest) => {
                        assert(done + (seq![w] + rest) =~= done.push(w) + rest);
                    },
                    None => {},
                }
            }
            i = j;
        } else if digit(c) {
            let (j, value) = scan_number(&cs, i);
            match value {
                None => {
                    return Err(Error::ParseError);
                },
                Some(v) => {
                    out.push(Token::Number(v));
                    proof {
                        let w = Word::Number(v);
                        assert(words(out@) =~= done.push(w));
                        match lex_from(s, j as int) {
                            Some(rest) => {
                                assert(done + (seq![w] + rest) =~= done.push(w) + rest);
                            },
                            None => {},
                        }
                    }
                },
            }
            i = j;
        } else {
            match symbol(&cs, i) {
                None => {
                    return Err(Error::ParseError);
                },
                Some((sym, n)) => {
                    out.push(Token::Symbol(sym));
                    proof {
                        let w = Word::Symbol(sym);
                        assert(words(out@) =~= done.push(w));
                        match lex_from(s, i + n) {
                            Some(rest) => {
                                assert(done + (seq![w] + rest) =~= done.push(w) + rest);
                            },
                            None => {},
                        }
                    }
                    i = i + n;
                },
            }
        }
    }
    proof {
        assert(words(out@) + Seq::<Word>::empty() =~= words(out@));
    }
    Ok(out)
}

} // verus!
