use vstd::prelude::*;
use crate::num::is_digit;
use crate::text::{alphabetic, is_alphabetic, string_of, chars_of};

verus! {

/// Kinds of tokens, and of the syntax-tree nodes built from them.
#[derive(Clone, Copy, Debug, PartialEq, Eq, Structural)]
pub enum TokenType {
    Rule,
    Lctx,
    Rctx,
    Patsep,
    Lsep,
    Rsep,
    Lpara,
    Rpara,
    Condsep,
    Cond,
    Lpsep,
    Rpsep,
    Prob,
    Psep,
    Pat,
    Pred,
    Replacement,
    ParamWord,
    Word,
    Preproc,
    PreprocStart,
    Param,
    Ws,
    Char,
    Letter,
    Number,
    Anum,
    Apara,
    AexpMul,
    Aexp,
    CompExp,
    CondBool,
    CondPara,
    CondAnd,
    Mul,
    Add,
    CompOp,
    And,
    Or,
    Not,
}

pub struct Token {
    pub toktype: TokenType,
    pub val: String,
}

impl View for Token {
    type V = (TokenType, Seq<char>);

    open spec fn view(&self) -> (TokenType, Seq<char>) {
        (self.toktype, self.val@)
    }
}

pub open spec fn tokens_view(ts: Seq<Token>) -> Seq<(TokenType, Seq<char>)> {
    ts.map_values(|t: Token| t@)
}

pub open spec fn char_at(cs: Seq<char>, i: int) -> Option<char> {
    if 0 <= i < cs.len() { Some(cs[i]) } else { None }
}

/// End of a number that starts at `i`: digits, with at most one dot.
pub open spec fn number_end(cs: Seq<char>, i: int, dot: bool) -> int
    decreases cs.len() - i,
{
    if 0 <= i < cs.len() && (is_digit(cs[i]) || (cs[i] == '.' && !dot)) {
        number_end(cs, i + 1, dot || cs[i] == '.')
    } else {
        i
    }
}

/// The token that starts at `i` (none for a line break) and where the next one starts.
pub open spec fn next_token(cs: Seq<char>, i: int) -> (Option<(TokenType, Seq<char>)>, int)
    recommends
        0 <= i < cs.len(),
{
    let c = cs[i];
    let next = char_at(cs, i + 1);
    if c == '<' {
        if next == Some('=') { (Some((TokenType::CompOp, seq!['<', '='])), i + 2) }
        else { (Some((TokenType::Lsep, seq!['<'])), i + 1) }
    } else if c == '>' {
        if next == Some('=') { (Some((TokenType::CompOp, seq!['>', '='])), i + 2) }
        else { (Some((TokenType::Rsep, seq!['>'])), i + 1) }
    } else if c == '=' {
        (Some((TokenType::CompOp, seq!['='])), i + 1)
    } else if c == '!' && next == Some('=') {
        (Some((TokenType::CompOp, seq!['!', '='])), i + 2)
    } else if c == '-' && next == Some('>') {
        (Some((TokenType::Patsep, seq!['-', '>'])), i + 2)
    } else if c == '(' {
        (Some((TokenType::Lpara, seq![c])), i + 1)
    } else if c == ')' {
        (Some((TokenType::Rpara, seq![c])), i + 1)
    } else if c == '[' {
        (Some((TokenType::Lpsep, seq![c])), i + 1)
    } else if c == ']' {
        (Some((TokenType::Rpsep, seq![c])), i + 1)
    } else if c == ':' {
        (Some((TokenType::Condsep, seq![c])), i + 1)
    } else if c == '#' {
        (Some((TokenType::PreprocStart, seq![c])), i + 1)
    } else if c == '@' {
        (Some((TokenType::Psep, seq![c])), i + 1)
    } else if c == ' ' {
        (Some((TokenType::Ws, seq![c])), i + 1)
    } else if c == '\n' || (c == '\r' && next == Some('\n')) {
        (None, i + 1)
    } else if is_digit(c) {
        let j = number_end(cs, i, false);
        (Some((TokenType::Number, cs.subrange(i, j))), j)
    } else if c == ',' {
        (Some((TokenType::Char, seq![c])), i + 1)
    } else if alphabetic(c) {
        (Some((TokenType::Letter, seq![c])), i + 1)
    } else {
        (Some((TokenType::Char, seq![c])), i + 1)
    }
}

/// Tokens of the text from position `i` on.
pub open spec fn lex_from(cs: Seq<char>, i: int) -> Seq<(TokenType, Seq<char>)>
    decreases cs.len() - i,
{
    if i < 0 || i >= cs.len() {
        Seq::empty()
    } else {
        let (t, j) = next_token(cs, i);
        if j <= i || j > cs.len() {
            Seq::empty()
        } else {
            match t {
                Some(t) => seq![t] + lex_from(cs, j),
                None => lex_from(cs, j),
            }
        }
    }
}

/// Tokens of a text.
pub open spec fn lex(cs: Seq<char>) -> Seq<(TokenType, Seq<char>)> {
    lex_from(cs, 0)
}

proof fn lemma_number_end(cs: Seq<char>, i: int, dot: bool)
    requires
        0 <= i <= cs.len(),
    ensures
        i <= number_end(cs, i, dot) <= cs.len(),
    decreases cs.len() - i,
{
    if 0 <= i < cs.len() && (is_digit(cs[i]) || (cs[i] == '.' && !dot)) {
        lemma_number_end(cs, i + 1, dot || cs[i] == '.');
    }
}

fn token(toktype: TokenType, cs: Vec<char>) -> (t: Token)
    ensures
        t@ == (toktype, cs@),
{
    Token { toktype, val: string_of(&cs) }
}

/// Reads the number that starts at `i`; returns its end.
fn scan_number(cs: &Vec<char>, i: usize) -> (j: usize)
    requires
        i <= cs@.len(),
    ensures
        j as int == number_end(cs@, i as int, false),
{
    let mut j = i;
    let mut dot = false;
    while j < cs.len() && ('0' <= cs[j] && cs[j] <= '9' || (cs[j] == '.' && !dot))
        invariant
            i <= j <= cs@.len(),
            number_end(cs@, j as int, dot) == number_end(cs@, i as int, false),
        decreases cs.len() - j,
    {
        if cs[j] == '.' {
            dot = true;
        }
        j += 1;
    }
    j
}

fn copy_range(cs: &Vec<char>, i: usize, j: usize) -> (r: Vec<char>)
    requires
        i <= j <= cs@.len(),
    ensures
        r@ == cs@.subrange(i as int, j as int),
{
    let mut r: Vec<char> = Vec::new();
    let mut k = i;
    while k < j
        invariant
            i <= k <= j <= cs@.len(),
            r@ == cs@.subrange(i as int, k as int),
        decreases j - k,
    {
        r.push(cs[k]);
        k += 1;
        assert(r@ =~= cs@.subrange(i as int, k as int));
    }
    r
}

/// Splits text into tokens. `<=`, `>=`, `!=` and `->` are read before their
/// one-character forms; a digit starts a number that runs over digits and at
/// most one dot; letters and all other characters become one token each.
/// Line breaks separate lines and give no token.
pub fn lexer(rules: &str) -> (tokens: Vec<Token>)
    ensures
        tokens_view(tokens@) == lex(rules@),
{
    let cs = chars_of(rules);
    let n = cs.len();
    let mut tokens: Vec<Token> = Vec::new();
    let mut i: usize = 0;
    while i < n
        invariant
            i <= n == cs@.len(),
            cs@ == rules@,
            tokens_view(tokens@) + lex_from(cs@, i as int) == lex(cs@),
        decreases n - i,
    {
        let c = cs[i];
        let next: Option<char> = if i + 1 < n { Some(cs[i + 1]) } else { None };
        let ghost before = tokens@;
        let (t, j): (Option<Token>, usize) =
            if c == '<' {
                if next == Some('=') { (Some(token(TokenType::CompOp, vec!['<', '='])), i + 2) }
                else { (Some(token(TokenType::Lsep, vec!['<'])), i + 1) }
            } else if c == '>' {
                if next == Some('=') { (Some(token(TokenType::CompOp, vec!['>', '='])), i + 2) }
                else { (Some(token(TokenType::Rsep, vec!['>'])), i + 1) }
            } else if c == '=' {
                (Some(token(TokenType::CompOp, vec!['='])), i + 1)
            } else if c == '!' && next == Some('=') {
                (Some(token(TokenType::CompOp, vec!['!', '='])), i + 2)
            } else if c == '-' && next == Some('>') {
                (Some(token(TokenType::Patsep, vec!['-', '>'])), i + 2)
            } else if c == '(' {
                (Some(token(TokenType::Lpara, vec![c])), i + 1)
            } else if c == ')' {
                (Some(token(TokenType::Rpara, vec![c])), i + 1)
            } else if c == '[' {
                (Some(token(TokenType::Lpsep, vec![c])), i + 1)
            } else if c == ']' {
                (Some(token(TokenType::Rpsep, vec![c])), i + 1)
            } else if c == ':' {
                (Some(token(TokenType::Condsep, vec![c])), i + 1)
            } else if c == '#' {
                (Some(token(TokenType::PreprocStart, vec![c])), i + 1)
            } else if c == '@' {
                (Some(token(TokenType::Psep, vec![c])), i + 1)
            } else if c == ' ' {
                (Some(token(TokenType::Ws, vec![c])), i + 1)
            } else if c == '\n' || (c == '\r' && next == Some('\n')) {
                (None, i + 1)
            } else if '0' <= c && c <= '9' {
                let j = scan_number(&cs, i);
                proof {
                    lemma_number_end(cs@, i as int + 1, false);
                    assert(number_end(cs@, i as int, false) == number_end(cs@, i as int + 1, false));
                }
                (Some(token(TokenType::Number, copy_range(&cs, i, j))), j)
            } else if c == ',' {
                (Some(token(TokenType::Char, vec![c])), i + 1)
            } else if is_alphabetic(c) {
                (Some(token(TokenType::Letter, vec![c])), i + 1)
            } else {
                (Some(token(TokenType::Char, vec![c])), i + 1)
            };
        proof {
            assert(char_at(cs@, i + 1) == next);
            assert(next_token(cs@, i as int).1 == j as int);
            assert(next_token(cs@, i as int).0 == match t { Some(t) => Some(t@), None => None::<(TokenType, Seq<char>)> });
            assert(i < j <= n);
        }
        match t {
            Some(t) => {
                tokens.push(t);
                proof {
                    assert(tokens_view(tokens@) =~= tokens_view(before).push(t@));
                    assert(lex_from(cs@, i as int) == seq![t@] + lex_from(cs@, j as int));
                    assert(tokens_view(tokens@) + lex_from(cs@, j as int) =~= tokens_view(before) + lex_from(cs@, i as int));
                }
            },
            None => {},
        }
        i = j;
    }
    tokens
}

} // verus!
