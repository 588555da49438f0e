//! A flat lexer: angle brackets and runs of word characters, without a tree.
use vstd::prelude::*;
use crate::htmlparser::{Class, at, chars_of, in_class, lemma_scan, matches_class, scan};

verus! {

/// One token of the flat lexer. A `Run` is a maximal run of ASCII letters,
/// digits, `.` and `-`; whether it reads as a decimal number is the caller's
/// business.
#[derive(Debug, Clone, PartialEq, Eq)]
pub enum Token {
    LAngle,
    RAngle,
    LAngleSlash,
    Run(String),
}

pub enum TokenView {
    LAngle,
    RAngle,
    LAngleSlash,
    Run(Seq<char>),
}

impl Token {
    pub open spec fn view(&self) -> TokenView {
        match self {
            Token::LAngle => TokenView::LAngle,
            Token::RAngle => TokenView::RAngle,
            Token::LAngleSlash => TokenView::LAngleSlash,
            Token::Run(s) => TokenView::Run(s@),
        }
    }
}

/// The tokens of `s` from position `i` on.
pub open spec fn spec_tokens(s: Seq<char>, i: int) -> Seq<TokenView>
    decreases s.len() - i,
{
    if i < 0 || i >= s.len() {
        Seq::empty()
    } else if s[i] == '<' {
        if at(s, i + 1, '/') {
            seq![TokenView::LAngleSlash] + spec_tokens(s, i + 2)
        } else {
            seq![TokenView::LAngle] + spec_tokens(s, i + 1)
        }
    } else if s[i] == '>' {
        seq![TokenView::RAngle] + spec_tokens(s, i + 1)
    } else if in_class(Class::Run, s[i]) {
        let e = scan(s, i, Class::Run);
        proof {
            lemma_scan(s, i + 1, Class::Run);
        }
        seq![TokenView::Run(s.subrange(i, e))] + spec_tokens(s, e)
    } else {
        spec_tokens(s, i + 1)
    }
}

pub open spec fn token_views(v: Seq<Token>) -> Seq<TokenView> {
    v.map_values(|t: Token| t@)
}

proof fn lemma_step(before: Seq<TokenView>, t: TokenView, rest: Seq<TokenView>)
    ensures
        before + (seq![t] + rest) == before.push(t) + rest,
{
    assert(before + (seq![t] + rest) =~= before.push(t) + rest);
}

/// Splits `input` into tokens: `</`, `<`, `>` and runs; other characters
/// are skipped.
pub fn tokenize(input: String) -> (r: Vec<Token>)
    ensures
        token_views(r@) == spec_tokens(input@, 0),
{
    let chars = chars_of(&input);
    let ghost s = chars@;
    let n = chars.len();
    let mut out: Vec<Token> = Vec::new();
    let mut i: usize = 0;
    while i < n
        invariant
            n == chars.len(),
            s == chars@,
            s == input@,
            i <= n,
            spec_tokens(s, 0) == token_views(out@) + spec_tokens(s, i as int),
        decreases n - i,
    {
        let c = chars[i];
        let ghost before = token_views(out@);
        if c == '<' {
            if i + 1 < n && chars[i + 1] == '/' {
                out.push(Token::LAngleSlash);
                proof {
                    lemma_step(before, TokenView::LAngleSlash, spec_tokens(s, i + 2));
                    assert(token_views(out@) =~= before.push(TokenView::LAngleSlash));
                }
                i = i + 2;
            } else {
                out.push(Token::LAngle);
                proof {
                    lemma_step(before, TokenView::LAngle, spec_tokens(s, i + 1));
                    assert(token_views(out@) =~= before.push(TokenView::LAngle));
                }
                i = i + 1;
            }
        } else if c == '>' {
            out.push(Token::RAngle);
            proof {
                lemma_step(before, TokenView::RAngle, spec_tokens(s, i + 1));
                assert(token_views(out@) =~= before.push(TokenView::RAngle));
            }
            i = i + 1;
        } else if matches_class(&Class::Run, c) {
            let start = i;
            proof {
                lemma_scan(s, start as int, Class::Run);
            }
            let mut run = String::new();
            while i < n && matches_class(&Class::Run, chars[i])
                invariant
                    n == chars.len(),
                    s == chars@,
                    start <= i <= scan(s, start as int, Class::Run),
                    scan(s, i as int, Class::Run) == scan(s, start as int, Class::Run),
                    run@ == s.subrange(start as int, i as int),
                decreases n - i,
            {
                proof {
                    lemma_scan(s, i + 1, Class::Run);
                }
                run.push(chars[i]);
                i = i + 1;
                assert(run@ =~= s.subrange(start as int, i as int));
            }
            let ghost rv = run@;
            out.push(Token::Run(run));
            proof {
                lemma_step(before, TokenView::Run(rv), spec_tokens(s, i as int));
                assert(token_views(out@) =~= before.push(TokenView::Run(rv)));
            }
        } else {
            i = i + 1;
        }
    }
    assert(token_views(out@) + Seq::empty() =~= token_views(out@));
    out
}

} // verus!
