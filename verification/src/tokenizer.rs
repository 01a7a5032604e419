use crate::errors::TokenizerError;
use vstd::prelude::*;
use vstd::string::StrSliceExecFns;
use vstd::string::StringExecFns;

verus! {

/// The mathematical value of a token kind.
pub enum SpecTokenKind {
    Colon,
    Comma,
    Dot,
    DoubleEquals,
    Equals,
    LeftBrace,
    LeftBracket,
    LeftParen,
    Pipe,
    RightBrace,
    RightBracket,
    RightParen,
    Tick,
    Conj,
    Disj,
    Let,
    Rel,
    Var,
    Literal(Seq<char>),
}

/// The kind of a token: a punctuation symbol, a keyword, or a literal
/// carrying its text.
#[derive(Debug)]
pub enum TokenKind {
    Colon,
    Comma,
    Dot,
    DoubleEquals,
    Equals,
    LeftBrace,
    LeftBracket,
    LeftParen,
    Pipe,
    RightBrace,
    RightBracket,
    RightParen,
    Tick,
    Conj,
    Disj,
    Let,
    Rel,
    Var,
    Literal(String),
}

impl View for TokenKind {
    type V = SpecTokenKind;

    open spec fn view(&self) -> SpecTokenKind {
        match self {
            TokenKind::Colon => SpecTokenKind::Colon,
            TokenKind::Comma => SpecTokenKind::Comma,
            TokenKind::Dot => SpecTokenKind::Dot,
            TokenKind::DoubleEquals => SpecTokenKind::DoubleEquals,
            TokenKind::Equals => SpecTokenKind::Equals,
            TokenKind::LeftBrace => SpecTokenKind::LeftBrace,
            TokenKind::LeftBracket => SpecTokenKind::LeftBracket,
            TokenKind::LeftParen => SpecTokenKind::LeftParen,
            TokenKind::Pipe => SpecTokenKind::Pipe,
            TokenKind::RightBrace => SpecTokenKind::RightBrace,
            TokenKind::RightBracket => SpecTokenKind::RightBracket,
            TokenKind::RightParen => SpecTokenKind::RightParen,
            TokenKind::Tick => SpecTokenKind::Tick,
            TokenKind::Conj => SpecTokenKind::Conj,
            TokenKind::Disj => SpecTokenKind::Disj,
            TokenKind::Let => SpecTokenKind::Let,
            TokenKind::Rel => SpecTokenKind::Rel,
            TokenKind::Var => SpecTokenKind::Var,
            TokenKind::Literal(s) => SpecTokenKind::Literal(s@),
        }
    }
}

impl PartialEq for TokenKind {
    fn eq(&self, other: &TokenKind) -> bool {
        match (self, other) {
            (TokenKind::Colon, TokenKind::Colon) => true,
            (TokenKind::Comma, TokenKind::Comma) => true,
            (TokenKind::Dot, TokenKind::Dot) => true,
            (TokenKind::DoubleEquals, TokenKind::DoubleEquals) => true,
            (TokenKind::Equals, TokenKind::Equals) => true,
            (TokenKind::LeftBrace, TokenKind::LeftBrace) => true,
            (TokenKind::LeftBracket, TokenKind::LeftBracket) => true,
            (TokenKind::LeftParen, TokenKind::LeftParen) => true,
            (TokenKind::Pipe, TokenKind::Pipe) => true,
            (TokenKind::RightBrace, TokenKind::RightBrace) => true,
            (TokenKind::RightBracket, TokenKind::RightBracket) => true,
            (TokenKind::RightParen, TokenKind::RightParen) => true,
            (TokenKind::Tick, TokenKind::Tick) => true,
            (TokenKind::Conj, TokenKind::Conj) => true,
            (TokenKind::Disj, TokenKind::Disj) => true,
            (TokenKind::Let, TokenKind::Let) => true,
            (TokenKind::Rel, TokenKind::Rel) => true,
            (TokenKind::Var, TokenKind::Var) => true,
            (TokenKind::Literal(a), TokenKind::Literal(b)) => *a == *b,
            _ => false,
        }
    }
}

impl vstd::std_specs::cmp::PartialEqSpecImpl for TokenKind {
    open spec fn obeys_eq_spec() -> bool {
        true
    }

    open spec fn eq_spec(&self, other: &TokenKind) -> bool {
        self@ == other@
    }
}

/// One token of source text: its kind and the character offset the
/// scanner recorded for it.
#[derive(Debug)]
pub struct Token {
    pub kind: TokenKind,
    pub offset: usize,
}

impl View for Token {
    type V = (SpecTokenKind, nat);

    open spec fn view(&self) -> (SpecTokenKind, nat) {
        (self.kind@, self.offset as nat)
    }
}

/// True for the characters that may continue a name: ASCII letters and
/// digits.
pub open spec fn spec_word_char(c: char) -> bool {
    ('0' <= c && c <= '9') || ('a' <= c && c <= 'z') || ('A' <= c && c <= 'Z')
}

/// Decides whether a character may continue a name.
fn is_word_char(c: char) -> (r: bool)
    ensures
        r == spec_word_char(c),
{
    ('0' <= c && c <= '9') || ('a' <= c && c <= 'z') || ('A' <= c && c <= 'Z')
}

/// The position just past the end of a comment that starts after
/// position `k`: past the next newline, or the end of the text.
pub open spec fn comment_end(s: Seq<char>, k: int) -> int
    decreases s.len() - k,
    when k <= s.len()
{
    if k >= s.len() {
        k
    } else if s[k] == '\n' {
        k + 1
    } else {
        comment_end(s, k + 1)
    }
}

/// The position just past the run of name characters from `k` on.
pub open spec fn word_end(s: Seq<char>, k: int) -> int
    decreases s.len() - k,
    when k <= s.len()
{
    if k >= s.len() {
        k
    } else if spec_word_char(s[k]) {
        word_end(s, k + 1)
    } else {
        k
    }
}

proof fn lemma_comment_end_bounds(s: Seq<char>, k: int)
    requires
        0 <= k <= s.len(),
    ensures
        k <= comment_end(s, k) <= s.len(),
    decreases s.len() - k,
{
    if k < s.len() && s[k] != '\n' {
        lemma_comment_end_bounds(s, k + 1);
    }
}

proof fn lemma_word_end_bounds(s: Seq<char>, k: int)
    requires
        0 <= k <= s.len(),
    ensures
        k <= word_end(s, k) <= s.len(),
    decreases s.len() - k,
{
    if k < s.len() && spec_word_char(s[k]) {
        lemma_word_end_bounds(s, k + 1);
    }
}

/// The token kind of a scanned word: a keyword or a literal.
pub open spec fn word_kind(w: Seq<char>) -> SpecTokenKind {
    if w == "conj"@ {
        SpecTokenKind::Conj
    } else if w == "disj"@ {
        SpecTokenKind::Disj
    } else if w == "let"@ {
        SpecTokenKind::Let
    } else if w == "rel"@ {
        SpecTokenKind::Rel
    } else if w == "var"@ {
        SpecTokenKind::Var
    } else {
        SpecTokenKind::Literal(w)
    }
}

/// What scanning yields from position `i` of the text on, with the
/// offset counter at `off`: each token with the offset recorded for it.
pub open spec fn spec_scan_from(s: Seq<char>, i: int, off: nat) -> Seq<(SpecTokenKind, nat)>
    decreases s.len() - i,
    when 0 <= i <= s.len()
    via lemma_spec_scan_from_decreases
{
    if i >= s.len() {
        Seq::empty()
    } else {
        let c = s[i];
        if c == ':' {
            seq![(SpecTokenKind::Colon, off)] + spec_scan_from(s, i + 1, off + 1)
        } else if c == ',' {
            seq![(SpecTokenKind::Comma, off)] + spec_scan_from(s, i + 1, off + 1)
        } else if c == '.' {
            seq![(SpecTokenKind::Dot, off)] + spec_scan_from(s, i + 1, off + 1)
        } else if c == '=' {
            if i + 1 < s.len() && s[i + 1] == '=' {
                seq![(SpecTokenKind::DoubleEquals, off)] + spec_scan_from(s, i + 2, off + 2)
            } else {
                seq![(SpecTokenKind::Equals, off)] + spec_scan_from(s, i + 1, off + 1)
            }
        } else if c == '{' {
            seq![(SpecTokenKind::LeftBrace, off)] + spec_scan_from(s, i + 1, off + 1)
        } else if c == '[' {
            seq![(SpecTokenKind::LeftBracket, off)] + spec_scan_from(s, i + 1, off + 1)
        } else if c == '(' {
            seq![(SpecTokenKind::LeftParen, off)] + spec_scan_from(s, i + 1, off + 1)
        } else if c == '|' {
            seq![(SpecTokenKind::Pipe, off)] + spec_scan_from(s, i + 1, off + 1)
        } else if c == '}' {
            seq![(SpecTokenKind::RightBrace, off)] + spec_scan_from(s, i + 1, off + 1)
        } else if c == ']' {
            seq![(SpecTokenKind::RightBracket, off)] + spec_scan_from(s, i + 1, off + 1)
        } else if c == ')' {
            seq![(SpecTokenKind::RightParen, off)] + spec_scan_from(s, i + 1, off + 1)
        } else if c == '\'' {
            seq![(SpecTokenKind::Tick, off)] + spec_scan_from(s, i + 1, off + 1)
        } else if c == '#' {
            let j = comment_end(s, i + 1);
            spec_scan_from(s, j, (off + (j - i)) as nat)
        } else if c == '\n' || c == ' ' {
            spec_scan_from(s, i + 1, off + 1)
        } else {
            let j = word_end(s, i + 1);
            seq![(word_kind(s.subrange(i, j)), (off + (j - i - 1)) as nat)] + spec_scan_from(
                s,
                j,
                (off + (j - i)) as nat,
            )
        }
    }
}

#[via_fn]
proof fn lemma_spec_scan_from_decreases(s: Seq<char>, i: int, off: nat) {
    if 0 <= i < s.len() {
        if s[i] == '#' {
            lemma_comment_end_bounds(s, i + 1);
        } else {
            lemma_word_end_bounds(s, i + 1);
        }
    }
}

/// The models of a token vector.
pub open spec fn tokens_view(ts: Seq<Token>) -> Seq<(SpecTokenKind, nat)> {
    Seq::new(ts.len(), |i: int| ts[i]@)
}

/// Scans source text into a sequence of tokens.  Symbols and keywords
/// become their own kinds; any other run of characters becomes a
/// literal.  `#` starts a comment that runs to the end of the line.
pub fn scan(src: &str) -> (r: Result<Vec<Token>, TokenizerError>)
    ensures
        r matches Ok(tokens) && tokens_view(tokens@) == spec_scan_from(src@, 0, 0),
{
    let n = src.unicode_len();
    let mut offset: usize = 0;
    let mut tokens: Vec<Token> = Vec::new();
    let mut i: usize = 0;
    proof {
        assert(tokens_view(tokens@) =~= Seq::<(SpecTokenKind, nat)>::empty());
        assert(spec_scan_from(src@, 0, 0) == tokens_view(tokens@) + spec_scan_from(src@, 0, 0));
    }
    while i < n
        invariant
            n == src@.len(),
            i <= n,
            offset <= i,
            spec_scan_from(src@, 0, 0) == tokens_view(tokens@) + spec_scan_from(
                src@,
                i as int,
                offset as nat,
            ),
        decreases n - i,
    {
        let ghost i0 = i as int;
        let ghost off0 = offset as nat;
        let ghost tv0 = tokens_view(tokens@);
        let c = src.get_char(i);
        i += 1;
        match c {
            ':' => {
                tokens.push(Token { kind: TokenKind::Colon, offset });
                proof {
                    assert(tokens_view(tokens@) =~= tv0.push((SpecTokenKind::Colon, off0)));
                }
            },
            ',' => {
                tokens.push(Token { kind: TokenKind::Comma, offset });
                proof {
                    assert(tokens_view(tokens@) =~= tv0.push((SpecTokenKind::Comma, off0)));
                }
            },
            '.' => {
                tokens.push(Token { kind: TokenKind::Dot, offset });
                proof {
                    assert(tokens_view(tokens@) =~= tv0.push((SpecTokenKind::Dot, off0)));
                }
            },
            '=' => {
                let next_is_eq = if i < n {
                    src.get_char(i) == '='
                } else {
                    false
                };
                if next_is_eq {
                    tokens.push(Token { kind: TokenKind::DoubleEquals, offset });
                    i += 1;
                    offset += 1;
                    proof {
                        assert(tokens_view(tokens@) =~= tv0.push(
                            (SpecTokenKind::DoubleEquals, off0),
                        ));
                    }
                } else {
                    tokens.push(Token { kind: TokenKind::Equals, offset });
                    proof {
                        assert(tokens_view(tokens@) =~= tv0.push((SpecTokenKind::Equals, off0)));
                    }
                }
            },
            '{' => {
                tokens.push(Token { kind: TokenKind::LeftBrace, offset });
                proof {
                    assert(tokens_view(tokens@) =~= tv0.push((SpecTokenKind::LeftBrace, off0)));
                }
            },
            '[' => {
                tokens.push(Token { kind: TokenKind::LeftBracket, offset });
                proof {
                    assert(tokens_view(tokens@) =~= tv0.push((SpecTokenKind::LeftBracket, off0)));
                }
            },
            '(' => {
                tokens.push(Token { kind: TokenKind::LeftParen, offset });
                proof {
                    assert(tokens_view(tokens@) =~= tv0.push((SpecTokenKind::LeftParen, off0)));
                }
            },
            '|' => {
                tokens.push(Token { kind: TokenKind::Pipe, offset });
                proof {
                    assert(tokens_view(tokens@) =~= tv0.push((SpecTokenKind::Pipe, off0)));
                }
            },
            '}' => {
                tokens.push(Token { kind: TokenKind::RightBrace, offset });
                proof {
                    assert(tokens_view(tokens@) =~= tv0.push((SpecTokenKind::RightBrace, off0)));
                }
            },
            ']' => {
                tokens.push(Token { kind: TokenKind::RightBracket, offset });
                proof {
                    assert(tokens_view(tokens@) =~= tv0.push(
                        (SpecTokenKind::RightBracket, off0),
                    ));
                }
            },
            ')' => {
                tokens.push(Token { kind: TokenKind::RightParen, offset });
                proof {
                    assert(tokens_view(tokens@) =~= tv0.push((SpecTokenKind::RightParen, off0)));
                }
            },
            '\'' => {
                tokens.push(Token { kind: TokenKind::Tick, offset });
                proof {
                    assert(tokens_view(tokens@) =~= tv0.push((SpecTokenKind::Tick, off0)));
                }
            },
            '#' => {
                let ghost centry = i as int;
                let mut done = false;
                while i < n && !done
                    invariant
                        n == src@.len(),
                        1 <= centry <= i <= n,
                        offset - off0 == i - centry,
                        offset <= i,
                        !done ==> comment_end(src@, centry) == comment_end(src@, i as int),
                        done ==> comment_end(src@, centry) == i,
                    decreases n - i, (if done { 0int } else { 1int }),
                {
                    let c2 = src.get_char(i);
                    proof {
                        if c2 == '\n' {
                            assert(comment_end(src@, i as int) == i + 1);
                        } else {
                            assert(comment_end(src@, i as int) == comment_end(src@, i + 1));
                        }
                    }
                    i += 1;
                    offset += 1;
                    if c2 == '\n' {
                        done = true;
                    }
                }
                proof {
                    if !done {
                        assert(i == n);
                        assert(comment_end(src@, i as int) == i);
                    }
                    assert(comment_end(src@, centry) == i);
                }
            },
            '\n' | ' ' => {},
            _ => {
                let start = i - 1;
                let ghost wentry = i as int;
                let mut done = false;
                while i < n && !done
                    invariant
                        n == src@.len(),
                        1 <= wentry <= i <= n,
                        start + 1 == wentry,
                        offset - off0 == i - wentry,
                        offset <= i,
                        !done ==> word_end(src@, wentry) == word_end(src@, i as int),
                        done ==> word_end(src@, wentry) == i,
                    decreases n - i, (if done { 0int } else { 1int }),
                {
                    if is_word_char(src.get_char(i)) {
                        proof {
                            assert(word_end(src@, i as int) == word_end(src@, i + 1));
                        }
                        i += 1;
                        offset += 1;
                    } else {
                        proof {
                            assert(word_end(src@, i as int) == i);
                        }
                        done = true;
                    }
                }
                proof {
                    if !done {
                        assert(i == n);
                        assert(word_end(src@, i as int) == i);
                    }
                    assert(word_end(src@, wentry) == i);
                }
                let word = src.substring_char(start, i).to_owned();
                let ghost wv = src@.subrange(start as int, i as int);
                if word == "conj".to_owned() {
                    tokens.push(Token { kind: TokenKind::Conj, offset });
                    proof {
                        assert(tokens_view(tokens@) =~= tv0.push((word_kind(wv), offset as nat)));
                    }
                } else if word == "disj".to_owned() {
                    tokens.push(Token { kind: TokenKind::Disj, offset });
                    proof {
                        assert(tokens_view(tokens@) =~= tv0.push((word_kind(wv), offset as nat)));
                    }
                } else if word == "let".to_owned() {
                    tokens.push(Token { kind: TokenKind::Let, offset });
                    proof {
                        assert(tokens_view(tokens@) =~= tv0.push((word_kind(wv), offset as nat)));
                    }
                } else if word == "rel".to_owned() {
                    tokens.push(Token { kind: TokenKind::Rel, offset });
                    proof {
                        assert(tokens_view(tokens@) =~= tv0.push((word_kind(wv), offset as nat)));
                    }
                } else if word == "var".to_owned() {
                    tokens.push(Token { kind: TokenKind::Var, offset });
                    proof {
                        assert(tokens_view(tokens@) =~= tv0.push((word_kind(wv), offset as nat)));
                    }
                } else {
                    tokens.push(Token { kind: TokenKind::Literal(word), offset });
                    proof {
                        assert(tokens_view(tokens@) =~= tv0.push((word_kind(wv), offset as nat)));
                    }
                }
            },
        }
        offset += 1;
        proof {
            assert(spec_scan_from(src@, 0, 0) == (tokens_view(tokens@) + spec_scan_from(
                src@,
                i as int,
                offset as nat,
            ))) by {
                assert(spec_scan_from(src@, 0, 0) == tv0 + spec_scan_from(src@, i0, off0));
                assert(tv0 + spec_scan_from(src@, i0, off0) =~= tokens_view(tokens@)
                    + spec_scan_from(src@, i as int, offset as nat));
            }
        }
    }
    proof {
        assert(spec_scan_from(src@, n as int, offset as nat) == Seq::<
            (SpecTokenKind, nat),
        >::empty());
        assert(spec_scan_from(src@, 0, 0) =~= tokens_view(tokens@));
    }
    Ok(tokens)
}

} // verus!
