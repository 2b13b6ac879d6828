use vstd::prelude::*;

verus! {

/// Tokenizer of one regular-expression pattern, with one token of lookahead.
pub struct Lexer {
    pattern: Vec<char>,
    current_pos: usize,
    token_start: usize,
    current_token: Option<Token>,
}

#[derive(Clone, Copy, PartialEq, Eq, Debug, Structural)]
pub enum Token {
    Star,
    Or,
    LeftParen,
    RightParen,
    Char(char),
    Special(SpecialToken),
    End,
}

#[derive(Clone, Copy, PartialEq, Eq, Debug, Structural)]
pub enum SpecialToken {
    Lowercase,
    Number,
}

/// The characters that `\` turns into literals.
pub open spec fn is_escapable(c: char) -> bool {
    c == '*' || c == '|' || c == '(' || c == ')' || c == '\\'
}

/// The token that starts at `pos` in `p`, and the position after it; `None` for a bad escape.
pub open spec fn scan_token(p: Seq<char>, pos: int) -> (Option<Token>, int) {
    if pos >= p.len() {
        (Some(Token::End), pos)
    } else if p[pos] == '*' {
        (Some(Token::Star), pos + 1)
    } else if p[pos] == '|' {
        (Some(Token::Or), pos + 1)
    } else if p[pos] == '(' {
        (Some(Token::LeftParen), pos + 1)
    } else if p[pos] == ')' {
        (Some(Token::RightParen), pos + 1)
    } else if p[pos] == '\\' {
        if pos + 1 >= p.len() {
            (None, pos + 1)
        } else if is_escapable(p[pos + 1]) {
            (Some(Token::Char(p[pos + 1])), pos + 2)
        } else if p[pos + 1] == 'd' {
            (Some(Token::Special(SpecialToken::Number)), pos + 2)
        } else if p[pos + 1] == 'w' {
            (Some(Token::Special(SpecialToken::Lowercase)), pos + 2)
        } else {
            (None, pos + 2)
        }
    } else {
        (Some(Token::Char(p[pos])), pos + 1)
    }
}

pub open spec fn bad_escape_message() -> Seq<char> {
    "Error while parsing special character"@
}

impl Lexer {
    pub closed spec fn wf(&self) -> bool {
        &&& self.token_start <= self.current_pos <= self.pattern@.len()
        &&& match self.current_token {
            Some(t) => scan_token(self.pattern@, self.token_start as int) == (
            Some(t),
            self.current_pos as int,
        ),
            None => self.token_start == self.current_pos,
        }
    }

    /// The characters of the pattern.
    pub closed spec fn text(&self) -> Seq<char> {
        self.pattern@
    }

    /// Where the next token, the one that `peek` shows, starts.
    pub closed spec fn position(&self) -> int {
        self.token_start as int
    }

    /// The token that `peek` has read ahead and kept, if any.
    pub closed spec fn cached(&self) -> Option<Token> {
        self.current_token
    }

    /// The next token and where it ends, as `peek` and `next` see them.
    pub open spec fn upcoming(&self) -> (Option<Token>, int) {
        scan_token(self.text(), self.position())
    }

    /// How much of the pattern the lexer has still to hand out.
    pub open spec fn rest(&self) -> int {
        self.text().len() - self.position()
    }

    pub proof fn lemma_position_bound(&self)
        requires
            self.wf(),
        ensures
            0 <= self.position() <= self.text().len(),
            self.cached() is Some ==> self.upcoming().0 == Some(self.cached()->0),
    {
    }

    pub fn new(pattern: &str) -> (r: Self)
        ensures
            r.wf(),
            r.text() == pattern@,
            r.position() == 0,
    {
        let n = pattern.unicode_len();
        let mut chars: Vec<char> = Vec::new();
        let mut i: usize = 0;
        while i < n
            invariant
                n == pattern@.len(),
                i <= n,
                chars@ == pattern@.subrange(0, i as int),
            decreases n - i,
        {
            chars.push(pattern.get_char(i));
            i += 1;
        }
        proof {
            assert(chars@ =~= pattern@);
        }
        Self { pattern: chars, current_pos: 0, token_start: 0, current_token: None }
    }

    /// Hands out the next token and moves past it.
    pub fn next(&mut self) -> (r: Result<Token, String>)
        requires
            old(self).wf(),
        ensures
            final(self).wf(),
            final(self).text() == old(self).text(),
            final(self).position() >= old(self).position(),
            final(self).cached() is None,
            match old(self).upcoming() {
                (Some(t), end) => r == Ok::<Token, String>(t) && final(self).position() == end,
                (None, _) => r is Err && r->Err_0@ == bad_escape_message(),
            },
    {
        let token = self.peek()?;
        self.current_token = None;
        self.token_start = self.current_pos;
        Ok(token)
    }

    /// Shows the next token without moving past it.
    pub fn peek(&mut self) -> (r: Result<Token, String>)
        requires
            old(self).wf(),
        ensures
            final(self).wf(),
            final(self).text() == old(self).text(),
            final(self).position() == old(self).position(),
            r is Ok ==> final(self).cached() == Some(r->Ok_0),
            old(self).cached() is Some ==> r == Ok::<Token, String>(old(self).cached()->0)
                && *final(self) == *old(self),
            match old(self).upcoming() {
                (Some(t), _) => r == Ok::<Token, String>(t),
                (None, _) => r is Err && r->Err_0@ == bad_escape_message(),
            },
    {
        match self.current_token {
            Some(t) => Ok(t),
            None => match self.get() {
                Ok(t) => {
                    self.current_token = Some(t);
                    Ok(t)
                },
                Err(e) => {
                    self.current_pos = self.token_start;
                    Err(e)
                },
            },
        }
    }

    fn get(&mut self) -> (r: Result<Token, String>)
        requires
            old(self).wf(),
            old(self).current_token is None,
        ensures
            final(self).pattern == old(self).pattern,
            final(self).token_start == old(self).token_start,
            final(self).current_token is None,
            final(self).current_pos <= final(self).pattern@.len(),
            match old(self).upcoming() {
                (Some(t), end) => r == Ok::<Token, String>(t) && final(self).current_pos == end,
                (None, _) => r is Err && r->Err_0@ == bad_escape_message(),
            },
    {
        match self.char() {
            Some('*') => Ok(Token::Star),
            Some('|') => Ok(Token::Or),
            Some('(') => Ok(Token::LeftParen),
            Some(')') => Ok(Token::RightParen),
            Some('\\') => self.special_character(),
            Some(c) => Ok(Token::Char(c)),
            None => Ok(Token::End),
        }
    }

    fn special_character(&mut self) -> (r: Result<Token, String>)
        requires
            old(self).current_pos <= old(self).pattern@.len(),
        ensures
            final(self).pattern == old(self).pattern,
            final(self).token_start == old(self).token_start,
            final(self).current_token == old(self).current_token,
            final(self).current_pos <= final(self).pattern@.len(),
            ({
                let p = old(self).pattern@;
                let i = old(self).current_pos as int;
                if i < p.len() && is_escapable(p[i]) {
                    r == Ok::<Token, String>(Token::Char(p[i])) && final(self).current_pos == i + 1
                } else if i < p.len() && p[i] == 'd' {
                    r == Ok::<Token, String>(Token::Special(SpecialToken::Number))
                        && final(self).current_pos == i + 1
                } else if i < p.len() && p[i] == 'w' {
                    r == Ok::<Token, String>(Token::Special(SpecialToken::Lowercase))
                        && final(self).current_pos == i + 1
                } else {
                    r is Err && r->Err_0@ == bad_escape_message()
                }
            }),
    {
        match self.char() {
            Some(ch) if ch == '*' || ch == '|' || ch == '(' || ch == ')' || ch == '\\' => {
                Ok(Token::Char(ch))
            },
            Some('d') => Ok(Token::Special(SpecialToken::Number)),
            Some('w') => Ok(Token::Special(SpecialToken::Lowercase)),
            _ => {
                proof {
                    reveal_strlit("Error while parsing special character");
                }
                Err("Error while parsing special character".to_string())
            },
        }
    }

    fn char(&mut self) -> (r: Option<char>)
        requires
            old(self).current_pos <= old(self).pattern@.len(),
        ensures
            final(self).pattern == old(self).pattern,
            final(self).token_start == old(self).token_start,
            final(self).current_token == old(self).current_token,
            ({
                let p = old(self).pattern@;
                let i = old(self).current_pos as int;
                if i < p.len() {
                    r == Some(p[i]) && final(self).current_pos == i + 1
                } else {
                    r is None && final(self).current_pos == i
                }
            }),
    {
        if self.current_pos < self.pattern.len() {
            let ch = self.pattern[self.current_pos];
            self.current_pos += 1;
            Some(ch)
        } else {
            None
        }
    }
}

} // verus!
