use vstd::prelude::*;
use vstd::string::StrSliceExecFns;
use vstd::string::StringExecFns;

pub use crate::token::{Token, TokenType};
use crate::token::{plain, tok};

verus! {

/// Why lexing stopped.
#[derive(Debug, Clone, Copy, PartialEq, Eq, Structural)]
pub enum LexError {
    /// A character that starts no token.
    UnknownChar(char),
    /// A `!` not followed by `=`; holds the character after the `!`.
    ExpectedNotEq(char),
    /// A `"` with no closing `"` before the end of the source.
    UnterminatedString,
}

/// What `char::is_alphanumeric` answers for `c`.
pub uninterp spec fn alphanumeric(c: char) -> bool;

/// Relies on `char::is_alphanumeric`: true for alphabetic or numeric
/// characters, which among ASCII characters are the letters and digits.
#[verifier::external_body]
fn is_alnum(c: char) -> (r: bool)
    ensures
        r == alphanumeric(c),
        (c as u32) < 128 ==> (r <==> (is_ascii_letter(c) || is_ascii_digit(c))),
{
    c.is_alphanumeric()
}

/// Relies on `String::push`: appends one character.
#[verifier::external_body]
pub(crate) fn push_char(s: &mut String, c: char)
    ensures
        final(s)@ == old(s)@.push(c),
{
    s.push(c)
}

pub open spec fn is_ascii_digit(c: char) -> bool {
    '0' <= c && c <= '9'
}

pub open spec fn is_ascii_letter(c: char) -> bool {
    ('a' <= c && c <= 'z') || ('A' <= c && c <= 'Z')
}

pub open spec fn is_blank(c: char) -> bool {
    c == ' ' || c == '\t' || c == '\r'
}

/// The character at `i`, or the sentinel `'\0'` outside the source.
pub open spec fn char_at(src: Seq<char>, i: int) -> char {
    if 0 <= i < src.len() {
        src[i]
    } else {
        '\0'
    }
}

/// The first position at or after `i` that holds no blank.
pub open spec fn skip_blanks(src: Seq<char>, i: int) -> int
    decreases src.len() - i,
{
    if 0 <= i < src.len() && is_blank(src[i]) {
        skip_blanks(src, i + 1)
    } else {
        i
    }
}

/// The first position at or after `i` that holds a line break, or the end.
pub open spec fn line_end(src: Seq<char>, i: int) -> int
    decreases src.len() - i,
{
    if 0 <= i < src.len() && src[i] != '\n' {
        line_end(src, i + 1)
    } else {
        i
    }
}

/// Where a token starts that is looked for at `i`: blanks and then a
/// comment are passed over.
pub open spec fn token_start(src: Seq<char>, i: int) -> int {
    let j = skip_blanks(src, i);
    if char_at(src, j) == '#' {
        line_end(src, j)
    } else {
        j
    }
}

/// The first position at or after `i` that holds a `"`, or the end.
pub open spec fn quote_end(src: Seq<char>, i: int) -> int
    decreases src.len() - i,
{
    if 0 <= i < src.len() && src[i] != '"' {
        quote_end(src, i + 1)
    } else {
        i
    }
}

/// The last position of a number whose text so far ends at `i`, and
/// whether it holds a decimal point; `dot` tells whether it holds one so far.
pub open spec fn number_end(src: Seq<char>, i: int, dot: bool) -> (int, bool)
    decreases src.len() - i,
{
    let n = char_at(src, i + 1);
    if 0 <= i && i + 1 < src.len() && (is_ascii_digit(n) || (n == '.' && !dot)) {
        number_end(src, i + 1, dot || n == '.')
    } else {
        (i, dot)
    }
}

/// The last position of an identifier whose text so far ends at `i`.
pub open spec fn ident_end(src: Seq<char>, i: int) -> int
    decreases src.len() - i,
{
    if 0 <= i && i + 1 < src.len() && alphanumeric(src[i + 1]) {
        ident_end(src, i + 1)
    } else {
        i
    }
}

/// The keyword spelled exactly `s`, if any.
pub open spec fn keyword(s: Seq<char>) -> Option<TokenType> {
    if s == "LABEL"@ {
        Some(TokenType::Label)
    } else if s == "GOTO"@ {
        Some(TokenType::Goto)
    } else if s == "PRINT"@ {
        Some(TokenType::Print)
    } else if s == "INPUT"@ {
        Some(TokenType::Input)
    } else if s == "LET"@ {
        Some(TokenType::Let)
    } else if s == "IF"@ {
        Some(TokenType::If)
    } else if s == "THEN"@ {
        Some(TokenType::Then)
    } else if s == "ENDIF"@ {
        Some(TokenType::Endif)
    } else if s == "WHILE"@ {
        Some(TokenType::While)
    } else if s == "REPEAT"@ {
        Some(TokenType::Repeat)
    } else if s == "ENDWHILE"@ {
        Some(TokenType::EndWhile)
    } else {
        None
    }
}

/// An operator that is `c` alone, or `c` and `=` where `=` follows.
pub open spec fn with_eq(
    src: Seq<char>,
    i: int,
    one: TokenType,
    two: TokenType,
) -> Result<(TokenType, Seq<char>, int), LexError> {
    let c = char_at(src, i);
    if char_at(src, i + 1) == '=' {
        Ok((two, seq![c, '='], i + 1))
    } else {
        Ok((one, seq![c], i))
    }
}

/// The token that the lexer reads when its cursor stands at `pos`: its kind,
/// its text and the position of its last character.
pub open spec fn scan(src: Seq<char>, pos: int) -> Result<(TokenType, Seq<char>, int), LexError> {
    let i = token_start(src, pos);
    let c = char_at(src, i);
    if c == '+' {
        Ok((TokenType::Plus, seq![c], i))
    } else if c == '-' {
        Ok((TokenType::Minus, seq![c], i))
    } else if c == '*' {
        Ok((TokenType::Asterisk, seq![c], i))
    } else if c == '/' {
        Ok((TokenType::Slash, seq![c], i))
    } else if c == '\n' {
        Ok((TokenType::Newline, seq![c], i))
    } else if c == '\0' {
        Ok((TokenType::Eof, seq![c], i))
    } else if c == '=' {
        with_eq(src, i, TokenType::Eq, TokenType::EqEq)
    } else if c == '>' {
        with_eq(src, i, TokenType::Gt, TokenType::GtEq)
    } else if c == '<' {
        with_eq(src, i, TokenType::Lt, TokenType::LtEq)
    } else if c == '!' {
        if char_at(src, i + 1) == '=' {
            Ok((TokenType::NotEq, seq![c, '='], i + 1))
        } else {
            Err(LexError::ExpectedNotEq(char_at(src, i + 1)))
        }
    } else if c == '"' {
        let q = quote_end(src, i + 1);
        if q < src.len() {
            Ok((TokenType::String, src.subrange(i + 1, q), q))
        } else {
            Err(LexError::UnterminatedString)
        }
    } else if is_ascii_digit(c) || c == '.' {
        let (e, dot) = number_end(src, i, c == '.');
        Ok((if dot { TokenType::Float } else { TokenType::Int }, src.subrange(i, e + 1), e))
    } else if is_ascii_letter(c) || c == '_' {
        let e = ident_end(src, i);
        let text = src.subrange(i, e + 1);
        Ok((
            match keyword(text) {
                Some(k) => k,
                None => TokenType::Ident,
            },
            text,
            e,
        ))
    } else {
        Err(LexError::UnknownChar(c))
    }
}

proof fn lemma_skip_blanks(src: Seq<char>, i: int)
    requires
        0 <= i <= src.len(),
        src.len() >= 1,
        src.last() == '\n',
    ensures
        i <= skip_blanks(src, i) <= src.len(),
        i < src.len() ==> skip_blanks(src, i) < src.len(),
    decreases src.len() - i,
{
    if 0 <= i < src.len() && is_blank(src[i]) {
        lemma_skip_blanks(src, i + 1);
    }
}

proof fn lemma_line_end(src: Seq<char>, i: int)
    requires
        0 <= i <= src.len(),
        src.len() >= 1,
        src.last() == '\n',
    ensures
        i <= line_end(src, i) <= src.len(),
        i < src.len() ==> line_end(src, i) < src.len(),
    decreases src.len() - i,
{
    if 0 <= i < src.len() && src[i] != '\n' {
        lemma_line_end(src, i + 1);
    }
}

proof fn lemma_quote_end(src: Seq<char>, i: int)
    requires
        0 <= i,
    ensures
        i <= quote_end(src, i),
    decreases src.len() - i,
{
    if 0 <= i < src.len() && src[i] != '"' {
        lemma_quote_end(src, i + 1);
    }
}

proof fn lemma_number_end(src: Seq<char>, i: int, dot: bool)
    requires
        0 <= i < src.len(),
    ensures
        i <= number_end(src, i, dot).0 < src.len(),
    decreases src.len() - i,
{
    let n = char_at(src, i + 1);
    if 0 <= i && i + 1 < src.len() && (is_ascii_digit(n) || (n == '.' && !dot)) {
        lemma_number_end(src, i + 1, dot || n == '.');
    }
}

proof fn lemma_ident_end(src: Seq<char>, i: int)
    requires
        0 <= i < src.len(),
    ensures
        i <= ident_end(src, i) < src.len(),
    decreases src.len() - i,
{
    if 0 <= i && i + 1 < src.len() && alphanumeric(src[i + 1]) {
        lemma_ident_end(src, i + 1);
    }
}

/// A token read inside the source ends inside it and not before the cursor;
/// at the end of the source the token is the end of input.
pub proof fn lemma_scan_progress(src: Seq<char>, pos: int)
    requires
        src.len() >= 1,
        src.last() == '\n',
        0 <= pos,
    ensures
        scan(src, pos) matches Ok((kind, text, last)) ==> pos <= last && (if pos < src.len() {
            last < src.len()
        } else {
            last == pos && kind == TokenType::Eof
        }),
        pos >= src.len() ==> scan(src, pos) is Ok,
{
    if pos < src.len() {
        lemma_skip_blanks(src, pos);
        let j = skip_blanks(src, pos);
        lemma_line_end(src, j);
    }
    let i = token_start(src, pos);
    if i < src.len() {
        let c = src[i];
        if c == '"' {
            lemma_quote_end(src, i + 1);
        } else if is_ascii_digit(c) || c == '.' {
            lemma_number_end(src, i, c == '.');
        } else if is_ascii_letter(c) || c == '_' {
            lemma_ident_end(src, i);
        }
    }
}

/// Where the next token starts with `=`, a second `=` right after it makes
/// the two one `==` token, and without it the token is a single `=`.
pub proof fn lemma_equals_tokens(src: Seq<char>, pos: int)
    requires
        char_at(src, token_start(src, pos)) == '=',
    ensures
        ({
            let i = token_start(src, pos);
            if char_at(src, i + 1) == '=' {
                scan(src, pos) == Ok::<(TokenType, Seq<char>, int), LexError>(
                    (TokenType::EqEq, seq!['=', '='], i + 1),
                )
            } else {
                scan(src, pos) == Ok::<(TokenType, Seq<char>, int), LexError>(
                    (TokenType::Eq, seq!['='], i),
                )
            }
        }),
{
}

/// The tokens that `lex` reads from the cursor at `pos` on: one token per
/// step for as long as a character follows the cursor.
pub open spec fn lex_from(src: Seq<char>, pos: int) -> Result<Seq<(TokenType, Seq<char>)>, LexError>
    decreases src.len() - pos,
{
    if char_at(src, pos + 1) == '\0' {
        Ok(Seq::empty())
    } else {
        match scan(src, pos) {
            Err(e) => Err(e),
            Ok((kind, text, last)) => if 0 <= pos <= last < src.len() {
                match lex_from(src, last + 1) {
                    Ok(rest) => Ok(seq![(kind, text)] + rest),
                    Err(e) => Err(e),
                }
            } else {
                Ok(seq![(kind, text)])
            },
        }
    }
}

/// `done` followed by what `rest` holds, or the error of `rest`.
pub open spec fn prepend(
    done: Seq<(TokenType, Seq<char>)>,
    rest: Result<Seq<(TokenType, Seq<char>)>, LexError>,
) -> Result<Seq<(TokenType, Seq<char>)>, LexError> {
    match rest {
        Ok(r) => Ok(done + r),
        Err(e) => Err(e),
    }
}

/// Reads every token of `program` that is followed by another character.
pub fn lex(program: String) -> (r: Result<Vec<Token>, LexError>)
    requires
        program@.len() + 3 < usize::MAX,
    ensures
        match lex_from(program@.push('\n'), 0) {
            Ok(ts) => r matches Ok(v) && v@.map_values(|t: Token| tok(t)) == ts,
            Err(e) => r matches Err(e2) && e2 == e,
        },
{
    let mut lexer = Lexer::new(program);
    let mut tokens: Vec<Token> = Vec::new();
    let ghost src = lexer.source@;
    proof {
        assert(tokens@.map_values(|t: Token| tok(t)) =~= Seq::<(TokenType, Seq<char>)>::empty());
        assert(prepend(Seq::empty(), lex_from(src, 0)) =~= lex_from(src, 0));
    }
    while lexer.peek() != '\0'
        invariant
            lexer.wf(),
            lexer.source@ == src,
            lexer.source@ == program@.push('\n'),
            lex_from(src, 0) == prepend(
                tokens@.map_values(|t: Token| tok(t)),
                lex_from(src, lexer.current_pos as int),
            ),
        decreases src.len() - lexer.current_pos,
    {
        proof {
            lemma_scan_progress(src, lexer.current_pos as int);
        }
        let ghost pos = lexer.current_pos as int;
        let ghost done = tokens@.map_values(|t: Token| tok(t));
        let t = lexer.get_token()?;
        let ghost item = tok(t);
        tokens.push(t);
        lexer.next_char();
        proof {
            assert(tokens@.map_values(|t: Token| tok(t)) =~= done.push(item));
            match lex_from(src, lexer.current_pos as int) {
                Ok(rest) => {
                    assert(done + (seq![item] + rest) =~= done.push(item) + rest);
                },
                Err(e) => {},
            }
        }
    }
    proof {
        assert(tokens@.map_values(|t: Token| tok(t)) + Seq::empty() =~= tokens@.map_values(
            |t: Token| tok(t),
        ));
    }
    Ok(tokens)
}

/// Reads source text one character at a time, with one character of lookahead.
pub struct Lexer {
    pub source: Vec<char>,
    pub current_char: char,
    pub current_pos: usize,
}

impl Lexer {
    /// The source ends in a line break, the cursor stays within one place past
    /// its end, and the current character is the one under the cursor.
    pub open spec fn wf(&self) -> bool {
        &&& self.source@.len() >= 1
        &&& self.source@.last() == '\n'
        &&& self.source@.len() + 2 < usize::MAX
        &&& self.current_char == char_at(self.source@, self.current_pos as int)
    }

    /// A lexer at the start of `source`, to which a line break is appended.
    pub fn new(source: String) -> (r: Lexer)
        requires
            source@.len() + 3 < usize::MAX,
        ensures
            r.wf(),
            r.source@ == source@.push('\n'),
            r.current_pos == 0,
    {
        let mut source = source;
        source.append("\n");
        proof {
            reveal_strlit("\n");
        }
        let text = source.as_str();
        let n = text.unicode_len();
        let mut chars: Vec<char> = Vec::new();
        let mut i: usize = 0;
        while i < n
            invariant
                n == text@.len(),
                i <= n,
                chars@ == text@.subrange(0, i as int),
            decreases n - i,
        {
            chars.push(text.get_char(i));
            i += 1;
        }
        proof {
            assert(chars@ =~= text@);
        }
        let first = chars[0];
        Lexer { source: chars, current_char: first, current_pos: 0 }
    }

    /// Moves the cursor one character on; past the end the current
    /// character is the sentinel `'\0'`.
    pub fn next_char(&mut self)
        requires
            old(self).wf(),
            old(self).current_pos < usize::MAX,
        ensures
            final(self).wf(),
            final(self).source@ == old(self).source@,
            final(self).current_pos == old(self).current_pos + 1,
    {
        self.current_pos += 1;
        if self.current_pos >= self.source.len() {
            self.current_char = '\0';
        } else {
            self.current_char = self.source[self.current_pos];
        }
    }

    /// The character after the current one, or `'\0'` past the end.
    pub fn peek(&self) -> (r: char)
        requires
            self.wf(),
        ensures
            r == char_at(self.source@, self.current_pos + 1),
    {
        if self.current_pos >= self.source.len() || self.current_pos + 1 >= self.source.len() {
            '\0'
        } else {
            self.source[self.current_pos + 1]
        }
    }

    fn skip_whitespace(&mut self)
        requires
            old(self).wf(),
        ensures
            final(self).wf(),
            final(self).source@ == old(self).source@,
            final(self).current_pos == skip_blanks(old(self).source@, old(self).current_pos as int),
    {
        while is_blank_char(self.current_char)
            invariant
                self.wf(),
                self.source@ == old(self).source@,
                skip_blanks(self.source@, self.current_pos as int) == skip_blanks(
                    old(self).source@,
                    old(self).current_pos as int,
                ),
            decreases self.source@.len() - self.current_pos,
        {
            self.next_char();
        }
    }

    fn skip_comment(&mut self)
        requires
            old(self).wf(),
        ensures
            final(self).wf(),
            final(self).source@ == old(self).source@,
            final(self).current_pos == if old(self).current_char == '#' {
                line_end(old(self).source@, old(self).current_pos as int)
            } else {
                old(self).current_pos as int
            },
    {
        if self.current_char == '#' {
            while self.current_pos < self.source.len() && self.current_char != '\n'
                invariant
                    self.wf(),
                    self.source@ == old(self).source@,
                    line_end(self.source@, self.current_pos as int) == line_end(
                        old(self).source@,
                        old(self).current_pos as int,
                    ),
                decreases self.source@.len() - self.current_pos,
            {
                self.next_char();
            }
        }
    }

    /// A token of the current character alone.
    fn single(&self, kind: TokenType) -> (r: Token)
        ensures
            r.kind == kind,
            r.text@ == seq![self.current_char],
            self.current_char != '{' && self.current_char != '}' ==> plain(r),
    {
        let mut text = String::new();
        push_char(&mut text, self.current_char);
        Token::new(text, kind)
    }

    /// `one` for the current character alone, `two` where a `=` follows it.
    fn single_or_eq(&mut self, one: TokenType, two: TokenType) -> (r: Token)
        requires
            old(self).wf(),
            old(self).current_pos < old(self).source@.len(),
        ensures
            final(self).wf(),
            final(self).source@ == old(self).source@,
            with_eq(old(self).source@, old(self).current_pos as int, one, two) == Ok::<
                (TokenType, Seq<char>, int),
                LexError,
            >((r.kind, r.text@, final(self).current_pos as int)),
            old(self).current_char != '{' && old(self).current_char != '}' ==> plain(r),
    {
        let mut text = String::new();
        push_char(&mut text, self.current_char);
        if self.peek() == '=' {
            self.next_char();
            push_char(&mut text, self.current_char);
            proof {
                assert(text@ =~= seq![old(self).current_char, '=']);
            }
            Token::new(text, two)
        } else {
            Token::new(text, one)
        }
    }

    /// Classifies the text at the cursor as one token. The cursor is left on
    /// the token's last character.
    pub fn get_token(&mut self) -> (r: Result<Token, LexError>)
        requires
            old(self).wf(),
        ensures
            final(self).wf(),
            final(self).source@ == old(self).source@,
            match scan(old(self).source@, old(self).current_pos as int) {
                Ok((kind, text, last)) => r matches Ok(t) && t.kind == kind && t.text@ == text
                    && final(self).current_pos == last,
                Err(e) => r matches Err(e2) && e2 == e,
            },
            r matches Ok(t) ==> plain(t),
    {
        self.skip_whitespace();
        self.skip_comment();
        let c = self.current_char;
        if c == '+' {
            Ok(self.single(TokenType::Plus))
        } else if c == '-' {
            Ok(self.single(TokenType::Minus))
        } else if c == '*' {
            Ok(self.single(TokenType::Asterisk))
        } else if c == '/' {
            Ok(self.single(TokenType::Slash))
        } else if c == '\n' {
            Ok(self.single(TokenType::Newline))
        } else if c == '\0' {
            Ok(self.single(TokenType::Eof))
        } else if c == '=' {
            Ok(self.single_or_eq(TokenType::Eq, TokenType::EqEq))
        } else if c == '>' {
            Ok(self.single_or_eq(TokenType::Gt, TokenType::GtEq))
        } else if c == '<' {
            Ok(self.single_or_eq(TokenType::Lt, TokenType::LtEq))
        } else if c == '!' {
            let n = self.peek();
            if n == '=' {
                let mut text = String::new();
                push_char(&mut text, c);
                self.next_char();
                push_char(&mut text, n);
                Ok(Token::new(text, TokenType::NotEq))
            } else {
                Err(LexError::ExpectedNotEq(n))
            }
        } else if c == '"' {
            self.string_literal()
        } else if ('0' <= c && c <= '9') || c == '.' {
            Ok(self.number())
        } else if ('a' <= c && c <= 'z') || ('A' <= c && c <= 'Z') || c == '_' {
            Ok(self.identifier())
        } else {
            Err(LexError::UnknownChar(c))
        }
    }

    fn string_literal(&mut self) -> (r: Result<Token, LexError>)
        requires
            old(self).wf(),
            old(self).current_char == '"',
        ensures
            final(self).wf(),
            final(self).source@ == old(self).source@,
            ({
                let src = old(self).source@;
                let i = old(self).current_pos as int;
                let q = quote_end(src, i + 1);
                if q < src.len() {
                    r matches Ok(t) && t.kind == TokenType::String && t.text@ == src.subrange(i + 1, q)
                        && final(self).current_pos == q
                } else {
                    r matches Err(e) && e == LexError::UnterminatedString
                }
            }),
    {
        let ghost start = self.current_pos as int;
        self.next_char();
        let mut text = String::new();
        while self.current_pos < self.source.len() && self.current_char != '"'
            invariant
                self.wf(),
                self.source@ == old(self).source@,
                0 <= start,
                start + 1 <= self.current_pos,
                text@ == self.source@.subrange(start + 1, self.current_pos as int),
                quote_end(self.source@, self.current_pos as int) == quote_end(
                    self.source@,
                    start + 1,
                ),
            decreases self.source@.len() - self.current_pos,
        {
            let ghost p = self.current_pos as int;
            let ghost src = self.source@;
            push_char(&mut text, self.current_char);
            assert(text@ == src.subrange(start + 1, p).push(src[p]));
            self.next_char();
            proof {
                assert(self.current_pos == p + 1);
                assert(self.source@ == src);
                assert(text@ == src.subrange(start + 1, p).push(src[p]));
                assert(p + 1 <= src.len());
                assert(src.subrange(start + 1, p + 1) =~= src.subrange(start + 1, p).push(src[p]));
                assert(text@ =~= self.source@.subrange(start + 1, p + 1));
            }
        }
        if self.current_pos >= self.source.len() {
            Err(LexError::UnterminatedString)
        } else {
            Ok(Token::new(text, TokenType::String))
        }
    }

    fn number(&mut self) -> (r: Token)
        requires
            old(self).wf(),
            old(self).current_pos < old(self).source@.len(),
            is_ascii_digit(old(self).current_char) || old(self).current_char == '.',
        ensures
            final(self).wf(),
            final(self).source@ == old(self).source@,
            ({
                let src = old(self).source@;
                let i = old(self).current_pos as int;
                let (e, dot) = number_end(src, i, src[i] == '.');
                &&& r.kind == (if dot { TokenType::Float } else { TokenType::Int })
                &&& r.text@ == src.subrange(i, e + 1)
                &&& final(self).current_pos == e
            }),
            plain(r),
    {
        let ghost start = self.current_pos as int;
        let mut is_float = self.current_char == '.';
        let mut text = String::new();
        push_char(&mut text, self.current_char);
        loop
            invariant
                self.wf(),
                self.source@ == old(self).source@,
                0 <= start <= self.current_pos < self.source@.len(),
                text@ == self.source@.subrange(start, self.current_pos + 1),
                forall|k: int| 0 <= k < text@.len() ==> #[trigger] text@[k] != '{' && text@[k] != '}',
                number_end(self.source@, self.current_pos as int, is_float) == number_end(
                    self.source@,
                    start,
                    self.source@[start] == '.',
                ),
            ensures
                self.wf(),
                self.source@ == old(self).source@,
                text@ == self.source@.subrange(start, self.current_pos + 1),
                forall|k: int| 0 <= k < text@.len() ==> #[trigger] text@[k] != '{' && text@[k] != '}',
                (self.current_pos as int, is_float) == number_end(
                    self.source@,
                    start,
                    self.source@[start] == '.',
                ),
            decreases self.source@.len() - self.current_pos,
        {
            let n = self.peek();
            if !(('0' <= n && n <= '9') || (n == '.' && !is_float)) {
                assert(number_end(self.source@, self.current_pos as int, is_float) == (
                    self.current_pos as int,
                    is_float,
                ));
                break;
            }
            let ghost p = self.current_pos as int;
            self.next_char();
            push_char(&mut text, self.current_char);
            if self.current_char == '.' {
                is_float = true;
            }
            proof {
                assert(self.current_pos == p + 1);
                assert(text@ =~= self.source@.subrange(start, p + 2));
            }
        }

        if is_float {
            Token::new(text, TokenType::Float)
        } else {
            Token::new(text, TokenType::Int)
        }
    }

    fn identifier(&mut self) -> (r: Token)
        requires
            old(self).wf(),
            old(self).current_pos < old(self).source@.len(),
            is_ascii_letter(old(self).current_char) || old(self).current_char == '_',
        ensures
            final(self).wf(),
            final(self).source@ == old(self).source@,
            ({
                let src = old(self).source@;
                let i = old(self).current_pos as int;
                let e = ident_end(src, i);
                let text = src.subrange(i, e + 1);
                &&& r.kind == (match keyword(text) {
                    Some(k) => k,
                    None => TokenType::Ident,
                })
                &&& r.text@ == text
                &&& final(self).current_pos == e
            }),
            plain(r),
    {
        let ghost start = self.current_pos as int;
        let mut text = String::new();
        push_char(&mut text, self.current_char);
        loop
            invariant
                self.wf(),
                self.source@ == old(self).source@,
                0 <= start <= self.current_pos < self.source@.len(),
                text@ == self.source@.subrange(start, self.current_pos + 1),
                ident_end(self.source@, self.current_pos as int) == ident_end(self.source@, start),
                forall|k: int| 0 <= k < text@.len() ==> #[trigger] text@[k] != '{' && text@[k] != '}',
            ensures
                self.wf(),
                self.source@ == old(self).source@,
                text@ == self.source@.subrange(start, self.current_pos + 1),
                forall|k: int| 0 <= k < text@.len() ==> #[trigger] text@[k] != '{' && text@[k] != '}',
                self.current_pos == ident_end(self.source@, start),
            decreases self.source@.len() - self.current_pos,
        {
            let n = self.peek();
            let alnum = is_alnum(n);
            proof {
                assert(('{' as u32) == 123 && ('}' as u32) == 125);
            }
            if !alnum {
                assert(ident_end(self.source@, self.current_pos as int) == self.current_pos as int);
                break;
            }
            let ghost p = self.current_pos as int;
            self.next_char();
            push_char(&mut text, self.current_char);
            proof {
                assert(self.current_pos == p + 1);
                assert(text@ =~= self.source@.subrange(start, p + 2));
            }
        }

        match Self::is_keyword(&text) {
            Some(kind) => Token::new(text, kind),
            None => Token::new(text, TokenType::Ident),
        }
    }

    fn is_keyword(token_text: &String) -> (r: Option<TokenType>)
        ensures
            r == keyword(token_text@),
    {
        if is_word(token_text, "LABEL") {
            Some(TokenType::Label)
        } else if is_word(token_text, "GOTO") {
            Some(TokenType::Goto)
        } else if is_word(token_text, "PRINT") {
            Some(TokenType::Print)
        } else if is_word(token_text, "INPUT") {
            Some(TokenType::Input)
        } else if is_word(token_text, "LET") {
            Some(TokenType::Let)
        } else if is_word(token_text, "IF") {
            Some(TokenType::If)
        } else if is_word(token_text, "THEN") {
            Some(TokenType::Then)
        } else if is_word(token_text, "ENDIF") {
            Some(TokenType::Endif)
        } else if is_word(token_text, "WHILE") {
            Some(TokenType::While)
        } else if is_word(token_text, "REPEAT") {
            Some(TokenType::Repeat)
        } else if is_word(token_text, "ENDWHILE") {
            Some(TokenType::EndWhile)
        } else {
            None
        }
    }
}

fn is_blank_char(c: char) -> (r: bool)
    ensures
        r == is_blank(c),
{
    c == ' ' || c == '\t' || c == '\r'
}

fn is_word(text: &String, word: &str) -> (r: bool)
    ensures
        r == (text@ == word@),
{
    let w = String::from_str(word);
    *text == w
}

} // verus!
