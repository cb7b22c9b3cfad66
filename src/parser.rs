//! Grammar of the language:
//!
//! ```text
//! program    ::= {statement}
//! statement  ::= "PRINT" (expression | string) nl
//!              | "IF" comparison "THEN" nl {statement} "ENDIF" nl
//!              | "WHILE" comparison "REPEAT" nl {statement} "ENDWHILE" nl
//!              | "LABEL" ident nl
//!              | "GOTO" ident nl
//!              | "LET" ident "=" expression nl
//!              | "INPUT" ident nl
//! comparison ::= expression (("==" | "!=" | ">" | ">=" | "<" | "<=") expression)+
//! expression ::= term {("-" | "+") term}
//! term       ::= unary {("/" | "*") unary}
//! unary      ::= ["+" | "-"] primary
//! primary    ::= number | ident
//! nl         ::= '\n'+
//! ```
use vstd::prelude::*;
use vstd::string::StrSliceExecFns;
use vstd::string::StringExecFns;

use crate::emitter::{
    braces, lemma_braces_add, lemma_braces_line, lemma_no_braces, line, no_braces, Emitter,
};
use crate::lexer::{lemma_scan_progress, push_char, LexError, Lexer};
use crate::token::{plain, tok, Token, TokenType};
use crate::translate::{
    advance, block_body, block_statement, comparison, comparison_rest, decl_text, declare,
    emit, epilogue, escape, expect, expression, expression_rest, first_missing,
    goto_statement, input_statement, is_comparison, label_statement, let_statement, measure,
    newlines, nl, pass, preamble, primary, print_statement, program, read_lines, statement,
    statements, term, term_rest, unary, Fault, PState, Step,
};

verus! {

/// Why a compilation stopped.
#[derive(Debug)]
pub enum CompileError {
    /// The lexer met text that starts no token.
    Lex(LexError),
    /// A token of another kind stood where `expected` was required.
    UnexpectedToken { expected: TokenType, found: String },
    /// A line starts with a token that starts no statement.
    InvalidStatement { found: String, kind: TokenType },
    /// A condition holds no comparison operator.
    ExpectedComparison(String),
    /// An operand is neither a number nor an identifier.
    UnexpectedOperand(String),
    /// A variable is read before any `LET` or `INPUT` binds it.
    UnassignedVariable(String),
    /// A label is declared a second time.
    DuplicateLabel(String),
    /// A `GOTO` names a label that the program never declares.
    UndeclaredLabel(String),
}

/// The fault that an error stands for.
pub open spec fn fault(e: CompileError) -> Fault {
    match e {
        CompileError::Lex(l) => Fault::Lex(l),
        CompileError::UnexpectedToken { expected, found } => Fault::UnexpectedToken(
            expected,
            found@,
        ),
        CompileError::InvalidStatement { found, kind } => Fault::InvalidStatement(found@, kind),
        CompileError::ExpectedComparison(t) => Fault::ExpectedComparison(t@),
        CompileError::UnexpectedOperand(t) => Fault::UnexpectedOperand(t@),
        CompileError::UnassignedVariable(t) => Fault::UnassignedVariable(t@),
        CompileError::DuplicateLabel(t) => Fault::DuplicateLabel(t@),
        CompileError::UndeclaredLabel(t) => Fault::UndeclaredLabel(t@),
    }
}

/// `r` and the state `after` are what the translation `expected` gives:
/// success with that state, or an error standing for that fault.
pub open spec fn outcome(r: Result<(), CompileError>, after: PState, expected: Step) -> bool {
    match expected {
        Ok(s) => r is Ok && after == s,
        Err(f) => r matches Err(e) && fault(e) == f,
    }
}

/// Any error is one found while reading: a missing label is reported
/// only once the whole program has been read.
pub open spec fn mid_parse(r: Result<(), CompileError>) -> bool {
    r matches Err(e) ==> !(e is UndeclaredLabel)
}

/// `a` is an initial part of `b`.
pub open spec fn prefix<T>(a: Seq<T>, b: Seq<T>) -> bool {
    a.len() <= b.len() && forall|i: int| 0 <= i < a.len() ==> #[trigger] a[i] == b[i]
}

/// The texts of a sequence of strings.
pub open spec fn names(v: Seq<String>) -> Seq<Seq<char>> {
    v.map_values(|s: String| s@)
}

/// The declaration lines of `vars`, in order.
pub open spec fn decls(vars: Seq<Seq<char>>) -> Seq<char>
    decreases vars.len(),
{
    if vars.len() == 0 {
        Seq::empty()
    } else {
        decls(vars.drop_last()) + line(decl_text(vars.last()))
    }
}

/// The declaration lines of `vars`, one per name, in order.
pub open spec fn decl_lines(vars: Seq<Seq<char>>) -> Seq<Seq<char>> {
    vars.map_values(|v: Seq<char>| line(decl_text(v)))
}

/// The declarations in the header are the declaration lines of the bound
/// names, one after another.
pub proof fn lemma_decls_are_lines(vars: Seq<Seq<char>>)
    ensures
        decls(vars) == decl_lines(vars).fold_left(
            Seq::<char>::empty(),
            |acc: Seq<char>, l: Seq<char>| acc + l,
        ),
    decreases vars.len(),
{
    if vars.len() > 0 {
        lemma_decls_are_lines(vars.drop_last());
        assert(decl_lines(vars).drop_last() =~= decl_lines(vars.drop_last()));
    }
}

/// Different names have different declaration lines.
pub proof fn lemma_decl_line_injective(a: Seq<char>, b: Seq<char>)
    requires
        line(decl_text(a)) == line(decl_text(b)),
    ensures
        a == b,
{
    reveal_strlit("float ");
    reveal_strlit(";");
    let la = line(decl_text(a));
    let lb = line(decl_text(b));
    assert(la.len() == a.len() + 8);
    assert(lb.len() == b.len() + 8);
    assert forall|k: int| 0 <= k < a.len() implies a[k] == b[k] by {
        assert(la[k + 6] == a[k]);
        assert(lb[k + 6] == b[k]);
    }
    assert(a =~= b);
}

/// A name bound once has exactly one declaration line: among the
/// declaration lines of names recorded without repetition, the line of a
/// recorded name stands at exactly one place.
pub proof fn lemma_declared_once(vars: Seq<Seq<char>>, x: Seq<char>)
    requires
        vars.no_duplicates(),
        vars.contains(x),
    ensures
        exists|i: int|
            0 <= i < vars.len() && #[trigger] decl_lines(vars)[i] == line(decl_text(x)) && forall|
                j: int,
            |
                0 <= j < vars.len() && #[trigger] decl_lines(vars)[j] == line(decl_text(x)) ==> j
                    == i,
{
    let i = choose|i: int| 0 <= i < vars.len() && vars[i] == x;
    assert(decl_lines(vars)[i] == line(decl_text(x)));
    assert forall|j: int|
        0 <= j < vars.len() && #[trigger] decl_lines(vars)[j] == line(decl_text(x)) implies j
        == i by {
        lemma_decl_line_injective(vars[j], x);
    }
}

/// The state before any token is read: both tokens are an empty end of input.
pub open spec fn initial(src: Seq<char>, pos: int, header: Seq<char>, code: Seq<char>) -> PState {
    PState {
        src,
        pos,
        cur: (TokenType::Eof, Seq::empty()),
        peek: (TokenType::Eof, Seq::empty()),
        symbols: Seq::empty(),
        declared: Seq::empty(),
        gotoed: Seq::empty(),
        header,
        code,
        literal: 0,
    }
}

/// The state once the first two tokens are read.
pub open spec fn start(src: Seq<char>, pos: int, header: Seq<char>, code: Seq<char>) -> Step {
    match advance(initial(src, pos, header, code)) {
        Ok(s) => advance(s),
        Err(f) => Err(f),
    }
}

/// The final state of translating the source text `src` (which ends in a
/// line break), or the fault that stops the translation.
pub open spec fn translation(src: Seq<char>) -> Step {
    match start(src, 0, Seq::empty(), Seq::empty()) {
        Ok(s) => program(s),
        Err(f) => Err(f),
    }
}

/// Translates while it parses: pulls tokens from the lexer, checks the
/// grammar and the binding rules, and pushes C text to the emitter.
pub struct Parser {
    pub lexer: Lexer,
    pub emitter: Emitter,
    pub current_token: Token,
    pub peek_token: Token,
    /// Variables bound so far, each once, in order of first binding.
    pub symbols: Vec<String>,
    /// Labels declared so far, each once.
    pub labels_declared: Vec<String>,
    /// Labels named by a `GOTO` so far, in order.
    pub labels_gotoed: Vec<String>,
    /// The header as it stood before the first declaration.
    pub header_base: Ghost<Seq<char>>,
    /// Opening minus closing braces in the string literals printed so far.
    pub literal_braces: Ghost<int>,
}

impl Parser {
    /// The state as the translation sees it.
    pub open spec fn state(&self) -> PState {
        PState {
            src: self.lexer.source@,
            pos: self.lexer.current_pos as int,
            cur: tok(self.current_token),
            peek: tok(self.peek_token),
            symbols: names(self.symbols@),
            declared: names(self.labels_declared@),
            gotoed: names(self.labels_gotoed@),
            header: self.emitter.header@,
            code: self.emitter.code@,
            literal: self.literal_braces@,
        }
    }

    /// The lexer is well formed and its cursor no further than the tokens
    /// allow, variables and labels are each recorded once, and the header
    /// ends with one declaration per variable.
    pub open spec fn wf(&self) -> bool {
        &&& self.lexer.wf()
        &&& self.lexer.current_pos <= self.lexer.source@.len() + 2
        &&& self.peek_token.kind != TokenType::Eof ==> self.lexer.current_pos
            <= self.lexer.source@.len()
        &&& self.current_token.kind != TokenType::Eof ==> self.lexer.current_pos
            <= self.lexer.source@.len() + 1
        &&& names(self.symbols@).no_duplicates()
        &&& names(self.labels_declared@).no_duplicates()
        &&& self.emitter.header@ == self.header_base@ + decls(names(self.symbols@))
        &&& forall|i: int| 0 <= i < self.symbols@.len() ==> no_braces(#[trigger] self.symbols@[i]@)
        &&& plain(self.current_token)
        &&& plain(self.peek_token)
    }

    /// What is left to read.
    pub open spec fn measure(&self) -> nat {
        measure(self.state())
    }

    /// `self` is a well-formed later state of `prev` (see `grows`) whose
    /// new text holds as many opening as closing braces, apart from those
    /// of printed string literals.
    pub open spec fn follows(&self, prev: &Parser) -> bool {
        &&& self.grows(prev)
        &&& braces(self.emitter.code@) - self.literal_braces@ == braces(prev.emitter.code@)
            - prev.literal_braces@
    }

    /// `self` is a well-formed later state of `prev`: records were only added
    /// to, text only appended, and nothing more is left to read.
    pub open spec fn grows(&self, prev: &Parser) -> bool {
        &&& self.wf()
        &&& self.lexer.source@ == prev.lexer.source@
        &&& self.header_base == prev.header_base
        &&& self.emitter.full_path@ == prev.emitter.full_path@
        &&& prefix(prev.symbols@, self.symbols@)
        &&& prefix(prev.labels_declared@, self.labels_declared@)
        &&& prefix(prev.labels_gotoed@, self.labels_gotoed@)
        &&& prefix(prev.emitter.code@, self.emitter.code@)
        &&& self.measure() <= prev.measure()
    }

    /// Nothing has been recorded yet.
    pub open spec fn fresh(&self) -> bool {
        &&& self.symbols@.len() == 0
        &&& self.labels_declared@.len() == 0
        &&& self.labels_gotoed@.len() == 0
    }

    /// A parser whose current token is the first token of `lexer` and whose
    /// peek token is the second.
    pub fn new(lexer: Lexer, emitter: Emitter) -> (r: Result<Parser, CompileError>)
        requires
            lexer.wf(),
            lexer.current_pos <= lexer.source@.len(),
        ensures
            match start(
                lexer.source@,
                lexer.current_pos as int,
                emitter.header@,
                emitter.code@,
            ) {
                Ok(s) => r matches Ok(p) && p.state() == s,
                Err(f) => r matches Err(e) && fault(e) == f,
            },
            r matches Ok(p) ==> {
                &&& p.wf()
                &&& p.fresh()
                &&& p.emitter.full_path@ == emitter.full_path@
                &&& p.header_base@ == emitter.header@
            },
    {
        let ghost header = emitter.header@;
        let mut parser = Parser {
            lexer,
            emitter,
            current_token: Token::new(String::new(), TokenType::Eof),
            peek_token: Token::new(String::new(), TokenType::Eof),
            symbols: Vec::new(),
            labels_declared: Vec::new(),
            labels_gotoed: Vec::new(),
            header_base: Ghost(header),
            literal_braces: Ghost(0),
        };
        proof {
            assert(names(parser.symbols@) =~= Seq::<Seq<char>>::empty());
            assert(names(parser.labels_declared@) =~= Seq::<Seq<char>>::empty());
            assert(names(parser.labels_gotoed@) =~= Seq::<Seq<char>>::empty());
            assert(parser.emitter.header@ =~= header + decls(names(parser.symbols@)));
            assert(parser.current_token.text@ =~= Seq::<char>::empty());
            assert(parser.peek_token.text@ =~= Seq::<char>::empty());
            assert(parser.state() == initial(
                parser.lexer.source@,
                parser.lexer.current_pos as int,
                header,
                parser.emitter.code@,
            ));
        }
        parser.next_token()?;
        parser.next_token()?;
        Ok(parser)
    }

    /// Shifts the peek token into the current one and reads a new peek token.
    fn next_token(&mut self) -> (r: Result<(), CompileError>)
        requires
            old(self).wf(),
            old(self).lexer.current_pos <= old(self).lexer.source@.len() + 1,
        ensures
            mid_parse(r),
            outcome(r, final(self).state(), advance(old(self).state())),
            r is Ok ==> final(self).follows(old(self)),
            r is Ok ==> final(self).literal_braces == old(self).literal_braces,
            r is Ok && old(self).current_token.kind != TokenType::Eof ==> final(self).measure()
                < old(self).measure(),
            r is Ok && old(self).lexer.current_pos <= old(self).lexer.source@.len() ==> final(self).lexer.current_pos <= old(self).lexer.source@.len() + 1,
    {
        proof {
            lemma_scan_progress(self.lexer.source@, self.lexer.current_pos as int);
        }
        match self.lexer.get_token() {
            Ok(t) => {
                self.lexer.next_char();
                let mut t = t;
                std::mem::swap(&mut self.peek_token, &mut t);
                self.current_token = t;
                Ok(())
            },
            Err(e) => Err(CompileError::Lex(e)),
        }
    }

    fn check_token(&self, kind: TokenType) -> (r: bool)
        ensures
            r == (self.current_token.kind == kind),
    {
        self.current_token.kind == kind
    }

    /// Consumes the current token, which must be of kind `kind`.
    fn match_token(&mut self, kind: TokenType) -> (r: Result<(), CompileError>)
        requires
            old(self).wf(),
            kind != TokenType::Eof,
        ensures
            mid_parse(r),
            outcome(r, final(self).state(), expect(old(self).state(), kind)),
            r is Ok ==> final(self).follows(old(self)) && final(self).measure() < old(self).measure(),
            r is Ok ==> final(self).literal_braces == old(self).literal_braces,
    {
        if !self.check_token(kind) {
            return Err(
                CompileError::UnexpectedToken { expected: kind, found: self.current_token.text.clone() },
            );
        }
        self.next_token()
    }

    /// Consumes one line break or more.
    fn nl(&mut self) -> (r: Result<(), CompileError>)
        requires
            old(self).wf(),
        ensures
            mid_parse(r),
            outcome(r, final(self).state(), nl(old(self).state())),
            r is Ok ==> final(self).follows(old(self)) && final(self).measure() < old(self).measure(),
            r is Ok ==> final(self).literal_braces == old(self).literal_braces,
    {
        proof {
            reveal(nl);
        }
        self.match_token(TokenType::Newline)?;
        self.skip_newlines()
    }

    /// Consumes line breaks while they come.
    fn skip_newlines(&mut self) -> (r: Result<(), CompileError>)
        requires
            old(self).wf(),
        ensures
            mid_parse(r),
            outcome(r, final(self).state(), newlines(old(self).state())),
            r is Ok ==> final(self).follows(old(self)),
            r is Ok ==> final(self).literal_braces == old(self).literal_braces,
    {
        while self.check_token(TokenType::Newline)
            invariant
                self.follows(old(self)),
                self.literal_braces == old(self).literal_braces,
                newlines(self.state()) == newlines(old(self).state()),
            decreases self.measure(),
        {
            let ghost before = self.state();
            self.next_token()?;
            proof {
                assert(newlines(before) == newlines(self.state()));
            }
        }
        Ok(())
    }

    fn is_comparison_operator(&self) -> (r: bool)
        ensures
            r == is_comparison(self.current_token.kind),
    {
        self.check_token(TokenType::Gt) || self.check_token(TokenType::GtEq) || self.check_token(
            TokenType::Lt,
        ) || self.check_token(TokenType::LtEq) || self.check_token(TokenType::EqEq)
            || self.check_token(TokenType::NotEq)
    }
    /// Appends `text` to the body.
    fn emit(&mut self, text: &str)
        requires
            old(self).wf(),
            no_braces(text@),
        ensures
            final(self).follows(old(self)),
            final(self).emitter.code@ == old(self).emitter.code@ + text@,
            final(self).state() == emit(old(self).state(), text@),
            final(self).literal_braces == old(self).literal_braces,
            final(self).measure() == old(self).measure(),
            final(self).symbols@ == old(self).symbols@,
            final(self).labels_declared@ == old(self).labels_declared@,
            final(self).labels_gotoed@ == old(self).labels_gotoed@,
            tok(final(self).current_token) == tok(old(self).current_token),
            tok(final(self).peek_token) == tok(old(self).peek_token),
    {
        self.emitter.emit(text);
        proof {
            assert forall|i: int| 0 <= i < old(self).emitter.code@.len() implies #[trigger] old(
                self,
            ).emitter.code@[i] == self.emitter.code@[i] by {}
            lemma_no_braces(text@);
            lemma_braces_add(old(self).emitter.code@, text@);
        }
    }

    /// Appends `text` and a line break to the body.
    fn emit_line(&mut self, text: &str)
        requires
            old(self).wf(),
            no_braces(text@),
        ensures
            final(self).follows(old(self)),
            final(self).emitter.code@ == old(self).emitter.code@ + line(text@),
            final(self).state() == emit(old(self).state(), line(text@)),
            final(self).literal_braces == old(self).literal_braces,
            final(self).measure() == old(self).measure(),
            final(self).symbols@ == old(self).symbols@,
            final(self).labels_declared@ == old(self).labels_declared@,
            final(self).labels_gotoed@ == old(self).labels_gotoed@,
            tok(final(self).current_token) == tok(old(self).current_token),
            tok(final(self).peek_token) == tok(old(self).peek_token),
    {
        self.emitter.emit_line(text);
        proof {
            assert forall|i: int| 0 <= i < old(self).emitter.code@.len() implies #[trigger] old(
                self,
            ).emitter.code@[i] == self.emitter.code@[i] by {}
            lemma_braces_add(old(self).emitter.code@, line(text@));
            lemma_braces_line(text@, Seq::empty());
            assert(text@ + Seq::<char>::empty() =~= text@);
        }
    }

    /// Appends `text`, an opening brace and a line break to the body.
    fn emit_opening_line(&mut self, text: &str)
        requires
            old(self).wf(),
            no_braces(text@),
        ensures
            final(self).grows(old(self)),
            braces(final(self).emitter.code@) == braces(old(self).emitter.code@) + 1,
            final(self).state() == emit(old(self).state(), line(text@ + "{"@)),
            final(self).literal_braces == old(self).literal_braces,
            final(self).measure() == old(self).measure(),
            final(self).symbols@ == old(self).symbols@,
            final(self).labels_declared@ == old(self).labels_declared@,
            final(self).labels_gotoed@ == old(self).labels_gotoed@,
            tok(final(self).current_token) == tok(old(self).current_token),
            tok(final(self).peek_token) == tok(old(self).peek_token),
    {
        self.emitter.emit(text);
        self.emitter.emit_line("{");
        proof {
            reveal_strlit("{");
            let code = old(self).emitter.code@;
            assert forall|i: int| 0 <= i < code.len() implies #[trigger] code[i]
                == self.emitter.code@[i] by {}
            assert(self.emitter.code@ =~= code + line(text@ + "{"@));
            lemma_braces_add(code, line(text@ + "{"@));
            lemma_braces_line(text@, "{"@);
            lemma_braces_char('{');
            assert("{"@ =~= seq!['{']);
        }
    }

    /// Appends a closing brace and a line break to the body.
    fn emit_closing_line(&mut self)
        requires
            old(self).wf(),
        ensures
            final(self).grows(old(self)),
            braces(final(self).emitter.code@) == braces(old(self).emitter.code@) - 1,
            final(self).state() == emit(old(self).state(), line("}"@)),
            final(self).literal_braces == old(self).literal_braces,
            final(self).measure() == old(self).measure(),
            final(self).symbols@ == old(self).symbols@,
            final(self).labels_declared@ == old(self).labels_declared@,
            final(self).labels_gotoed@ == old(self).labels_gotoed@,
            tok(final(self).current_token) == tok(old(self).current_token),
            tok(final(self).peek_token) == tok(old(self).peek_token),
    {
        self.emitter.emit_line("}");
        proof {
            reveal_strlit("}");
            let code = old(self).emitter.code@;
            assert forall|i: int| 0 <= i < code.len() implies #[trigger] code[i]
                == self.emitter.code@[i] by {}
            lemma_braces_add(code, line("}"@));
            lemma_braces_line(Seq::empty(), "}"@);
            assert(Seq::<char>::empty() + "}"@ =~= "}"@);
            lemma_braces_char('}');
            assert("}"@ =~= seq!['}']);
        }
    }

    /// Appends the text of a string literal to the body.
    fn emit_literal(&mut self, text: &str)
        requires
            old(self).wf(),
        ensures
            final(self).follows(old(self)),
            final(self).literal_braces@ == old(self).literal_braces@ + braces(text@),
            final(self).state() == emit(
                PState { literal: old(self).state().literal + braces(text@), ..old(self).state() },
                text@,
            ),
            final(self).measure() == old(self).measure(),
            final(self).symbols@ == old(self).symbols@,
            final(self).labels_declared@ == old(self).labels_declared@,
            final(self).labels_gotoed@ == old(self).labels_gotoed@,
            tok(final(self).current_token) == tok(old(self).current_token),
            tok(final(self).peek_token) == tok(old(self).peek_token),
    {
        self.emitter.emit(text);
        self.literal_braces = Ghost(self.literal_braces@ + braces(text@));
        proof {
            let code = old(self).emitter.code@;
            assert forall|i: int| 0 <= i < code.len() implies #[trigger] code[i]
                == self.emitter.code@[i] by {}
            lemma_braces_add(code, text@);
        }
    }

    /// Emits the current token's text and consumes the token.
    fn emit_and_advance(&mut self) -> (r: Result<(), CompileError>)
        requires
            old(self).wf(),
            old(self).current_token.kind != TokenType::Eof,
            old(self).current_token.kind != TokenType::String,
        ensures
            mid_parse(r),
            outcome(r, final(self).state(), pass(old(self).state())),
            r is Ok ==> final(self).follows(old(self)) && final(self).measure() < old(self).measure(),
            r is Ok ==> final(self).literal_braces == old(self).literal_braces,
    {
        self.emitter.emit(self.current_token.text.as_str());
        proof {
            let code = old(self).emitter.code@;
            let text = old(self).current_token.text@;
            assert forall|i: int| 0 <= i < code.len() implies #[trigger] code[i]
                == self.emitter.code@[i] by {}
            assert(no_braces(text));
            lemma_no_braces(text);
            lemma_braces_add(code, text);
        }
        self.next_token()
    }

    /// primary ::= number | ident
    fn primary(&mut self) -> (r: Result<(), CompileError>)
        requires
            old(self).wf(),
        ensures
            mid_parse(r),
            outcome(r, final(self).state(), primary(old(self).state())),
            r is Ok ==> final(self).follows(old(self)) && final(self).measure() < old(self).measure(),
            r is Ok ==> final(self).literal_braces == old(self).literal_braces,
    {
        if self.check_token(TokenType::Int) || self.check_token(TokenType::Float) {
            self.emit_and_advance()
        } else if self.check_token(TokenType::Ident) {
            if !contains_name(&self.symbols, &self.current_token.text) {
                return Err(CompileError::UnassignedVariable(self.current_token.text.clone()));
            }
            self.emit_and_advance()
        } else {
            Err(CompileError::UnexpectedOperand(self.current_token.text.clone()))
        }
    }

    /// unary ::= ["+" | "-"] primary
    fn unary(&mut self) -> (r: Result<(), CompileError>)
        requires
            old(self).wf(),
        ensures
            mid_parse(r),
            outcome(r, final(self).state(), unary(old(self).state())),
            r is Ok ==> final(self).follows(old(self)) && final(self).measure() < old(self).measure(),
            r is Ok ==> final(self).literal_braces == old(self).literal_braces,
    {
        if self.check_token(TokenType::Plus) || self.check_token(TokenType::Minus) {
            self.emit_and_advance()?;
        }
        self.primary()
    }

    /// term ::= unary {("/" | "*") unary}
    fn term(&mut self) -> (r: Result<(), CompileError>)
        requires
            old(self).wf(),
        ensures
            mid_parse(r),
            outcome(r, final(self).state(), term(old(self).state())),
            r is Ok ==> final(self).follows(old(self)) && final(self).measure() < old(self).measure(),
            r is Ok ==> final(self).literal_braces == old(self).literal_braces,
    {
        self.unary()?;
        while self.check_token(TokenType::Asterisk) || self.check_token(TokenType::Slash)
            invariant
                self.follows(old(self)),
                self.measure() < old(self).measure(),
                self.literal_braces == old(self).literal_braces,
                term(old(self).state()) == term_rest(self.state()),
            decreases self.measure(),
        {
            let ghost before = self.state();
            self.emit_and_advance()?;
            self.unary()?;
            proof {
                assert(term_rest(before) == term_rest(self.state()));
            }
        }
        Ok(())
    }

    /// expression ::= term {("-" | "+") term}
    fn expression(&mut self) -> (r: Result<(), CompileError>)
        requires
            old(self).wf(),
        ensures
            mid_parse(r),
            outcome(r, final(self).state(), expression(old(self).state())),
            r is Ok ==> final(self).follows(old(self)) && final(self).measure() < old(self).measure(),
            r is Ok ==> final(self).literal_braces == old(self).literal_braces,
    {
        proof {
            reveal(expression);
        }
        self.term()?;
        while self.check_token(TokenType::Plus) || self.check_token(TokenType::Minus)
            invariant
                self.follows(old(self)),
                self.measure() < old(self).measure(),
                self.literal_braces == old(self).literal_braces,
                expression(old(self).state()) == expression_rest(self.state()),
            decreases self.measure(),
        {
            let ghost before = self.state();
            self.emit_and_advance()?;
            self.term()?;
            proof {
                assert(expression_rest(before) == expression_rest(self.state()));
            }
        }
        Ok(())
    }

    /// comparison ::= expression (("==" | "!=" | ">" | ">=" | "<" | "<=") expression)+
    fn comparison(&mut self) -> (r: Result<(), CompileError>)
        requires
            old(self).wf(),
        ensures
            mid_parse(r),
            outcome(r, final(self).state(), comparison(old(self).state())),
            r is Ok ==> final(self).follows(old(self)) && final(self).measure() < old(self).measure(),
            r is Ok ==> final(self).literal_braces == old(self).literal_braces,
    {
        proof {
            reveal(comparison);
        }
        self.expression()?;
        if !self.is_comparison_operator() {
            return Err(CompileError::ExpectedComparison(self.current_token.text.clone()));
        }
        self.emit_and_advance()?;
        self.expression()?;
        while self.is_comparison_operator()
            invariant
                self.follows(old(self)),
                self.measure() < old(self).measure(),
                self.literal_braces == old(self).literal_braces,
                comparison(old(self).state()) == comparison_rest(self.state()),
            decreases self.measure(),
        {
            let ghost before = self.state();
            self.emit_and_advance()?;
            self.expression()?;
            proof {
                assert(comparison_rest(before) == comparison_rest(self.state()));
            }
        }
        Ok(())
    }
    /// Binds the current identifier as a variable; the first binding of a
    /// name adds its declaration to the header.
    fn declare(&mut self)
        requires
            old(self).wf(),
            old(self).current_token.kind == TokenType::Ident,
        ensures
            final(self).follows(old(self)),
            final(self).state() == declare(old(self).state()),
            final(self).literal_braces == old(self).literal_braces,
            final(self).measure() == old(self).measure(),
    {
        let name = self.current_token.text.clone();
        if !contains_name(&self.symbols, &name) {
            let declaration = joined("float ", name.as_str(), ";");
            self.emitter.header_line(declaration.as_str());
            self.symbols.push(name);
            proof {
                let prev = names(old(self).symbols@);
                let now = names(self.symbols@);
                assert(now =~= prev.push(name@));
                assert(now.drop_last() =~= prev);
                assert(self.emitter.header@ =~= self.header_base@ + decls(now));
                assert(no_braces(name@));
                assert(self.symbols@[self.symbols@.len() - 1] == name);
            }
        }
    }

    /// statement ::= "PRINT" ... | "IF" ... | "WHILE" ... | "LABEL" ident nl
    ///             | "GOTO" ident nl | "LET" ident "=" expression nl | "INPUT" ident nl
    fn statement(&mut self) -> (r: Result<(), CompileError>)
        requires
            old(self).wf(),
        ensures
            mid_parse(r),
            outcome(r, final(self).state(), statement(old(self).state())),
            r is Ok ==> final(self).follows(old(self)) && final(self).measure() < old(self).measure(),
        decreases old(self).measure(), 1nat,
    {
        let kind = self.current_token.kind;
        if kind == TokenType::Print {
            self.print_statement()
        } else if kind == TokenType::If || kind == TokenType::While {
            self.block_statement()
        } else if kind == TokenType::Label {
            self.label_statement()
        } else if kind == TokenType::Goto {
            self.goto_statement()
        } else if kind == TokenType::Let {
            self.let_statement()
        } else if kind == TokenType::Input {
            self.input_statement()
        } else {
            Err(CompileError::InvalidStatement { found: self.current_token.text.clone(), kind })
        }
    }

    /// "PRINT" (expression | string) nl
    fn print_statement(&mut self) -> (r: Result<(), CompileError>)
        requires
            old(self).wf(),
            old(self).current_token.kind == TokenType::Print,
        ensures
            mid_parse(r),
            outcome(r, final(self).state(), print_statement(old(self).state())),
            r is Ok ==> final(self).follows(old(self)) && final(self).measure() < old(self).measure(),
    {
        proof {
            reveal(print_statement);
        }
        self.next_token()?;
        if self.check_token(TokenType::String) {
            let text = escape_text(&self.current_token.text);
            proof {
                reveal_strlit("printf(\"");
                reveal_strlit("\\n\");");
            }
            self.emit("printf(\"");
            self.emit_literal(text.as_str());
            self.emit_line("\\n\");");
            self.next_token()?;
        } else {
            proof {
                reveal_strlit("printf(\"%.2f\\n\", (float)(");
                reveal_strlit("));");
            }
            self.emit("printf(\"%.2f\\n\", (float)(");
            self.expression()?;
            self.emit_line("));");
        }
        self.nl()
    }

    /// "IF" comparison "THEN" nl {statement} "ENDIF" nl
    /// | "WHILE" comparison "REPEAT" nl {statement} "ENDWHILE" nl
    fn block_statement(&mut self) -> (r: Result<(), CompileError>)
        requires
            old(self).wf(),
            old(self).current_token.kind == TokenType::If || old(self).current_token.kind
                == TokenType::While,
        ensures
            mid_parse(r),
            outcome(r, final(self).state(), block_statement(old(self).state())),
            r is Ok ==> final(self).follows(old(self)) && final(self).measure() < old(self).measure(),
        decreases old(self).measure(), 0nat,
    {
        let (opening, middle, closing) = if self.check_token(TokenType::If) {
            ("if(", TokenType::Then, TokenType::Endif)
        } else {
            ("while(", TokenType::Repeat, TokenType::EndWhile)
        };
        proof {
            reveal_strlit("if(");
            reveal_strlit("while(");
            reveal_strlit(")");
            reveal_strlit("){");
            reveal_strlit("{");
            assert(")"@ + "{"@ =~= "){"@);
        }
        self.emit(opening);
        self.next_token()?;
        self.comparison()?;
        self.match_token(middle)?;
        self.nl()?;
        let ghost before = *self;
        self.emit_opening_line(")");
        let ghost inside = *self;
        proof {
            assert(block_statement(old(self).state()) == match block_body(inside.state(), closing) {
                    Ok(s6) => match expect(s6, closing) {
                        Ok(s7) => nl(emit(s7, line("}"@))),
                        Err(f) => Err(f),
                    },
                    Err(f) => Err(f),
                });
        }
        while !self.check_token(closing)
            invariant
                block_statement(old(self).state()) == match block_body(inside.state(), closing) {
                    Ok(s6) => match expect(s6, closing) {
                        Ok(s7) => nl(emit(s7, line("}"@))),
                        Err(f) => Err(f),
                    },
                    Err(f) => Err(f),
                },
                before.follows(old(self)),
                inside.grows(&before),
                braces(inside.emitter.code@) == braces(before.emitter.code@) + 1,
                inside.literal_braces == before.literal_braces,
                self.follows(&inside),
                self.measure() < old(self).measure(),
                block_body(inside.state(), closing) == block_body(self.state(), closing),
                closing == TokenType::Endif || closing == TokenType::EndWhile,
            decreases self.measure(),
        {
            let ghost at = self.state();
            proof {
                assert(block_body(at, closing) == match statement(at) {
                    Ok(s1) => if measure(s1) < measure(at) {
                        block_body(s1, closing)
                    } else {
                        Ok(s1)
                    },
                    Err(f) => Err(f),
                });
            }
            self.statement()?;
        }
        self.match_token(closing)?;
        self.emit_closing_line();
        self.nl()
    }

    /// "LABEL" ident nl
    fn label_statement(&mut self) -> (r: Result<(), CompileError>)
        requires
            old(self).wf(),
            old(self).current_token.kind == TokenType::Label,
        ensures
            mid_parse(r),
            outcome(r, final(self).state(), label_statement(old(self).state())),
            r is Ok ==> final(self).follows(old(self)) && final(self).measure() < old(self).measure(),
    {
        proof {
            reveal(label_statement);
        }
        self.next_token()?;
        let ghost s0 = *self;
        let name = self.current_token.text.clone();
        if contains_name(&self.labels_declared, &name) {
            return Err(CompileError::DuplicateLabel(name));
        }
        if !self.check_token(TokenType::Ident) {
            return Err(CompileError::UnexpectedToken { expected: TokenType::Ident, found: name });
        }
        let target = name.clone();
        self.labels_declared.push(name);
        proof {
            let prev = names(old(self).labels_declared@);
            assert(names(self.labels_declared@) =~= names(s0.labels_declared@).push(target@));
            assert forall|i: int| 0 <= i < s0.labels_declared@.len() implies #[trigger] s0.labels_declared@[i]
                == self.labels_declared@[i] by {}
            assert(self.follows(&s0));
            reveal_strlit(":");
        }
        self.emit(target.as_str());
        self.emit_line(":");
        self.next_token()?;
        self.nl()
    }

    /// "GOTO" ident nl
    fn goto_statement(&mut self) -> (r: Result<(), CompileError>)
        requires
            old(self).wf(),
            old(self).current_token.kind == TokenType::Goto,
        ensures
            mid_parse(r),
            outcome(r, final(self).state(), goto_statement(old(self).state())),
            r is Ok ==> final(self).follows(old(self)) && final(self).measure() < old(self).measure(),
    {
        proof {
            reveal(goto_statement);
        }
        self.next_token()?;
        let ghost s0 = *self;
        let name = self.current_token.text.clone();
        if !self.check_token(TokenType::Ident) {
            return Err(CompileError::UnexpectedToken { expected: TokenType::Ident, found: name });
        }
        let target = name.clone();
        self.labels_gotoed.push(name);
        proof {
            assert(names(self.labels_gotoed@) =~= names(s0.labels_gotoed@).push(target@));
            assert forall|i: int| 0 <= i < s0.labels_gotoed@.len() implies #[trigger] s0.labels_gotoed@[i]
                == self.labels_gotoed@[i] by {}
            assert(self.follows(&s0));
            reveal_strlit("goto ");
            reveal_strlit(";");
        }
        self.emit("goto ");
        self.emit(target.as_str());
        self.emit_line(";");
        self.next_token()?;
        self.nl()
    }

    /// "LET" ident "=" expression nl
    fn let_statement(&mut self) -> (r: Result<(), CompileError>)
        requires
            old(self).wf(),
            old(self).current_token.kind == TokenType::Let,
        ensures
            mid_parse(r),
            outcome(r, final(self).state(), let_statement(old(self).state())),
            r is Ok ==> final(self).follows(old(self)) && final(self).measure() < old(self).measure(),
    {
        proof {
            reveal(let_statement);
        }
        self.next_token()?;
        let name = self.current_token.text.clone();
        if !self.check_token(TokenType::Ident) {
            return Err(CompileError::UnexpectedToken { expected: TokenType::Ident, found: name });
        }
        self.declare();
        proof {
            reveal_strlit(" = ");
            reveal_strlit(";");
        }
        self.emit(name.as_str());
        self.emit(" = ");
        self.next_token()?;
        self.match_token(TokenType::Eq)?;
        self.expression()?;
        self.emit_line(";");
        self.nl()
    }

    /// "INPUT" ident nl
    fn input_statement(&mut self) -> (r: Result<(), CompileError>)
        requires
            old(self).wf(),
            old(self).current_token.kind == TokenType::Input,
        ensures
            mid_parse(r),
            outcome(r, final(self).state(), input_statement(old(self).state())),
            r is Ok ==> final(self).follows(old(self)) && final(self).measure() < old(self).measure(),
    {
        proof {
            reveal(input_statement);
        }
        self.next_token()?;
        let name = self.current_token.text.clone();
        if !self.check_token(TokenType::Ident) {
            return Err(CompileError::UnexpectedToken { expected: TokenType::Ident, found: name });
        }
        self.declare();
        let ghost declared = self.state();
        proof {
            reveal_strlit("if(0==scanf(\"%f\", &");
            reveal_strlit(")) ");
            reveal_strlit(")) {");
            reveal_strlit("{");
            reveal_strlit("}");
            reveal_strlit(" = 0;");
            reveal_strlit("scanf(\"%*s\");");
        }
        self.emit("if(0==scanf(\"%f\", &");
        self.emit(name.as_str());
        self.emit_opening_line(")) ");
        self.emit(name.as_str());
        self.emit_line(" = 0;");
        self.emit_line("scanf(\"%*s\");");
        self.emit_closing_line();
        proof {
            assert(self.emitter.code@ =~= declared.code + read_lines(name@));
            assert(self.state() == emit(declared, read_lines(name@)));
        }
        self.next_token()?;
        self.nl()
    }

    /// program ::= {statement}
    ///
    /// Translates the whole token stream, then checks that every `GOTO`
    /// target is declared somewhere in the program. Each block opened in the
    /// output is closed: opening and closing braces differ only by those
    /// copied from printed string literals, tallied in `literal_braces`.
    pub fn program(&mut self) -> (r: Result<(), CompileError>)
        requires
            old(self).wf(),
            old(self).fresh(),
        ensures
            outcome(r, final(self).state(), program(old(self).state())),
            r is Ok ==> final(self).wf() && final(self).emitter.full_path@
                == old(self).emitter.full_path@,
            r is Ok ==> braces(final(self).emitter.header@ + final(self).emitter.code@) == braces(
                old(self).emitter.header@ + old(self).emitter.code@,
            ) + final(self).literal_braces@,
    {
        self.emitter.header_line("#include <stdio.h>");
        self.emitter.header_line("int main(void) {");
        self.header_base = Ghost(self.emitter.header@);
        self.literal_braces = Ghost(0);
        proof {
            assert(names(self.symbols@) =~= Seq::<Seq<char>>::empty());
            assert(self.emitter.header@ =~= self.header_base@ + decls(names(self.symbols@)));
            assert(self.header_base@ =~= old(self).emitter.header@ + preamble());
            assert(self.state() == PState {
                header: old(self).state().header + preamble(),
                literal: 0,
                ..old(self).state()
            });
        }
        let ghost start = *self;
        self.skip_newlines()?;
        let ghost s1 = self.state();
        while !self.check_token(TokenType::Eof)
            invariant
                self.follows(&start),
                start.state() == (PState {
                    header: old(self).state().header + preamble(),
                    literal: 0,
                    ..old(self).state()
                }),
                newlines(start.state()) == Ok::<PState, Fault>(s1),
                statements(s1) == statements(self.state()),
            decreases self.measure(),
        {
            let ghost at = self.state();
            proof {
                assert(statements(at) == match statement(at) {
                    Ok(s1) => if measure(s1) < measure(at) {
                        statements(s1)
                    } else {
                        Ok(s1)
                    },
                    Err(f) => Err(f),
                });
            }
            self.statement()?;
        }
        let ghost body = self.emitter.code@;
        proof {
            reveal_strlit("return 0;");
        }
        self.emit_line("return 0;");
        self.emit_closing_line();
        proof {
            let code = self.emitter.code@;
            assert(code =~= body + epilogue());
            lemma_program_braces(
                old(self).emitter.header@,
                old(self).emitter.code@,
                names(self.symbols@),
                body,
            );
        }
        check_labels(&self.labels_gotoed, &self.labels_declared)
    }
} // impl Parser

/// Checks that every label in `gotoed` is among `declared`; names the first
/// one that is not.
pub fn check_labels(gotoed: &Vec<String>, declared: &Vec<String>) -> (r: Result<(), CompileError>)
    ensures
        match first_missing(names(gotoed@), names(declared@)) {
            None => r is Ok,
            Some(l) => r matches Err(CompileError::UndeclaredLabel(x)) && x@ == l,
        },
{
    let mut i: usize = 0;
    proof {
        assert(names(gotoed@).skip(0) =~= names(gotoed@));
    }
    while i < gotoed.len()
        invariant
            i <= gotoed@.len(),
            first_missing(names(gotoed@), names(declared@)) == first_missing(
                names(gotoed@).skip(i as int),
                names(declared@),
            ),
        decreases gotoed@.len() - i,
    {
        let ghost rest = names(gotoed@).skip(i as int);
        proof {
            assert(rest[0] == gotoed@[i as int]@);
            assert(rest.drop_first() =~= names(gotoed@).skip(i + 1));
        }
        if !contains_name(declared, &gotoed[i]) {
            return Err(CompileError::UndeclaredLabel(gotoed[i].clone()));
        }
        i += 1;
    }
    proof {
        assert(names(gotoed@).skip(i as int) =~= Seq::<Seq<char>>::empty());
    }
    Ok(())
}

/// `text` with line breaks, tabs, backslashes and `%` written as escapes.
fn escape_text(text: &String) -> (r: String)
    ensures
        r@ == escape(text@),
{
    let s = text.as_str();
    let n = s.unicode_len();
    let mut r = String::new();
    let mut i: usize = 0;
    while i < n
        invariant
            n == s@.len(),
            s@ == text@,
            i <= n,
            r@ == escape(s@.subrange(0, i as int)),
        decreases n - i,
    {
        let c = s.get_char(i);
        if c == '\n' {
            push_char(&mut r, '\\');
            push_char(&mut r, 'n');
        } else if c == '\r' {
            push_char(&mut r, '\\');
            push_char(&mut r, 'r');
        } else if c == '\t' {
            push_char(&mut r, '\\');
            push_char(&mut r, 't');
        } else if c == '\\' {
            push_char(&mut r, '\\');
            push_char(&mut r, '\\');
        } else if c == '%' {
            push_char(&mut r, '%');
            push_char(&mut r, '%');
        } else {
            push_char(&mut r, c);
        }
        proof {
            let t = s@.subrange(0, i + 1);
            assert(t.drop_last() =~= s@.subrange(0, i as int));
            assert(t.last() == c);
            assert(r@ =~= escape(t));
        }
        i += 1;
    }
    proof {
        assert(s@.subrange(0, n as int) =~= s@);
    }
    r
}

/// `a`, `b` and `c` one after another.
fn joined(a: &str, b: &str, c: &str) -> (r: String)
    ensures
        r@ == a@ + b@ + c@,
{
    let mut r = String::from_str(a);
    r.append(b);
    r.append(c);
    r
}

/// The declarations of brace-free names hold no brace.
proof fn lemma_decls_balanced(vars: Seq<Seq<char>>)
    requires
        forall|i: int| 0 <= i < vars.len() ==> no_braces(#[trigger] vars[i]),
    ensures
        braces(decls(vars)) == 0,
    decreases vars.len(),
{
    if vars.len() > 0 {
        let v = vars.last();
        assert(no_braces(vars[vars.len() - 1]));
        lemma_decls_balanced(vars.drop_last());
        lemma_braces_add(decls(vars.drop_last()), line(decl_text(v)));
        reveal_strlit("float ");
        reveal_strlit(";");
        assert(no_braces(decl_text(v)));
        lemma_braces_line(decl_text(v), Seq::empty());
        assert(decl_text(v) + Seq::<char>::empty() =~= decl_text(v));
    }
}

/// The preamble opens one brace and the epilogue closes it, so a whole
/// program is balanced exactly when its translated statements are.
proof fn lemma_program_braces(
    header: Seq<char>,
    code: Seq<char>,
    vars: Seq<Seq<char>>,
    body: Seq<char>,
)
    requires
        forall|i: int| 0 <= i < vars.len() ==> no_braces(#[trigger] vars[i]),
    ensures
        braces((header + preamble() + decls(vars)) + (body + epilogue())) == braces(header + code)
            + (braces(body) - braces(code)),
{
    reveal_strlit("#include <stdio.h>");
    reveal_strlit("int main(void) {");
    reveal_strlit("int main(void) ");
    reveal_strlit("{");
    reveal_strlit("return 0;");
    reveal_strlit("}");
    lemma_decls_balanced(vars);
    lemma_braces_line("#include <stdio.h>"@, Seq::empty());
    assert("#include <stdio.h>"@ + Seq::<char>::empty() =~= "#include <stdio.h>"@);
    assert("int main(void) {"@ =~= "int main(void) "@ + "{"@);
    lemma_braces_line("int main(void) "@, "{"@);
    lemma_braces_char('{');
    assert("{"@ =~= seq!['{']);
    lemma_braces_line("return 0;"@, Seq::empty());
    assert("return 0;"@ + Seq::<char>::empty() =~= "return 0;"@);
    lemma_braces_line(Seq::empty(), "}"@);
    assert(Seq::<char>::empty() + "}"@ =~= "}"@);
    lemma_braces_char('}');
    assert("}"@ =~= seq!['}']);
    lemma_braces_add(line("#include <stdio.h>"@), line("int main(void) {"@));
    lemma_braces_add(line("return 0;"@), line("}"@));
    lemma_braces_add(header, preamble());
    lemma_braces_add(header + preamble(), decls(vars));
    lemma_braces_add(body, epilogue());
    lemma_braces_add(header + preamble() + decls(vars), body + epilogue());
    lemma_braces_add(header, code);
}

/// Translates `source` in one pass and returns the generated program: the
/// preamble, one declaration per variable, the translated statements and
/// the epilogue.
pub fn compile(source: String) -> (r: Result<String, CompileError>)
    requires
        source@.len() + 3 < usize::MAX,
    ensures
        match translation(source@.push('\n')) {
            Ok(t) => r matches Ok(o) && o@ == t.header + t.code,
            Err(f) => r matches Err(e) && fault(e) == f,
        },
        r matches Ok(o) ==> (translation(source@.push('\n')) matches Ok(t) && braces(o@)
            == t.literal),
{
    let lexer = Lexer::new(source);
    let emitter = Emitter::new(String::new());
    let mut parser = Parser::new(lexer, emitter)?;
    parser.program()?;
    proof {
        assert(Seq::<char>::empty() + Seq::<char>::empty() =~= Seq::<char>::empty());
        assert(braces(Seq::<char>::empty()) == 0);
    }
    Ok(parser.emitter.output())
}

/// Whether `name` is among `v`.
fn contains_name(v: &Vec<String>, name: &String) -> (r: bool)
    ensures
        r == names(v@).contains(name@),
{
    let mut i: usize = 0;
    while i < v.len()
        invariant
            i <= v@.len(),
            forall|j: int| 0 <= j < i ==> v@[j]@ != name@,
        decreases v@.len() - i,
    {
        if v[i] == *name {
            proof {
                assert(names(v@)[i as int] == name@);
            }
            return true;
        }
        i += 1;
    }
    proof {
        assert forall|j: int| 0 <= j < names(v@).len() implies names(v@)[j] != name@ by {
            assert(names(v@)[j] == v@[j]@);
        }
    }
    false
}

proof fn lemma_braces_char(c: char)
    ensures
        braces(seq![c]) == if c == '{' {
            1int
        } else if c == '}' {
            -1int
        } else {
            0int
        },
{
    assert(seq![c].drop_last() =~= Seq::<char>::empty());
    assert(braces(Seq::<char>::empty()) == 0);
}

} // verus!
