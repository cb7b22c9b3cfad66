//! What the parser does, stated over an abstract state: the source and
//! cursor, the current and peek tokens, the records and the two buffers.
//! One spec function per grammar production gives the state after the
//! production, or the fault that stops the translation.
use vstd::prelude::*;

use crate::emitter::{braces, line};
use crate::lexer::{scan, LexError};
use crate::token::TokenType;

verus! {

/// A fault, with texts as character sequences.
pub enum Fault {
    Lex(LexError),
    UnexpectedToken(TokenType, Seq<char>),
    InvalidStatement(Seq<char>, TokenType),
    ExpectedComparison(Seq<char>),
    UnexpectedOperand(Seq<char>),
    UnassignedVariable(Seq<char>),
    DuplicateLabel(Seq<char>),
    UndeclaredLabel(Seq<char>),
}

/// The parser's state as the translation sees it.
pub struct PState {
    pub src: Seq<char>,
    pub pos: int,
    pub cur: (TokenType, Seq<char>),
    pub peek: (TokenType, Seq<char>),
    pub symbols: Seq<Seq<char>>,
    pub declared: Seq<Seq<char>>,
    pub gotoed: Seq<Seq<char>>,
    pub header: Seq<char>,
    pub code: Seq<char>,
    /// Opening minus closing braces of the string literals printed so far.
    pub literal: int,
}

pub type Step = Result<PState, Fault>;

/// What is left to read: a bound that each consumed token lowers.
pub open spec fn measure(s: PState) -> nat {
    ((if s.pos <= s.src.len() {
        s.src.len() - s.pos
    } else {
        0int
    }) + (if s.peek.0 == TokenType::Eof {
        0int
    } else {
        1int
    }) + (if s.cur.0 == TokenType::Eof {
        0int
    } else {
        1int
    })) as nat
}

/// The peek token becomes current and the next token is read.
pub open spec fn advance(s: PState) -> Step {
    match scan(s.src, s.pos) {
        Ok((kind, text, last)) => Ok(PState { cur: s.peek, peek: (kind, text), pos: last + 1, ..s }),
        Err(e) => Err(Fault::Lex(e)),
    }
}

pub open spec fn emit(s: PState, text: Seq<char>) -> PState {
    PState { code: s.code + text, ..s }
}

/// The current token, which must be of kind `kind`, is consumed.
pub open spec fn expect(s: PState, kind: TokenType) -> Step {
    if s.cur.0 == kind {
        advance(s)
    } else {
        Err(Fault::UnexpectedToken(kind, s.cur.1))
    }
}

/// The current token's text is emitted and the token consumed.
pub open spec fn pass(s: PState) -> Step {
    advance(emit(s, s.cur.1))
}

/// Line breaks are consumed while they come.
pub open spec fn newlines(s: PState) -> Step
    decreases measure(s),
{
    if s.cur.0 == TokenType::Newline {
        match advance(s) {
            Ok(s1) => if measure(s1) < measure(s) {
                newlines(s1)
            } else {
                Ok(s1)
            },
            Err(f) => Err(f),
        }
    } else {
        Ok(s)
    }
}

/// nl ::= '\n'+
#[verifier::opaque]
pub open spec fn nl(s: PState) -> Step {
    match expect(s, TokenType::Newline) {
        Ok(s1) => newlines(s1),
        Err(f) => Err(f),
    }
}

/// primary ::= number | ident, where an identifier must be bound.
pub open spec fn primary(s: PState) -> Step {
    if s.cur.0 == TokenType::Int || s.cur.0 == TokenType::Float {
        pass(s)
    } else if s.cur.0 == TokenType::Ident {
        if s.symbols.contains(s.cur.1) {
            pass(s)
        } else {
            Err(Fault::UnassignedVariable(s.cur.1))
        }
    } else {
        Err(Fault::UnexpectedOperand(s.cur.1))
    }
}

/// unary ::= ["+" | "-"] primary
pub open spec fn unary(s: PState) -> Step {
    if s.cur.0 == TokenType::Plus || s.cur.0 == TokenType::Minus {
        match pass(s) {
            Ok(s1) => primary(s1),
            Err(f) => Err(f),
        }
    } else {
        primary(s)
    }
}

/// {("/" | "*") unary}
pub open spec fn term_rest(s: PState) -> Step
    decreases measure(s),
{
    if s.cur.0 == TokenType::Asterisk || s.cur.0 == TokenType::Slash {
        match pass(s) {
            Ok(s1) => match unary(s1) {
                Ok(s2) => if measure(s2) < measure(s) {
                    term_rest(s2)
                } else {
                    Ok(s2)
                },
                Err(f) => Err(f),
            },
            Err(f) => Err(f),
        }
    } else {
        Ok(s)
    }
}

/// term ::= unary {("/" | "*") unary}
pub open spec fn term(s: PState) -> Step {
    match unary(s) {
        Ok(s1) => term_rest(s1),
        Err(f) => Err(f),
    }
}

/// {("-" | "+") term}
pub open spec fn expression_rest(s: PState) -> Step
    decreases measure(s),
{
    if s.cur.0 == TokenType::Plus || s.cur.0 == TokenType::Minus {
        match pass(s) {
            Ok(s1) => match term(s1) {
                Ok(s2) => if measure(s2) < measure(s) {
                    expression_rest(s2)
                } else {
                    Ok(s2)
                },
                Err(f) => Err(f),
            },
            Err(f) => Err(f),
        }
    } else {
        Ok(s)
    }
}

/// expression ::= term {("-" | "+") term}
#[verifier::opaque]
pub open spec fn expression(s: PState) -> Step {
    match term(s) {
        Ok(s1) => expression_rest(s1),
        Err(f) => Err(f),
    }
}

pub open spec fn is_comparison(k: TokenType) -> bool {
    k == TokenType::Gt || k == TokenType::GtEq || k == TokenType::Lt || k == TokenType::LtEq
        || k == TokenType::EqEq || k == TokenType::NotEq
}

/// {op expression}
pub open spec fn comparison_rest(s: PState) -> Step
    decreases measure(s),
{
    if is_comparison(s.cur.0) {
        match pass(s) {
            Ok(s1) => match expression(s1) {
                Ok(s2) => if measure(s2) < measure(s) {
                    comparison_rest(s2)
                } else {
                    Ok(s2)
                },
                Err(f) => Err(f),
            },
            Err(f) => Err(f),
        }
    } else {
        Ok(s)
    }
}

/// comparison ::= expression (op expression)+
#[verifier::opaque]
pub open spec fn comparison(s: PState) -> Step {
    match expression(s) {
        Ok(s1) => if is_comparison(s1.cur.0) {
            match pass(s1) {
                Ok(s2) => match expression(s2) {
                    Ok(s3) => comparison_rest(s3),
                    Err(f) => Err(f),
                },
                Err(f) => Err(f),
            }
        } else {
            Err(Fault::ExpectedComparison(s1.cur.1))
        },
        Err(f) => Err(f),
    }
}

/// The declaration of a variable in the generated program.
pub open spec fn decl_text(name: Seq<char>) -> Seq<char> {
    "float "@ + name + ";"@
}

/// The current token's text is bound as a variable; its first binding adds
/// a declaration to the header.
pub open spec fn declare(s: PState) -> PState {
    if s.symbols.contains(s.cur.1) {
        s
    } else {
        PState {
            symbols: s.symbols.push(s.cur.1),
            header: s.header + line(decl_text(s.cur.1)),
            ..s
        }
    }
}

/// Binding a name keeps the bound names free of repetition, adds the name
/// once, and adds a declaration line exactly when the name is new.
pub proof fn lemma_declare_once(s: PState)
    requires
        s.symbols.no_duplicates(),
    ensures
        declare(s).symbols.no_duplicates(),
        declare(s).symbols.contains(s.cur.1),
        s.symbols.contains(s.cur.1) ==> declare(s) == s,
        !s.symbols.contains(s.cur.1) ==> declare(s).symbols == s.symbols.push(s.cur.1)
            && declare(s).header == s.header + line(decl_text(s.cur.1)),
{
    if !s.symbols.contains(s.cur.1) {
        assert(declare(s).symbols[s.symbols.len() as int] == s.cur.1);
    }
}

/// The text of a string literal made fit for one line of a C format string.
pub open spec fn escape(s: Seq<char>) -> Seq<char>
    decreases s.len(),
{
    if s.len() == 0 {
        Seq::empty()
    } else {
        escape(s.drop_last()) + escape_char(s.last())
    }
}

pub open spec fn escape_char(c: char) -> Seq<char> {
    if c == '\n' {
        seq!['\\', 'n']
    } else if c == '\r' {
        seq!['\\', 'r']
    } else if c == '\t' {
        seq!['\\', 't']
    } else if c == '\\' {
        seq!['\\', '\\']
    } else if c == '%' {
        seq!['%', '%']
    } else {
        seq![c]
    }
}

/// "PRINT" (expression | string) nl
#[verifier::opaque]
pub open spec fn print_statement(s: PState) -> Step {
    match advance(s) {
        Ok(s1) => if s1.cur.0 == TokenType::String {
            let text = escape(s1.cur.1);
            let s2 = PState { literal: s1.literal + braces(text), ..s1 };
            match advance(emit(emit(emit(s2, "printf(\""@), text), line("\\n\");"@))) {
                Ok(s2) => nl(s2),
                Err(f) => Err(f),
            }
        } else {
            match expression(emit(s1, "printf(\"%.2f\\n\", (float)("@)) {
                Ok(s2) => nl(emit(s2, line("));"@))),
                Err(f) => Err(f),
            }
        },
        Err(f) => Err(f),
    }
}

/// "LABEL" ident nl
#[verifier::opaque]
pub open spec fn label_statement(s: PState) -> Step {
    match advance(s) {
        Ok(s1) => if s1.declared.contains(s1.cur.1) {
            Err(Fault::DuplicateLabel(s1.cur.1))
        } else if s1.cur.0 != TokenType::Ident {
            Err(Fault::UnexpectedToken(TokenType::Ident, s1.cur.1))
        } else {
            let s2 = PState { declared: s1.declared.push(s1.cur.1), ..s1 };
            match advance(emit(emit(s2, s1.cur.1), line(":"@))) {
                Ok(s3) => nl(s3),
                Err(f) => Err(f),
            }
        },
        Err(f) => Err(f),
    }
}

/// "GOTO" ident nl
#[verifier::opaque]
pub open spec fn goto_statement(s: PState) -> Step {
    match advance(s) {
        Ok(s1) => if s1.cur.0 != TokenType::Ident {
            Err(Fault::UnexpectedToken(TokenType::Ident, s1.cur.1))
        } else {
            let s2 = PState { gotoed: s1.gotoed.push(s1.cur.1), ..s1 };
            match advance(emit(emit(emit(s2, "goto "@), s1.cur.1), line(";"@))) {
                Ok(s3) => nl(s3),
                Err(f) => Err(f),
            }
        },
        Err(f) => Err(f),
    }
}

/// "LET" ident "=" expression nl
#[verifier::opaque]
pub open spec fn let_statement(s: PState) -> Step {
    match advance(s) {
        Ok(s1) => if s1.cur.0 != TokenType::Ident {
            Err(Fault::UnexpectedToken(TokenType::Ident, s1.cur.1))
        } else {
            match advance(emit(emit(declare(s1), s1.cur.1), " = "@)) {
                Ok(s2) => match expect(s2, TokenType::Eq) {
                    Ok(s3) => match expression(s3) {
                        Ok(s4) => nl(emit(s4, line(";"@))),
                        Err(f) => Err(f),
                    },
                    Err(f) => Err(f),
                },
                Err(f) => Err(f),
            }
        },
        Err(f) => Err(f),
    }
}

/// The lines that read a number into `name`, or zero on bad input.
pub open spec fn read_lines(name: Seq<char>) -> Seq<char> {
    "if(0==scanf(\"%f\", &"@ + name + line(")) {"@) + line(name + " = 0;"@) + line(
        "scanf(\"%*s\");"@,
    ) + line("}"@)
}

/// "INPUT" ident nl
#[verifier::opaque]
pub open spec fn input_statement(s: PState) -> Step {
    match advance(s) {
        Ok(s1) => if s1.cur.0 != TokenType::Ident {
            Err(Fault::UnexpectedToken(TokenType::Ident, s1.cur.1))
        } else {
            match advance(emit(declare(s1), read_lines(s1.cur.1))) {
                Ok(s2) => nl(s2),
                Err(f) => Err(f),
            }
        },
        Err(f) => Err(f),
    }
}

/// statement ::= "PRINT" ... | "IF" ... | "WHILE" ... | "LABEL" ... | "GOTO" ...
///             | "LET" ... | "INPUT" ...
pub open spec fn statement(s: PState) -> Step
    decreases measure(s), 1nat,
{
    let k = s.cur.0;
    if k == TokenType::Print {
        print_statement(s)
    } else if k == TokenType::If || k == TokenType::While {
        block_statement(s)
    } else if k == TokenType::Label {
        label_statement(s)
    } else if k == TokenType::Goto {
        goto_statement(s)
    } else if k == TokenType::Let {
        let_statement(s)
    } else if k == TokenType::Input {
        input_statement(s)
    } else {
        Err(Fault::InvalidStatement(s.cur.1, s.cur.0))
    }
}

/// {statement}, up to the token `closing`.
pub open spec fn block_body(s: PState, closing: TokenType) -> Step
    decreases measure(s), 2nat,
{
    if s.cur.0 == closing {
        Ok(s)
    } else {
        match statement(s) {
            Ok(s1) => if measure(s1) < measure(s) {
                block_body(s1, closing)
            } else {
                Ok(s1)
            },
            Err(f) => Err(f),
        }
    }
}

/// "IF" comparison "THEN" nl {statement} "ENDIF" nl
/// | "WHILE" comparison "REPEAT" nl {statement} "ENDWHILE" nl
pub open spec fn block_statement(s: PState) -> Step
    decreases measure(s), 0nat,
{
    let is_if = s.cur.0 == TokenType::If;
    let opening = if is_if {
        "if("@
    } else {
        "while("@
    };
    let middle = if is_if {
        TokenType::Then
    } else {
        TokenType::Repeat
    };
    let closing = if is_if {
        TokenType::Endif
    } else {
        TokenType::EndWhile
    };
    match advance(emit(s, opening)) {
        Ok(s1) => match comparison(s1) {
            Ok(s2) => match expect(s2, middle) {
                Ok(s3) => match nl(s3) {
                    Ok(s4) => {
                        let s5 = emit(s4, line("){"@));
                        if measure(s5) < measure(s) {
                            match block_body(s5, closing) {
                                Ok(s6) => match expect(s6, closing) {
                                    Ok(s7) => nl(emit(s7, line("}"@))),
                                    Err(f) => Err(f),
                                },
                                Err(f) => Err(f),
                            }
                        } else {
                            Ok(s5)
                        }
                    },
                    Err(f) => Err(f),
                },
                Err(f) => Err(f),
            },
            Err(f) => Err(f),
        },
        Err(f) => Err(f),
    }
}

/// {statement}, up to the end of input.
pub open spec fn statements(s: PState) -> Step
    decreases measure(s),
{
    if s.cur.0 == TokenType::Eof {
        Ok(s)
    } else {
        match statement(s) {
            Ok(s1) => if measure(s1) < measure(s) {
                statements(s1)
            } else {
                Ok(s1)
            },
            Err(f) => Err(f),
        }
    }
}

/// The first name of `used` that is not among `declared`.
pub open spec fn first_missing(used: Seq<Seq<char>>, declared: Seq<Seq<char>>) -> Option<
    Seq<char>,
>
    decreases used.len(),
{
    if used.len() == 0 {
        None
    } else if !declared.contains(used[0]) {
        Some(used[0])
    } else {
        first_missing(used.drop_first(), declared)
    }
}

/// Whether every name in `used` is among `declared`.
pub open spec fn all_declared(used: Seq<Seq<char>>, declared: Seq<Seq<char>>) -> bool {
    forall|i: int| 0 <= i < used.len() ==> declared.contains(#[trigger] used[i])
}

/// The label check fails exactly when some referenced label is undeclared,
/// and then names a referenced label that is not declared, with every
/// label referenced before it declared.
pub proof fn lemma_first_missing(used: Seq<Seq<char>>, declared: Seq<Seq<char>>)
    ensures
        first_missing(used, declared) is None <==> all_declared(used, declared),
        first_missing(used, declared) matches Some(l) ==> exists|i: int|
            0 <= i < used.len() && used[i] == l && !declared.contains(l) && all_declared(
                #[trigger] used.take(i),
                declared,
            ),
    decreases used.len(),
{
    if used.len() > 0 {
        let rest = used.drop_first();
        lemma_first_missing(rest, declared);
        if declared.contains(used[0]) {
            assert forall|i: int| 0 <= i < rest.len() implies #[trigger] rest[i] == used[i + 1] by {}
            if all_declared(rest, declared) {
                assert forall|i: int| 0 <= i < used.len() implies declared.contains(
                    #[trigger] used[i],
                ) by {
                    if i > 0 {
                        assert(used[i] == rest[i - 1]);
                    }
                }
            } else {
                let k = choose|k: int| 0 <= k < rest.len() && !declared.contains(#[trigger] rest[k]);
                assert(!declared.contains(used[k + 1]));
            }
            if first_missing(used, declared) is Some {
                let l = first_missing(used, declared)->Some_0;
                let i = choose|i: int|
                    0 <= i < rest.len() && rest[i] == l && !declared.contains(l) && all_declared(
                        #[trigger] rest.take(i),
                        declared,
                    );
                assert forall|j: int| 0 <= j < i + 1 implies declared.contains(
                    #[trigger] used.take(i + 1)[j],
                ) by {
                    if j > 0 {
                        assert(used.take(i + 1)[j] == rest.take(i)[j - 1]);
                    }
                }
                assert(used[i + 1] == l);
                assert(all_declared(used.take(i + 1), declared));
            }
        } else {
            assert(all_declared(used.take(0), declared));
            assert(first_missing(used, declared) == Some(used[0]));
        }
    }
}

/// The fixed start of every generated program.
pub open spec fn preamble() -> Seq<char> {
    line("#include <stdio.h>"@) + line("int main(void) {"@)
}

/// The fixed end of every generated program.
pub open spec fn epilogue() -> Seq<char> {
    line("return 0;"@) + line("}"@)
}

/// program ::= {statement}, translated between the preamble and the
/// epilogue; every `GOTO` target must be declared somewhere.
pub open spec fn program(s: PState) -> Step {
    let s0 = PState { header: s.header + preamble(), literal: 0, ..s };
    match newlines(s0) {
        Ok(s1) => match statements(s1) {
            Ok(s2) => {
                let s3 = emit(emit(s2, line("return 0;"@)), line("}"@));
                match first_missing(s3.gotoed, s3.declared) {
                    Some(l) => Err(Fault::UndeclaredLabel(l)),
                    None => Ok(s3),
                }
            },
            Err(f) => Err(f),
        },
        Err(f) => Err(f),
    }
}

} // verus!
