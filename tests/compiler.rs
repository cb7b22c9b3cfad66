use haneul::emitter::Emitter;
use haneul::lexer::{lex, LexError, Lexer};
use haneul::parser::{check_labels, compile, CompileError, Parser};
use haneul::token::{Token, TokenType};

fn run(source: &str) -> Result<String, CompileError> {
    compile(source.to_string())
}

fn kinds(source: &str) -> Vec<TokenType> {
    lex(source.to_string()).unwrap().iter().map(|t| t.kind()).collect()
}

#[test]
fn let_and_print_scenario() {
    let out = run("LET x = 1 + 2 * 3\nPRINT x\n").unwrap();
    assert_eq!(
        out,
        "#include <stdio.h>\nint main(void) {\nfloat x;\nx = 1+2*3;\nprintf(\"%.2f\\n\", (float)(x));\nreturn 0;\n}\n"
    );
    assert_eq!(out.matches("float x;").count(), 1);
}

#[test]
fn forward_goto_is_legal() {
    let out = run("GOTO missing\nLABEL missing\n").unwrap();
    assert!(out.contains("goto missing;\n"));
    assert!(out.contains("missing:\n"));
}

#[test]
fn goto_without_label_fails_at_end() {
    match run("GOTO missing\n") {
        Err(CompileError::UndeclaredLabel(l)) => assert_eq!(l, "missing"),
        other => panic!("unexpected result: {:?}", other),
    }
}

#[test]
fn unbound_variable_fails() {
    match run("PRINT y\n") {
        Err(CompileError::UnassignedVariable(v)) => assert_eq!(v, "y"),
        other => panic!("unexpected result: {:?}", other),
    }
}

#[test]
fn bare_bang_fails_lexing() {
    match lex("!x".to_string()) {
        Err(e) => assert_eq!(e, LexError::ExpectedNotEq('x')),
        Ok(_) => panic!("lexing should fail"),
    }
    match run("!x") {
        Err(CompileError::Lex(e)) => assert_eq!(e, LexError::ExpectedNotEq('x')),
        other => panic!("unexpected result: {:?}", other),
    }
}

#[test]
fn double_equals_is_one_token() {
    let tokens = lex("==".to_string()).unwrap();
    assert_eq!(tokens.len(), 1);
    assert_eq!(tokens[0].kind(), TokenType::EqEq);
    assert_eq!(tokens[0].text(), "==");
}

#[test]
fn single_equals_is_one_token() {
    let tokens = lex("= 1".to_string()).unwrap();
    assert_eq!(tokens.len(), 2);
    assert_eq!(tokens[0].kind(), TokenType::Eq);
    assert_eq!(tokens[0].text(), "=");
    assert_eq!(tokens[1].kind(), TokenType::Int);
}

#[test]
fn blocks_are_balanced() {
    let source = "LET a = 0\nWHILE a < 3 REPEAT\nIF a == 1 THEN\nPRINT \"one\"\nENDIF\nLET a = a + 1\nENDWHILE\n";
    let out = run(source).unwrap();
    assert_eq!(out.matches('{').count(), out.matches('}').count());
    assert_eq!(out.matches("){\n").count(), 2);
    assert!(out.contains("while(a<3){\n"));
    assert!(out.contains("if(a==1){\n"));
    assert!(out.contains("printf(\"one\\n\");\n"));
}

#[test]
fn one_declaration_per_variable() {
    let source = "LET x = 1\nLET x = x + 1\nINPUT x\nPRINT x\nPRINT x * x\n";
    let out = run(source).unwrap();
    assert_eq!(out.matches("float x;").count(), 1);
}

#[test]
fn input_declares_and_reads() {
    let out = run("INPUT n\nPRINT n\n").unwrap();
    assert!(out.contains("float n;\n"));
    assert!(out.contains("if(0==scanf(\"%f\", &n)) {\nn = 0;\nscanf(\"%*s\");\n}\n"));
}

#[test]
fn label_redeclared_fails() {
    match run("LABEL a\nLABEL a\n") {
        Err(CompileError::DuplicateLabel(l)) => assert_eq!(l, "a"),
        other => panic!("unexpected result: {:?}", other),
    }
}

#[test]
fn label_declared_once_used_often() {
    let out = run("LABEL top\nGOTO top\nGOTO top\n").unwrap();
    assert_eq!(out.matches("goto top;").count(), 2);
}

#[test]
fn invalid_statement_fails() {
    match run("x = 1\n") {
        Err(CompileError::InvalidStatement { found, kind }) => {
            assert_eq!(found, "x");
            assert_eq!(kind, TokenType::Ident);
        }
        other => panic!("unexpected result: {:?}", other),
    }
}

#[test]
fn missing_comparison_fails() {
    match run("LET a = 1\nIF a THEN\nENDIF\n") {
        Err(CompileError::ExpectedComparison(t)) => assert_eq!(t, "THEN"),
        other => panic!("unexpected result: {:?}", other),
    }
}

#[test]
fn wrong_token_fails() {
    match run("LET a 1\n") {
        Err(CompileError::UnexpectedToken { expected, found }) => {
            assert_eq!(expected, TokenType::Eq);
            assert_eq!(found, "1");
        }
        other => panic!("unexpected result: {:?}", other),
    }
}

#[test]
fn bad_operand_fails() {
    match run("PRINT *\n") {
        Err(CompileError::UnexpectedOperand(t)) => assert_eq!(t, "*"),
        other => panic!("unexpected result: {:?}", other),
    }
}

#[test]
fn missing_newline_fails() {
    match run("LET a = 1 LET b = 2\n") {
        Err(CompileError::UnexpectedToken { expected, .. }) => assert_eq!(expected, TokenType::Newline),
        other => panic!("unexpected result: {:?}", other),
    }
}

#[test]
fn empty_program() {
    let out = run("").unwrap();
    assert_eq!(out, "#include <stdio.h>\nint main(void) {\nreturn 0;\n}\n");
    let out = run("\n\n# only a comment\n").unwrap();
    assert_eq!(out, "#include <stdio.h>\nint main(void) {\nreturn 0;\n}\n");
}

#[test]
fn unary_and_comparisons() {
    let out = run("LET a = -1\nIF a >= -2 != 0 THEN\nPRINT +a / 2 - .5\nENDIF\n").unwrap();
    assert!(out.contains("a = -1;\n"));
    assert!(out.contains("if(a>=-2!=0){\n"));
    assert!(out.contains("(float)(+a/2-.5));\n"));
}

#[test]
fn numbers_are_int_or_float() {
    let tokens = lex("42 3.14 .5 1.2.3".to_string()).unwrap();
    let got: Vec<(TokenType, String)> =
        tokens.iter().map(|t| (t.kind(), t.text().to_string())).collect();
    assert_eq!(
        got,
        vec![
            (TokenType::Int, "42".to_string()),
            (TokenType::Float, "3.14".to_string()),
            (TokenType::Float, ".5".to_string()),
            (TokenType::Float, "1.2".to_string()),
            (TokenType::Float, ".3".to_string()),
        ]
    );
}

#[test]
fn keywords_and_identifiers() {
    assert_eq!(
        kinds("LABEL GOTO PRINT INPUT LET IF THEN ENDIF WHILE REPEAT ENDWHILE let x1 _y"),
        vec![
            TokenType::Label,
            TokenType::Goto,
            TokenType::Print,
            TokenType::Input,
            TokenType::Let,
            TokenType::If,
            TokenType::Then,
            TokenType::Endif,
            TokenType::While,
            TokenType::Repeat,
            TokenType::EndWhile,
            TokenType::Ident,
            TokenType::Ident,
            TokenType::Ident,
        ]
    );
    let tokens = lex("abc12 z".to_string()).unwrap();
    assert_eq!(tokens[0].text(), "abc12");
    assert_eq!(tokens[1].text(), "z");
}

#[test]
fn operators() {
    assert_eq!(
        kinds("+ - * / = == != < <= > >="),
        vec![
            TokenType::Plus,
            TokenType::Minus,
            TokenType::Asterisk,
            TokenType::Slash,
            TokenType::Eq,
            TokenType::EqEq,
            TokenType::NotEq,
            TokenType::Lt,
            TokenType::LtEq,
            TokenType::Gt,
            TokenType::GtEq,
        ]
    );
}

#[test]
fn strings_and_comments() {
    let tokens = lex("\"hi there\" # note\nx".to_string()).unwrap();
    assert_eq!(tokens[0].kind(), TokenType::String);
    assert_eq!(tokens[0].text(), "hi there");
    assert_eq!(tokens[1].kind(), TokenType::Newline);
    assert_eq!(tokens[2].kind(), TokenType::Ident);
    assert_eq!(tokens.len(), 3);
}

#[test]
fn unterminated_string_fails() {
    match lex("\"abc".to_string()) {
        Err(e) => assert_eq!(e, LexError::UnterminatedString),
        Ok(_) => panic!("lexing should fail"),
    }
}

#[test]
fn unknown_character_fails() {
    match lex("a @ b".to_string()) {
        Err(e) => assert_eq!(e, LexError::UnknownChar('@')),
        Ok(_) => panic!("lexing should fail"),
    }
}

#[test]
fn lexer_cursor() {
    let mut lexer = Lexer::new("ab".to_string());
    assert_eq!(lexer.current_char, 'a');
    assert_eq!(lexer.peek(), 'b');
    lexer.next_char();
    assert_eq!(lexer.current_char, 'b');
    assert_eq!(lexer.peek(), '\n');
    lexer.next_char();
    assert_eq!(lexer.current_char, '\n');
    assert_eq!(lexer.peek(), '\0');
    lexer.next_char();
    assert_eq!(lexer.current_char, '\0');
    lexer.next_char();
    assert_eq!(lexer.current_char, '\0');
    assert_eq!(lexer.peek(), '\0');
}

#[test]
fn get_token_reads_in_place() {
    let mut lexer = Lexer::new("  <= 7".to_string());
    let t = lexer.get_token().unwrap();
    assert_eq!(t.kind(), TokenType::LtEq);
    assert_eq!(lexer.current_pos, 3);
    lexer.next_char();
    let t = lexer.get_token().unwrap();
    assert_eq!(t.kind(), TokenType::Int);
    assert_eq!(t.text(), "7");
    lexer.next_char();
    lexer.next_char();
    assert_eq!(lexer.get_token().unwrap().kind(), TokenType::Eof);
}

#[test]
fn emitter_buffers() {
    let mut e = Emitter::new("out.c".to_string());
    e.emit("a");
    e.emit_line("b");
    e.header_line("h");
    e.emit("c");
    assert_eq!(e.header, "h\n");
    assert_eq!(e.code, "ab\nc");
    assert_eq!(e.output(), "h\nab\nc");
    assert_eq!(e.path(), "out.c");
}

#[test]
fn parser_records() {
    let lexer = Lexer::new("LET v = 2\nLABEL l\nGOTO l\n".to_string());
    let emitter = Emitter::new("out.c".to_string());
    let mut parser = Parser::new(lexer, emitter).unwrap();
    assert_eq!(parser.current_token.kind(), TokenType::Let);
    assert_eq!(parser.peek_token.text(), "v");
    parser.program().unwrap();
    assert_eq!(parser.symbols, vec!["v".to_string()]);
    assert_eq!(parser.labels_declared, vec!["l".to_string()]);
    assert_eq!(parser.labels_gotoed, vec!["l".to_string()]);
    assert_eq!(parser.emitter.header, "#include <stdio.h>\nint main(void) {\nfloat v;\n");
    assert_eq!(parser.emitter.code, "v = 2;\nl:\ngoto l;\nreturn 0;\n}\n");
}

#[test]
fn label_check_names_first_missing() {
    let gotoed = vec!["a".to_string(), "b".to_string(), "c".to_string()];
    let declared = vec!["a".to_string()];
    match check_labels(&gotoed, &declared) {
        Err(CompileError::UndeclaredLabel(l)) => assert_eq!(l, "b"),
        other => panic!("unexpected result: {:?}", other),
    }
    assert!(check_labels(&gotoed, &gotoed).is_ok());
    assert!(check_labels(&Vec::new(), &Vec::new()).is_ok());
}

#[test]
fn token_accessors() {
    let t = Token::new("GOTO".to_string(), TokenType::Goto);
    assert_eq!(t.kind(), TokenType::Goto);
    assert_eq!(t.text(), "GOTO");
}

#[test]
fn undeclared_label_reported_after_parse_errors() {
    match run("GOTO nowhere\nPRINT y\n") {
        Err(CompileError::UnassignedVariable(v)) => assert_eq!(v, "y"),
        other => panic!("unexpected result: {:?}", other),
    }
}

#[test]
fn unicode_letters_continue_identifiers() {
    let tokens = lex("xé1 y".to_string()).unwrap();
    assert_eq!(tokens[0].kind(), TokenType::Ident);
    assert_eq!(tokens[0].text(), "xé1");
    assert_eq!(tokens[1].text(), "y");
}

#[test]
fn braces_inside_printed_strings_are_copied() {
    let out = run("PRINT \"{\"\n").unwrap();
    assert!(out.contains("printf(\"{\\n\");\n"));
    assert_eq!(out.matches('{').count(), out.matches('}').count() + 1);
}

#[test]
fn printed_strings_are_escaped() {
    let out = run("PRINT \"50% a\\b\nc\"\n").unwrap();
    assert!(out.contains("printf(\"50%% a\\\\b\\nc\\n\");\n"));
}

#[test]
fn three_bindings_one_declaration() {
    let lexer = Lexer::new("LET x = 1\nLET x = 2\nINPUT x\nPRINT x + x\n".to_string());
    let mut parser = Parser::new(lexer, Emitter::new("out.c".to_string())).unwrap();
    parser.program().unwrap();
    assert_eq!(parser.emitter.header, "#include <stdio.h>\nint main(void) {\nfloat x;\n");
    assert_eq!(parser.emitter.path(), "out.c");
}

#[test]
fn syntax_error_before_undeclared_label() {
    match run("GOTO nowhere\nPRINT\n") {
        Err(CompileError::UnexpectedOperand(t)) => assert_eq!(t, "\n"),
        other => panic!("unexpected result: {:?}", other),
    }
}

#[test]
fn cursor_moves_past_end() {
    let mut lexer = Lexer::new(String::new());
    lexer.next_char();
    lexer.next_char();
    assert_eq!(lexer.current_pos, 2);
    assert_eq!(lexer.current_char, '\0');
}
