use birl::ast::{Node, Stmt};
use birl::evaluator::Evaluator;
use birl::lexer::{Lexer, LexerError};
use birl::parser::{Parser, ParserError};
use birl::pipeline::{run as run_pipeline, PipelineError};
use birl::token::Token;

const HELLO: &str = "HORA DO SHOW\n    CE QUER VER ESSA PORRA? (\"Hello, World! Porra!\\n\");\n    BORA CUMPADE 0;\nBIRL";

fn run(source: &str) -> (String, String) {
    let tokens = Lexer::new(source).lex().unwrap();
    let ast = Parser::new(tokens).parse().unwrap();
    let mut evaluator = Evaluator::new();
    evaluator.eval(ast);
    (evaluator.output().to_string(), evaluator.errors().to_string())
}

#[test]
fn test_can_evaluate_hello_world_program() {
    let tokens = Lexer::new(HELLO).lex().unwrap();
    let ast = Parser::new(tokens).parse().unwrap();

    let mut evaluator = Evaluator::new();
    evaluator.eval(ast);

    let output = evaluator.output();
    assert_eq!(output, "Hello, World! Porra!\n");
    assert_eq!(evaluator.errors(), "");
}

#[test]
fn test_can_lex_simple_program() {
    let test = "HORA DO SHOW\nBIRL";
    let lexer = Lexer::new(test);
    let tokens = lexer.lex();

    assert!(matches!(tokens, Ok(_)));
    assert_eq!(tokens.as_ref().unwrap().len(), 2);
    assert_eq!(tokens.unwrap(), vec![Token::HoraDoShow, Token::Birl]);
}

#[test]
fn test_can_lex_hello_world() {
    let lexer = Lexer::new(HELLO);
    let tokens = lexer.lex();

    assert!(matches!(tokens, Ok(_)));
    assert_eq!(tokens.as_ref().unwrap().len(), 10);

    let tokens = tokens.unwrap();
    let mut iter = tokens.iter();
    assert_eq!(iter.next().unwrap(), &Token::HoraDoShow);
    assert_eq!(iter.next().unwrap(), &Token::Print);
    assert_eq!(iter.next().unwrap(), &Token::Lparen);
    assert!(matches!(iter.next().unwrap(), Token::BirlString(_)));
    assert_eq!(iter.next().unwrap(), &Token::Rparen);
    assert_eq!(iter.next().unwrap(), &Token::Semicolon);
    assert_eq!(iter.next().unwrap(), &Token::Return);
    assert!(matches!(iter.next().unwrap(), Token::Number(_)));
    assert_eq!(iter.next().unwrap(), &Token::Semicolon);
    assert_eq!(iter.next().unwrap(), &Token::Birl);
}

#[test]
fn test_parser_can_parse_hello_world() {
    let tokens = Lexer::new(HELLO).lex().unwrap();

    let parser = Parser::new(tokens);
    let ast = parser.parse().unwrap();
    let stmts = ast.stmts().unwrap();

    assert!(matches!(ast, Node::Program(_)));
    assert_eq!(stmts.len(), 2);
    assert!(matches!(stmts[0], Node::Stmt(Stmt::PrintStmt { .. })));
    assert!(matches!(stmts[1], Node::Stmt(Stmt::ReturnStmt { .. })));
}

#[test]
fn hello_world_string_literal_is_decoded() {
    let tokens = Lexer::new(HELLO).lex().unwrap();
    assert_eq!(tokens[3], Token::BirlString("Hello, World! Porra!\n".to_string()));
    assert_eq!(tokens[7], Token::Number(0));
}

#[test]
fn newline_escapes_are_decoded_and_nothing_else_changes() {
    let tokens = Lexer::new("\"a\\nb\\n\\tc\"").lex();
    assert!(matches!(tokens, Err(LexerError::InvalidEscapeSequence('t'))));
    let tokens = Lexer::new("\"a\\nb\\n c\t\"").lex().unwrap();
    assert_eq!(tokens, vec![Token::BirlString("a\nb\n c\t".to_string())]);
    let tokens = Lexer::new("\"\"").lex().unwrap();
    assert_eq!(tokens, vec![Token::BirlString(String::new())]);
}

#[test]
fn only_start_and_end_keywords_give_two_tokens() {
    let tokens = Lexer::new("HORA DO SHOWBIRL").lex().unwrap();
    assert_eq!(tokens, vec![Token::HoraDoShow, Token::Birl]);
    let tokens = Lexer::new("  HORA DO SHOW \n\n BIRL  ").lex().unwrap();
    assert_eq!(tokens, vec![Token::HoraDoShow, Token::Birl]);
}

#[test]
fn one_print_statement_writes_its_text() {
    let (out, err) = run("HORA DO SHOW CE QUER VER ESSA PORRA? (\"X\"); BIRL");
    assert_eq!(out, "X");
    assert_eq!(err, "");
}

#[test]
fn return_statement_has_no_effect() {
    let (out, err) = run("HORA DO SHOW BORA CUMPADE 0; BIRL");
    assert_eq!(out, "");
    assert_eq!(err, "");
    let (out, err) = run("HORA DO SHOW BORA CUMPADE \"ignored\"; BIRL");
    assert_eq!(out, "");
    assert_eq!(err, "");
}

#[test]
fn prints_come_out_in_order() {
    let (out, err) = run(
        "HORA DO SHOW CE QUER VER ESSA PORRA? (\"a\"); BORA CUMPADE 0; CE QUER VER ESSA PORRA? (\"b\\n\"); BIRL",
    );
    assert_eq!(out, "ab\n");
    assert_eq!(err, "");
}

#[test]
fn truncated_start_keyword_is_an_unexpected_sequence() {
    let r = Lexer::new("HORA DO").lex();
    match r {
        Err(LexerError::UnexpectedSequence(s)) => assert_eq!(s, "HORA DO SHOW"),
        other => panic!("unexpected result: {:?}", other),
    }
    let r = Lexer::new("HORA DA SHOW BIRL").lex();
    assert!(matches!(r, Err(LexerError::UnexpectedSequence(_))));
    let r = Lexer::new("HORA DO SHOW CE QUER").lex();
    match r {
        Err(LexerError::UnexpectedSequence(s)) => assert_eq!(s, "CE QUER VER ESSA PORRA?"),
        other => panic!("unexpected result: {:?}", other),
    }
    let r = Lexer::new("BIRD").lex();
    match r {
        Err(LexerError::UnexpectedSequence(s)) => assert_eq!(s, "BIRL"),
        other => panic!("unexpected result: {:?}", other),
    }
    let r = Lexer::new("BORA").lex();
    match r {
        Err(LexerError::UnexpectedSequence(s)) => assert_eq!(s, "BORA CUMPADE"),
        other => panic!("unexpected result: {:?}", other),
    }
}

#[test]
fn unterminated_string_literal_fails() {
    let r = Lexer::new("HORA DO SHOW CE QUER VER ESSA PORRA? (\"abc").lex();
    assert!(matches!(r, Err(LexerError::UnterminatedStringLiteral('"'))));
    let r = Lexer::new("\"abc\\").lex();
    assert!(matches!(r, Err(LexerError::UnterminatedStringLiteral('"'))));
}

#[test]
fn only_zero_is_a_number_literal() {
    assert_eq!(Lexer::new("0").lex().unwrap(), vec![Token::Number(0)]);
    assert_eq!(Lexer::new("00").lex().unwrap(), vec![Token::Number(0), Token::Number(0)]);
    assert!(matches!(Lexer::new("5").lex(), Err(LexerError::InvalidNumericLiteral)));
    assert!(matches!(Lexer::new("9").lex(), Err(LexerError::InvalidNumericLiteral)));
    assert!(matches!(Lexer::new("10").lex(), Err(LexerError::InvalidNumericLiteral)));
}

#[test]
fn other_bytes_are_skipped() {
    assert_eq!(Lexer::new("").lex().unwrap(), vec![]);
    assert_eq!(Lexer::new("xyz B Bz\n\t!").lex().unwrap(), vec![]);
    assert_eq!(
        Lexer::new("();").lex().unwrap(),
        vec![Token::Lparen, Token::Rparen, Token::Semicolon]
    );
    assert_eq!(Lexer::new("BIRL(").lex().unwrap(), vec![Token::Birl, Token::Lparen]);
}

#[test]
fn first_error_aborts_tokenizing() {
    let r = Lexer::new("HORA DO SHOW 7 \"unterminated").lex();
    assert!(matches!(r, Err(LexerError::InvalidNumericLiteral)));
}

fn parse(source: &str) -> Result<Node, ParserError> {
    Parser::new(Lexer::new(source).lex().unwrap()).parse()
}

#[test]
fn parser_errors() {
    match parse("BIRL") {
        Err(ParserError::UnexpectedToken(e, a)) => {
            assert_eq!(e, Token::HoraDoShow);
            assert_eq!(a, Token::Birl);
        },
        other => panic!("unexpected result: {:?}", other),
    }
    assert!(matches!(parse(""), Err(ParserError::UnexpectedEof)));
    assert!(matches!(parse("HORA DO SHOW"), Err(ParserError::UnexpectedEof)));
    assert!(matches!(parse("HORA DO SHOW ; BIRL"), Err(ParserError::InvalidStartOfStmt)));
    assert!(matches!(
        parse("HORA DO SHOW BORA CUMPADE (; BIRL"),
        Err(ParserError::InvalidStartOfExpr)
    ));
    match parse("HORA DO SHOW CE QUER VER ESSA PORRA? (0); BIRL") {
        Err(ParserError::UnexpectedToken(e, a)) => {
            assert_eq!(e, Token::BirlString(String::new()));
            assert_eq!(a, Token::Number(0));
        },
        other => panic!("unexpected result: {:?}", other),
    }
    match parse("HORA DO SHOW CE QUER VER ESSA PORRA? (\"a\" BIRL") {
        Err(ParserError::UnexpectedToken(e, a)) => {
            assert_eq!(e, Token::Rparen);
            assert_eq!(a, Token::Birl);
        },
        other => panic!("unexpected result: {:?}", other),
    }
    assert!(matches!(
        parse("HORA DO SHOW CE QUER VER ESSA PORRA? (\"a\")"),
        Err(ParserError::UnexpectedEof)
    ));
}

#[test]
fn empty_program_parses_to_no_statements() {
    let ast = parse("HORA DO SHOW BIRL").unwrap();
    assert_eq!(ast.stmts().unwrap().len(), 0);
}

#[test]
fn evaluator_reports_a_stray_expression() {
    let mut evaluator = Evaluator::new();
    evaluator.eval(Node::Expr(birl::ast::Expr::Number(0)));
    assert_eq!(evaluator.output(), "");
    assert_eq!(evaluator.errors(), "invalid start of statement");
}

#[test]
fn evaluator_walks_nested_programs() {
    let inner = Node::Program(vec![Stmt::print("b"), Stmt::return_(Box::new(Node::Expr(birl::ast::Expr::Number(0))))]);
    let ast = Node::Program(vec![Stmt::print("a"), inner, Stmt::print("c")]);
    let mut evaluator = Evaluator::new();
    evaluator.eval(ast);
    assert_eq!(evaluator.output(), "abc");
    assert_eq!(evaluator.errors(), "");
    evaluator.do_eval_print_stmt("d");
    assert_eq!(evaluator.output(), "abcd");
}

#[test]
fn non_ascii_text_is_copied_verbatim() {
    let tokens = Lexer::new("\"\u{e9}\u{4e16}!\"").lex().unwrap();
    assert_eq!(tokens, vec![Token::BirlString("\u{e9}\u{4e16}!".to_string())]);
    let (out, err) = run("HORA DO SHOW CE QUER VER ESSA PORRA? (\"ol\u{e1}\\n\"); BIRL");
    assert_eq!(out, "ol\u{e1}\n");
    assert_eq!(err, "");
}

#[test]
fn tokens_ending_inside_an_expression_are_an_unexpected_eof() {
    let r = Parser::new(vec![Token::HoraDoShow, Token::Return]).parse();
    assert!(matches!(r, Err(ParserError::UnexpectedEof)));
}

#[test]
fn run_reports_each_stage() {
    let (out, err) = run_pipeline(HELLO).unwrap();
    assert_eq!(out, "Hello, World! Porra!\n");
    assert_eq!(err, "");
    assert!(matches!(run_pipeline("HORA"), Err(PipelineError::Lex(LexerError::UnexpectedSequence(_)))));
    assert!(matches!(run_pipeline("HORA DO SHOW"), Err(PipelineError::Parse(ParserError::UnexpectedEof))));
}

#[test]
fn any_filler_layout_gives_the_same_program() {
    let (out, err) = run("HORA DO SHOWCE QUER VER ESSA PORRA?(\"a\");BORA CUMPADE 0;BIRL");
    assert_eq!(out, "a");
    assert_eq!(err, "");
    let (out, err) = run("xIO\nHORA DO SHOW IO\tCE QUER VER ESSA PORRA? zz ( \"b\" ) ; BIRL ok");
    assert_eq!(out, "b");
    assert_eq!(err, "");
    let tokens = Lexer::new("HORA DO SHOW\nBIRL").lex().unwrap();
    let ast = Parser::new(tokens).parse().unwrap();
    assert_eq!(ast.stmts().unwrap().len(), 0);
}

#[test]
fn keyword_mismatch_after_valid_input_fails() {
    let r = Lexer::new("HORA DO SHOW ( ; BORA CUMPADX").lex();
    match r {
        Err(LexerError::UnexpectedSequence(s)) => assert_eq!(s, "BORA CUMPADE"),
        other => panic!("unexpected result: {:?}", other),
    }
    let r = Lexer::new("HORA DO SHOW \"ok\" \"open").lex();
    assert!(matches!(r, Err(LexerError::UnterminatedStringLiteral('"'))));
}
