use caxlang::compiler::{CompileError, Compiler};
use caxlang::interpreter::{interp_code, InterpError, Interpreter, RunError, RuntimeVal};
use caxlang::lexer::{tokenize, Lexer, LexingError, Token};
use caxlang::parser::{produce_ast, AstError, Expr, Literal};
use caxlang::vm::{Chunk, ExecError, OpCode, Register, VM};

/// Tests the `tokenize()` function with basic input.
#[test]
fn test_tokenize() {
    // Try tokenizing simple string and printing tokens
    for tk in tokenize("123.42 (23.43) * 123.43 sd + \"Hello\"") {
        println!(
            "{:?}",
            match tk {
                Ok(tk) => tk,
                Err(e) => panic!("Lexer Error: '{:?}'!", e),
            }
        );
    }
}

/// Tests ast production for simple math operations.
#[test]
fn test_parser_simple_math_operations() {
    // Test addition
    println!("{:?}", produce_ast("1 + 2").unwrap());
    // Test subtraction
    println!("{:?}", produce_ast("1 - 2").unwrap());
    // Test multiplication
    println!("{:?}", produce_ast("1 * 2").unwrap());
    // Test division
    println!("{:?}", produce_ast("1 / 2").unwrap());
}

/// Tests ast production for correct unary value assignment.
#[test]
fn test_parser_unary() {
    // Ensure unary
    if let Expr::Binary { left, .. } = *(*produce_ast("-1 + -2").unwrap().get(0).unwrap()).clone()
    {
        if let Expr::Unary { .. } = (*left).clone() {
        } else {
            panic!("Unary expression expected. Got '{:?}'!", (*left).clone())
        }
    } else {
        panic!("Binary expression expected!");
    }
}

/// Tests ast production for complex math operations.
#[test]
fn test_parser_complex_math_operations() {
    // Test addition
    println!("{:?}", produce_ast("1 + 2 + 4").unwrap());
    // Test subtraction
    println!("{:?}", produce_ast("1 - 2 - 5").unwrap());
    // Test multiplication
    println!("{:?}", produce_ast("1 * 2 * 3").unwrap());
    // Test division
    println!("{:?}", produce_ast("1 / 2 / 7").unwrap());
}

/// Test result of adding positive numbers.
#[test]
fn test_interp_positive_add() {
    println!("\n-------NEGATIVE ADD RESULT-------");
    interp_code("1 + 2").unwrap();
}

/// Test result of subtracting positive numbers.
#[test]
fn test_interp_negative_add() {
    println!("\n-------NEGATIVE ADD RESULT-------");
    interp_code("1 - 2").unwrap();
}

#[test]
fn test_compiler_evaluate() {
    // Create ast
    let ast = produce_ast("-1 + -2").unwrap();
    // Print ast
    println!("{:?}", &ast);

    // Create compiler
    let mut compiler = Compiler::new(ast);
    // Get bytecode representation of ast
    let bytecode = compiler.parse().unwrap();

    // Print dissasembled bytecode for each chunk
    for chunk in bytecode.chunks.iter() {
        println!("{}", chunk.dissasemble());
    }
}

#[test]
fn test_chunk_assemble() {
    let chunk = Chunk::new([OpCode::Add.into(), 1, 2]);

    println!("{:?}", &chunk.bytes);
}

#[test]
fn test_chunk_dissasemble() {
    let chunk = Chunk::new([OpCode::Add.into(), 1, 2]);

    println!("{}", chunk.dissasemble());
}

// ---------------------------------------------------------------------
// Interpretation results
// ---------------------------------------------------------------------

fn number_of(code: &str) -> u64 {
    match interp_code(code).unwrap().remove(0) {
        RuntimeVal::Number(b) => b,
        other => panic!("number expected, got {:?}", other),
    }
}

#[test]
fn interp_left_to_right_addition() {
    assert_eq!(number_of("1 + 2 + 4"), 7.0f64.to_bits());
}

#[test]
fn interp_left_to_right_subtraction() {
    assert_eq!(number_of("1 - 2 - 5"), (-6.0f64).to_bits());
}

#[test]
fn interp_double_negation() {
    assert_eq!(number_of("-(-2)"), 2.0f64.to_bits());
}

#[test]
fn interp_unary_negation() {
    assert_eq!(number_of("-1"), (-1.0f64).to_bits());
}

#[test]
fn interp_grouping_changes_nothing_without_precedence() {
    assert_eq!(number_of("(1 + 2) + 3"), 6.0f64.to_bits());
    assert_eq!(number_of("1 + 2 + 3"), 6.0f64.to_bits());
    assert_eq!(number_of("(1 + 2) + 3"), number_of("1 + 2 + 3"));
}

#[test]
fn interp_fractional_arithmetic() {
    assert_eq!(number_of("1.5 + 2.25"), 3.75f64.to_bits());
    assert_eq!(number_of("0.1 + 0.2"), (0.1f64 + 0.2f64).to_bits());
}

#[test]
fn interp_string_value() {
    match interp_code("\"Hello\"").unwrap().remove(0) {
        RuntimeVal::String(s) => assert_eq!(s, "Hello"),
        other => panic!("string expected, got {:?}", other),
    }
}

#[test]
fn interp_add_string_fails_typed() {
    match interp_code("1 + \"a\"") {
        Err(RunError::Interp(InterpError::BinaryOperatorOnNonNumber(Token::Plus, l, r))) => {
            assert!(matches!(l, RuntimeVal::Number(_)));
            assert!(matches!(r, RuntimeVal::String(_)));
        }
        other => panic!("BinaryOperatorOnNonNumber expected, got {:?}", other),
    }
}

#[test]
fn interp_invalid_binary_operator() {
    assert!(matches!(
        interp_code("1 * 2"),
        Err(RunError::Interp(InterpError::InvalidBinaryOperator(Token::Mult, _, _)))
    ));
}

#[test]
fn interp_invalid_unary_operator() {
    assert!(matches!(
        interp_code("!1"),
        Err(RunError::Interp(InterpError::InvalidUnaryOperator(Token::Bang, _)))
    ));
}

#[test]
fn interp_unary_minus_on_string() {
    assert!(matches!(
        interp_code("-\"a\""),
        Err(RunError::Interp(InterpError::UnaryOperatorOnNonNumber(Token::Minus)))
    ));
}

#[test]
fn interp_literal_is_expr_is_defended() {
    let inner = Box::new(Expr::Literal(Literal::Nil));
    let ast = vec![Box::new(Expr::Literal(Literal::Expr(inner)))];
    let results = Interpreter::new(ast).parse();
    assert!(matches!(results[0], Err(InterpError::LiteralIsExpr)));
}

// ---------------------------------------------------------------------
// Lexing
// ---------------------------------------------------------------------

#[test]
fn lex_rejects_non_ascii() {
    let items = tokenize("é");
    assert!(matches!(items[0], Err(LexingError::NonAsciiCharacter)));
}

#[test]
fn lex_rejects_raw_control_character_in_string() {
    let items = tokenize("\"a\u{1}b\"");
    assert!(matches!(items[0], Err(LexingError::NonAsciiCharacter)));
}

#[test]
fn lex_rejects_overflowing_numeral() {
    match &tokenize("1e999")[0] {
        Err(LexingError::InvalidInteger(reason)) => assert_eq!(reason, "overflow"),
        other => panic!("InvalidInteger expected, got {:?}", other),
    }
}

#[test]
fn lex_number_token_holds_the_value() {
    assert_eq!(tokenize("2")[0], Ok(Token::Number(2.0f64.to_bits())));
    assert_eq!(tokenize("123.42")[0], Ok(Token::Number(123.42f64.to_bits())));
    assert_eq!(tokenize("1e3")[0], Ok(Token::Number(1000.0f64.to_bits())));
}

#[test]
fn lex_string_token_strips_quotes_only() {
    assert_eq!(tokenize("\"Hello\"")[0], Ok(Token::String(String::from("Hello"))));
    // An escaped quote keeps its backslash; every quote character leaves.
    assert_eq!(tokenize("\"a\\\"b\"")[0], Ok(Token::String(String::from("a\\b"))));
}

#[test]
fn lex_keywords_and_idents() {
    let items = tokenize("true false nil foo");
    assert_eq!(items[0], Ok(Token::True));
    assert_eq!(items[1], Ok(Token::False));
    assert_eq!(items[2], Ok(Token::Nil));
    assert_eq!(items[3], Ok(Token::Ident(String::from("foo"))));
}

#[test]
fn lex_operators_longest_match() {
    let items = tokenize("!= == <= >= < > = !");
    let expect = [
        Token::NEqual,
        Token::DEqual,
        Token::LEqual,
        Token::GEqual,
        Token::Less,
        Token::Greater,
        Token::Equal,
        Token::Bang,
    ];
    for (i, t) in expect.iter().enumerate() {
        assert_eq!(items[i], Ok(t.clone()));
    }
}

#[test]
fn lex_is_restartable() {
    let mut a = Lexer::new("1 + 2");
    let mut b = Lexer::new("1 + 2");
    loop {
        let x = a.next_token();
        let y = b.next_token();
        assert_eq!(x, y);
        if x.is_none() {
            break;
        }
    }
}

// ---------------------------------------------------------------------
// Parsing
// ---------------------------------------------------------------------

#[test]
fn parse_is_left_associative_structurally() {
    // "1 - 2 - 5" must parse as Binary(Binary(1, -, 2), -, 5).
    let ast = produce_ast("1 - 2 - 5").unwrap();
    match &**ast.get(0).unwrap() {
        Expr::Binary { left, op: Token::Minus, right } => {
            match &**left {
                Expr::Binary { left: ll, op: Token::Minus, right: lr } => {
                    assert!(
                        matches!(&**ll, Expr::Literal(Literal::Number(b)) if *b == 1.0f64.to_bits())
                    );
                    assert!(
                        matches!(&**lr, Expr::Literal(Literal::Number(b)) if *b == 2.0f64.to_bits())
                    );
                }
                other => panic!("left-nested binary expected, got {:?}", other),
            }
            assert!(
                matches!(&**right, Expr::Literal(Literal::Number(b)) if *b == 5.0f64.to_bits())
            );
        }
        other => panic!("binary expected, got {:?}", other),
    }
}

#[test]
fn parse_missing_close_paren_is_recoverable() {
    assert!(matches!(produce_ast("(1 + 2"), Err(AstError::Parsing(_))));
}

#[test]
fn parse_unexpected_token_is_reported_with_position() {
    match produce_ast("1 + + 2") {
        Err(AstError::Parsing(pe)) => {
            assert_eq!(pe.token, Some(Token::Plus));
            assert_eq!(pe.pos, 2);
        }
        other => panic!("parse failure expected, got {:?}", other),
    }
}

#[test]
fn parse_empty_input_is_reported_as_end_of_input() {
    match produce_ast("") {
        Err(AstError::Parsing(pe)) => {
            assert_eq!(pe.token, None);
            assert_eq!(pe.pos, 0);
        }
        other => panic!("parse failure expected, got {:?}", other),
    }
}

#[test]
fn parse_propagates_lexing_failure() {
    assert!(matches!(
        produce_ast("1 + é"),
        Err(AstError::Lexing(LexingError::NonAsciiCharacter))
    ));
}

// ---------------------------------------------------------------------
// Disassembly
// ---------------------------------------------------------------------

#[test]
fn disassemble_add_chunk_exactly() {
    let chunk = Chunk::new([OpCode::Add.into(), 1, 2]);
    assert_eq!(chunk.dissasemble(), "Add R1 R2");
}

#[test]
fn disassemble_all_mnemonics_and_registers() {
    assert_eq!(Chunk::new([OpCode::Sub.into(), 0, 7]).dissasemble(), "Sub R0 R7");
    assert_eq!(Chunk::new([OpCode::Neg.into(), 3, 3]).dissasemble(), "Neg R3 R3");
    assert_eq!(
        Chunk::new([OpCode::LoadConst.into(), Register::R4.into(), 0]).dissasemble(),
        "LoadConst R4 R0"
    );
    // Bytes outside the register file and unknown opcodes render empty.
    assert_eq!(Chunk::new([9, 8, 250]).dissasemble(), "  ");
}

#[test]
fn vm_disassembles_every_chunk() {
    let vm = VM::new(vec![Chunk::new([0, 1, 2]), Chunk::new([1, 0, 1])]);
    let lines = vm.dissasemble();
    assert_eq!(lines, vec![String::from("Add R1 R2"), String::from("Sub R0 R1")]);
}

// ---------------------------------------------------------------------
// Compilation and execution
// ---------------------------------------------------------------------

#[test]
fn compile_within_eight_registers_succeeds() {
    let ast = produce_ast("1 + (2 + (3 + (4 + (5 + (6 + (7 + 8))))))").unwrap();
    let program = Compiler::new(ast).parse().unwrap();
    assert!(!program.chunks.is_empty());
}

#[test]
fn compile_past_eight_registers_fails_register_exhausted() {
    let ast = produce_ast("1 + (2 + (3 + (4 + (5 + (6 + (7 + (8 + 9)))))))").unwrap();
    assert!(matches!(
        Compiler::new(ast).parse(),
        Err(CompileError::RegisterExhausted)
    ));
}

#[test]
fn compile_unsupported_operator_fails() {
    let ast = produce_ast("1 * 2").unwrap();
    assert!(matches!(
        Compiler::new(ast).parse(),
        Err(CompileError::UnsupportedOperator(Token::Mult))
    ));
}

#[test]
fn compile_too_many_literals_fails() {
    let mut source = String::from("1");
    for _ in 0..256 {
        source.push_str(" + 1");
    }
    let ast = produce_ast(&source).unwrap();
    assert!(matches!(
        Compiler::new(ast).parse(),
        Err(CompileError::ConstantPoolExhausted)
    ));
}

#[test]
fn compiled_program_runs_on_the_vm() {
    let ast = produce_ast("-1 + -2").unwrap();
    let program = Compiler::new(ast).parse().unwrap();
    let mut vm = VM::with_constants(program.chunks, program.constants);
    vm.execute().unwrap();
    assert!(
        matches!(vm.register(0), RuntimeVal::Number(b) if *b == (-3.0f64).to_bits())
    );
}

#[test]
fn compiled_subtraction_matches_interpreter() {
    let ast = produce_ast("1 - 2 - 5").unwrap();
    let program = Compiler::new(ast).parse().unwrap();
    let mut vm = VM::with_constants(program.chunks, program.constants);
    vm.execute().unwrap();
    assert!(
        matches!(vm.register(0), RuntimeVal::Number(b) if *b == (-6.0f64).to_bits())
    );
}

#[test]
fn vm_rejects_unknown_opcode() {
    let mut vm = VM::new(vec![Chunk::new([9, 0, 0])]);
    assert_eq!(vm.execute(), Err(ExecError::UnknownOpcode));
}

#[test]
fn vm_rejects_operand_out_of_range() {
    let mut vm = VM::new(vec![Chunk::new([0, 8, 0])]);
    assert_eq!(vm.execute(), Err(ExecError::OperandOutOfRange));
    let mut vm2 = VM::new(vec![Chunk::new([3, 0, 0])]);
    // The constant table is empty: the index is out of its range.
    assert_eq!(vm2.execute(), Err(ExecError::OperandOutOfRange));
}

#[test]
fn vm_rejects_arithmetic_on_non_numbers() {
    // Fresh registers hold nil.
    let mut vm = VM::new(vec![Chunk::new([0, 0, 1])]);
    assert_eq!(vm.execute(), Err(ExecError::TypeMismatch));
}

#[test]
fn lex_leading_zero_splits_numerals() {
    // The integer part is `0`, or digits without a leading zero.
    let items = tokenize("0123");
    assert_eq!(items[0], Ok(Token::Number(0.0f64.to_bits())));
    assert_eq!(items[1], Ok(Token::Number(123.0f64.to_bits())));
    assert_eq!(items.len(), 2);
}

#[test]
fn lex_bare_dot_is_not_part_of_a_numeral() {
    let items = tokenize("1.");
    assert_eq!(items[0], Ok(Token::Number(1.0f64.to_bits())));
    assert!(matches!(items[1], Err(LexingError::NonAsciiCharacter)));
}

#[test]
fn lex_exponent_needs_digits() {
    let items = tokenize("1e");
    assert_eq!(items[0], Ok(Token::Number(1.0f64.to_bits())));
    assert_eq!(items[1], Ok(Token::Ident(String::from("e"))));
}

#[test]
fn lex_signed_exponent() {
    assert_eq!(tokenize("1.5e-3")[0], Ok(Token::Number(0.0015f64.to_bits())));
    assert_eq!(tokenize("2e+2")[0], Ok(Token::Number(200.0f64.to_bits())));
}

#[test]
fn lex_keyword_prefix_stays_an_ident() {
    assert_eq!(tokenize("truex")[0], Ok(Token::Ident(String::from("truex"))));
}

#[test]
fn lex_carriage_return_is_not_whitespace() {
    // Only space, tab and newline are skipped.
    assert!(matches!(tokenize("\r")[0], Err(LexingError::NonAsciiCharacter)));
}

#[test]
fn chunk_parse_operand_names_registers() {
    let chunk = Chunk::new([0, 3, 9]);
    assert_eq!(chunk.parse_operand(0), "R3");
    // A byte outside the register file renders empty.
    assert_eq!(chunk.parse_operand(1), "");
}
