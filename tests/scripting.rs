use scripting_lang::ast::StructureError;
use scripting_lang::stack::{StackError, Value, ValueKind};
use scripting_lang::syntax::{compile, Ast as Tree, Error, Operation, ParseError};
use scripting_lang::tokens::{optimize, tokenize, LexError, Token};
use scripting_lang::{Ast, AstStatement, Engine, EvalOptions, Host, MethodArgs, MethodRef, Stack, StackVariable};

fn optimized(script: &str) -> Vec<Token> {
    let mut tokens = tokenize(script).unwrap();
    optimize(&mut tokens);
    tokens
}

#[derive(Default)]
struct Pins {
    names: Vec<String>,
    high: Vec<usize>,
    calls: usize,
}

impl Host for Pins {
    fn call(&mut self, name: &str, args: &mut MethodArgs, stack: &mut Stack, ast: &Ast) {
        self.calls += 1;
        match name {
            "get_pin" => {
                if let Some(var) = ast.get_return_variable_name(stack) {
                    let arg = args.next().unwrap().trim_matches('"');
                    self.names.push(arg.to_owned());
                    self.high.push(0);
                    stack.set(var, Value::Handle((self.names.len() - 1) as u64));
                }
            }
            "set_high" => {
                let var = args.next().unwrap();
                match stack.get(var, ValueKind::Handle).unwrap() {
                    Value::Handle(i) => self.high[i as usize] += 1,
                    _ => unreachable!(),
                }
            }
            "tick" => {}
            _ => panic!("Unknown method call: {:?}", name),
        }
    }
}

const PIN_SCRIPT: &str = "buffer = get_pin(\"A0\")\nset_high(buffer)\n";

#[test]
fn test_simple_script() {
    let script = r#"
buffer = get_bit_buffer(10*10)
next_buffer = get_bit_buffer(10*10)

fill_random_bit_buffer(buffer)

loop:
    wait_for_clock_high()
    for x in 0,10:
        for y in 0,10:
            neighbour_count = 0
            if get_bit_buffer_index(xy_to_buffer_index(x - 1, y - 1)):
                neighbour_count += 1
            if get_bit_buffer_index(xy_to_buffer_index(x, y - 1)):
                neighbour_count += 1
            if get_bit_buffer_index(xy_to_buffer_index(x + 1, y - 1)):
                neighbour_count += 1
            if get_bit_buffer_index(xy_to_buffer_index(x - 1, y)):
                neighbour_count += 1
            if get_bit_buffer_index(xy_to_buffer_index(x + 1, y)):
                neighbour_count += 1
            if get_bit_buffer_index(xy_to_buffer_index(x - 1, y + 1)):
                neighbour_count += 1
            if get_bit_buffer_index(xy_to_buffer_index(x, y + 1)):
                neighbour_count += 1
            if get_bit_buffer_index(xy_to_buffer_index(x + 1, y + 1)):
                neighbour_count += 1

            idx = xy_to_buffer_index(x, y)
            is_alive = get_bit_buffer_index(buffer, idx)
            if not is_alive:
                if neighbour_count == 3:
                    set_bit_buffer_index(next_buffer, idx)
            if is_alive:
                if neighbour_count < 2:
                    clear_bit_buffer_index(next_buffer, idx)
                if neighbour_count > 3:
                    clear_bit_buffer_index(next_buffer, idx)

    buffer = next_buffer
    set_frame_buffer(buffer)
"#;
    assert_eq!(compile(script).unwrap_err(), Error::Parse(ParseError::UnsupportedIf));
}

#[test]
fn folds_constant_product() {
    assert_eq!(optimized("10*10"), vec![Token::Number(100), Token::EndStatement]);
}

#[test]
fn folds_left_to_right() {
    assert_eq!(optimized("1 - 2 - 3"), vec![Token::Number(-4), Token::EndStatement]);
    assert_eq!(optimized("2 + 3"), vec![Token::Number(5), Token::EndStatement]);
    assert_eq!(
        optimized("a - 2 * 3"),
        vec![Token::Word(0, 1), Token::Minus, Token::Number(6), Token::EndStatement]
    );
}

#[test]
fn overflowing_fold_is_left_alone() {
    assert_eq!(
        optimized("2147483647+1"),
        vec![Token::Number(2147483647), Token::Plus, Token::Number(1), Token::EndStatement]
    );
}

#[test]
fn two_character_operators() {
    assert_eq!(
        tokenize("a == 5").unwrap(),
        vec![Token::Word(0, 1), Token::Equals, Token::Number(5)]
    );
    assert_eq!(
        tokenize("a >= 5").unwrap(),
        vec![Token::Word(0, 1), Token::GreaterOrEqualTo, Token::Number(5)]
    );
    assert_eq!(
        tokenize("a<=b<c>d=e").unwrap(),
        vec![
            Token::Word(0, 1),
            Token::LessOrEqualTo,
            Token::Word(3, 4),
            Token::LessThan,
            Token::Word(5, 6),
            Token::GreaterThan,
            Token::Word(7, 8),
            Token::Assign,
            Token::Word(9, 10),
        ]
    );
}

#[test]
fn keywords_and_punctuation() {
    assert_eq!(
        tokenize("loop for in if and or not (,):").unwrap(),
        vec![
            Token::Loop,
            Token::For,
            Token::In,
            Token::If,
            Token::And,
            Token::Or,
            Token::Not,
            Token::BananaOpen,
            Token::Comma,
            Token::BananaClose,
            Token::Colon,
        ]
    );
}

#[test]
fn indentation_runs() {
    assert_eq!(
        tokenize("a\n        b\n\t\tc").unwrap(),
        vec![
            Token::Word(0, 1),
            Token::EndStatement,
            Token::Ident(2),
            Token::Word(10, 11),
            Token::EndStatement,
            Token::Ident(2),
            Token::Word(14, 15),
        ]
    );
    assert_eq!(optimized("    \tx"), vec![Token::Ident(2), Token::Word(5, 6), Token::EndStatement]);
}

#[test]
fn word_positions_count_characters() {
    assert_eq!(tokenize("\u{e9}=1").unwrap(), vec![Token::Word(0, 1), Token::Assign, Token::Number(1)]);
}

#[test]
fn large_number_is_a_word() {
    assert_eq!(tokenize("99999999999").unwrap(), vec![Token::Word(0, 11)]);
    assert_eq!(tokenize("2147483647").unwrap(), vec![Token::Number(2147483647)]);
}

#[test]
fn lexical_errors() {
    assert_eq!(tokenize("a\tb"), Err(LexError::UnknownToken('\t')));
    assert_eq!(tokenize("a\r\n"), Err(LexError::UnknownToken('\r')));
    let deep = "\t".repeat(256) + "a";
    assert_eq!(tokenize(&deep), Err(LexError::IndentTooDeep));
}

#[test]
fn blank_script_optimizes_to_one_terminator() {
    assert_eq!(optimized("\n    \n\t\n\n        \t\n"), vec![Token::EndStatement]);
    assert_eq!(optimized(""), vec![Token::EndStatement]);
}

#[test]
fn terminators_are_collapsed_and_trimmed() {
    assert_eq!(
        optimized("\n\na()\n\n\nb()\n\n"),
        vec![
            Token::Word(2, 3),
            Token::BananaOpen,
            Token::BananaClose,
            Token::EndStatement,
            Token::Word(8, 9),
            Token::BananaOpen,
            Token::BananaClose,
            Token::EndStatement,
        ]
    );
}

#[test]
fn assignment_from_call_with_folded_argument() {
    let tree = compile("buffer = get_bit_buffer(10*10)\n").unwrap();
    let Tree::Block { statements } = tree else { panic!("not a block") };
    assert_eq!(statements.len(), 1);
    let Tree::Assign { var_name, rhs } = &statements[0] else { panic!("not an assignment") };
    assert_eq!(*var_name, (0, 6));
    let Tree::Method { method_name, args } = rhs.as_ref() else { panic!("not a call") };
    assert_eq!(*method_name, (9, 23));
    assert_eq!(args.len(), 1);
    assert!(matches!(args[0], Tree::ConstantNum(100)));
}

#[test]
fn loop_for_and_expressions() {
    let tree = compile("loop:\n    f(a, g(1), b * 2)\n    for x in 0, 3:\n        y = h(x)\n").unwrap();
    let Tree::Block { statements } = tree else { panic!("not a block") };
    assert_eq!(statements.len(), 1);
    let Tree::Loop { statements: body } = &statements[0] else { panic!("not a loop") };
    assert_eq!(body.len(), 2);
    let Tree::Method { args, .. } = &body[0] else { panic!("not a call") };
    assert_eq!(args.len(), 3);
    assert!(matches!(args[0], Tree::Variable { .. }));
    assert!(matches!(&args[1], Tree::Method { args, .. } if matches!(args[..], [Tree::ConstantNum(1)])));
    assert!(matches!(&args[2], Tree::Block { statements } if statements.len() == 1));
    let Tree::For { start, end, statements: inner, .. } = &body[1] else { panic!("not a for") };
    assert_eq!((*start, *end), (0, 3));
    let Tree::Assign { rhs, .. } = &inner[0] else { panic!("not an assignment") };
    assert!(matches!(rhs.as_ref(), Tree::Method { .. }));
}

#[test]
fn parse_errors() {
    let err = |s: &str| compile(s).unwrap_err();
    assert_eq!(err("if x:\n"), Error::Parse(ParseError::UnsupportedIf));
    assert_eq!(err("for 5\n"), Error::Parse(ParseError::MalformedFor));
    assert_eq!(err("for x in 1:\n"), Error::Parse(ParseError::MalformedFor));
    assert_eq!(err("a +\n"), Error::Parse(ParseError::UnterminatedExpression));
    assert_eq!(err("5 5\n"), Error::Parse(ParseError::UnexpectedTokens));
    assert_eq!(err("f() g()\n"), Error::Parse(ParseError::ExpectedEndStatement));
    assert_eq!(err("f(1\n"), Error::Parse(ParseError::MissingDelimiter));
    assert_eq!(err("f((1))\n"), Error::Parse(ParseError::ExpectedMethodName));
    assert_eq!(err("f(=,)\n"), Error::Parse(ParseError::UnexpectedArgument));
    assert_eq!(
        err("        f()\n"),
        Error::Parse(ParseError::UnexpectedIdent { found: 2, expected: 0 })
    );
    assert_eq!(err("a\tb"), Error::Lex(LexError::UnknownToken('\t')));
}

#[test]
fn operation_from_token() {
    assert_eq!(Operation::from_token(&Token::Minus), Some(Operation::Minus));
    assert_eq!(Operation::from_token(&Token::Plus), Some(Operation::Plus));
    assert_eq!(Operation::from_token(&Token::Multiply), Some(Operation::Multiply));
    assert_eq!(Operation::from_token(&Token::Comma), None);
}

#[test]
fn flat_steps_of_pin_script() {
    let ast = Ast::parse(PIN_SCRIPT).unwrap();
    assert_eq!(ast.steps.len(), 2);
    assert_eq!(ast.steps[0].ident, 0);
    match &ast.steps[0].statement {
        AstStatement::MethodCall { result_variable_name, name, args } => {
            assert_eq!(result_variable_name.as_deref(), Some("buffer"));
            assert_eq!(name, "get_pin");
            assert_eq!(args, &vec!["\"A0\"".to_string()]);
        }
        AstStatement::Loop => panic!("not a call"),
    }
    assert_eq!(ast.steps[1].ident, 0);
    match &ast.steps[1].statement {
        AstStatement::MethodCall { result_variable_name, name, args } => {
            assert_eq!(*result_variable_name, None);
            assert_eq!(name, "set_high");
            assert_eq!(args, &vec!["buffer".to_string()]);
        }
        AstStatement::Loop => panic!("not a call"),
    }
}

#[test]
fn flat_steps_shapes() {
    let ast = Ast::parse("loop:\r\n\tdelay( 1 , 2 ))\nnot a call\n    x = f()\n").unwrap();
    assert_eq!(ast.steps.len(), 3);
    assert!(matches!(ast.steps[0].statement, AstStatement::Loop));
    assert_eq!(ast.steps[1].ident, 1);
    match &ast.steps[1].statement {
        AstStatement::MethodCall { name, args, .. } => {
            assert_eq!(name, "delay");
            assert_eq!(args, &vec!["1".to_string(), "2".to_string()]);
        }
        AstStatement::Loop => panic!("not a call"),
    }
    match &ast.steps[2].statement {
        AstStatement::MethodCall { result_variable_name, args, .. } => {
            assert_eq!(result_variable_name.as_deref(), Some("x"));
            assert_eq!(args, &vec![String::new()]);
        }
        AstStatement::Loop => panic!("not a call"),
    }
}

#[test]
fn structure_is_checked() {
    assert_eq!(Ast::parse("    a()\n").unwrap_err(), StructureError::IndentedStart);
    assert_eq!(Ast::parse("loop:\n        a()\n").unwrap_err(), StructureError::SkippedLevel(1));
    assert_eq!(Ast::parse("a()\n    b()\n").unwrap_err(), StructureError::BodyWithoutLoop(1));
    assert!(Ast::parse("loop:\n    a()\nb()\n").unwrap().check().is_ok());
    assert!(Engine::new(Pins::default()).start_eval("    a()\n").is_err());
}

#[test]
fn header_of_indented_step() {
    let ast = Ast::parse("a()\nloop:\n    loop:\n        b()\n    c()\n").unwrap();
    let (idx, step) = ast.find_ident_stmt(4);
    assert_eq!(idx, 1);
    assert!(matches!(step.statement, AstStatement::Loop));
    assert_eq!(ast.find_ident_stmt(3).0, 2);
}

#[test]
fn budget_of_one_runs_one_call() {
    let mut ctx = Engine::new(Pins::default()).start_eval(PIN_SCRIPT).unwrap();
    let one = EvalOptions { cycles: 1 };
    ctx.execute(&one);
    assert_eq!(ctx.engine.host.names, vec!["A0".to_string()]);
    assert_eq!(ctx.engine.host.high, vec![0]);
    assert!(ctx.is_running());
    ctx.execute(&one);
    assert_eq!(ctx.engine.host.high, vec![1]);
    assert!(!ctx.is_running());
    assert_eq!(ctx.stack().get("buffer", ValueKind::Handle), Ok(Value::Handle(0)));
}

#[test]
fn loop_body_is_reentered() {
    let mut ctx = Engine::new(Pins::default()).start_eval("loop:\n    tick()\n").unwrap();
    let one = EvalOptions { cycles: 1 };
    while ctx.engine.host.calls < 50 {
        ctx.execute(&one);
        assert!(ctx.is_running());
    }
    ctx.execute(&EvalOptions { cycles: 1000 });
    assert_eq!(ctx.engine.host.calls, 1050);
    assert!(ctx.is_running());
    assert_eq!(ctx.stack().ast_index(), 1);
}

#[test]
fn chunked_and_whole_runs_agree() {
    let script = "a = get_pin(\"A\")\nb = get_pin(\"B\")\nset_high(a)\nset_high(b)\nset_high(a)\n";
    let mut whole = Engine::new(Pins::default()).start_eval(script).unwrap();
    whole.execute(&EvalOptions::default());
    assert!(!whole.is_running());
    let mut chunked = Engine::new(Pins::default()).start_eval(script).unwrap();
    while chunked.is_running() {
        chunked.execute(&EvalOptions { cycles: 1 });
    }
    for name in ["a", "b"] {
        assert_eq!(whole.stack().get(name, ValueKind::Handle), chunked.stack().get(name, ValueKind::Handle));
    }
    assert_eq!(whole.engine.host.high, vec![2, 1]);
    assert_eq!(chunked.engine.host.high, vec![2, 1]);
}

#[test]
fn stack_get_set_take() {
    let mut stack = Stack::new();
    assert_eq!(stack.get("x", ValueKind::Int), Err(StackError::NotFound));
    stack.set("x", Value::Int(7));
    assert_eq!(stack.get("x", ValueKind::Int), Ok(Value::Int(7)));
    assert_eq!(stack.get("x", ValueKind::Bool), Err(StackError::TypeMismatch));
    stack.set("x", Value::Bool(true));
    assert_eq!(stack.take("x", ValueKind::Int), Err(StackError::TypeMismatch));
    assert_eq!(stack.take("x", ValueKind::Bool), Ok(Value::Bool(true)));
    assert_eq!(stack.take("x", ValueKind::Bool), Err(StackError::NotFound));
    assert_eq!(stack.ast_index(), 0);
    let v = StackVariable::create(&mut stack, "y", Value::Handle(3));
    assert_eq!(v.name, "y");
    assert_eq!(v.value, Value::Handle(3));
}

#[test]
fn method_args_in_order() {
    let raw = vec!["1".to_string(), "pin".to_string()];
    let mut args = MethodArgs::from(&raw);
    assert_eq!(args.next(), Some("1"));
    assert_eq!(args.next(), Some("pin"));
    assert_eq!(args.next(), None);
}

#[test]
fn return_variable_name() {
    let ast = Ast::parse(PIN_SCRIPT).unwrap();
    let stack = Stack::new();
    assert_eq!(ast.get_return_variable_name(&stack), Some("buffer"));
}

#[test]
fn method_ref_shape() {
    assert_eq!(MethodRef::GetBitBuffer.arg_len(), 1);
    assert_eq!(MethodRef::SetBitBufferIndex.arg_len(), 2);
    assert_eq!(MethodRef::WaitForClockHigh.arg_len(), 0);
    assert!(MethodRef::XYToBufferIndex.has_result());
    assert!(!MethodRef::SetFrameBuffer.has_result());
    assert_eq!(MethodRef::FillRandomBitBuffer.size(), 1);
}

#[test]
fn nesting_deeper_than_an_indent_marker_is_rejected() {
    let mut script = String::new();
    for depth in 0..=255 {
        script.push_str(&"\t".repeat(depth));
        script.push_str("loop:\n");
    }
    assert_eq!(compile(&script).unwrap_err(), Error::Parse(ParseError::TooDeep));
}

#[test]
fn blank_indented_line_between_statements() {
    let tokens = optimized("a()\n    \nb()\n");
    assert_eq!(
        tokens,
        vec![
            Token::Word(0, 1),
            Token::BananaOpen,
            Token::BananaClose,
            Token::EndStatement,
            Token::Word(9, 10),
            Token::BananaOpen,
            Token::BananaClose,
            Token::EndStatement,
        ]
    );
    let mut again = tokens.clone();
    optimize(&mut again);
    assert_eq!(again, tokens);
    assert!(compile("a()\n    \nb()\n").is_ok());
}

#[test]
fn step_arguments_stop_at_matching_close() {
    let ast = Ast::parse("f(a, b,)\ng(h(x), y)\n").unwrap();
    match &ast.steps[0].statement {
        AstStatement::MethodCall { args, .. } => assert_eq!(args, &vec!["a".to_string(), "b".to_string()]),
        AstStatement::Loop => panic!("not a call"),
    }
    match &ast.steps[1].statement {
        AstStatement::MethodCall { name, args, .. } => {
            assert_eq!(name, "g");
            assert_eq!(args, &vec!["h(x)".to_string(), "y".to_string()]);
        }
        AstStatement::Loop => panic!("not a call"),
    }
}

#[test]
fn empty_argument_is_rejected() {
    assert_eq!(compile("f(,a)\n").unwrap_err(), Error::Parse(ParseError::UnexpectedArgument));
    assert_eq!(compile("f(g(1) 2)\n").unwrap_err(), Error::Parse(ParseError::UnexpectedTokens));
}

#[test]
fn combined_indentation_over_limit() {
    let line = "    ".repeat(200) + &"\t".repeat(100) + "a";
    assert_eq!(tokenize(&line), Err(LexError::IndentTooDeep));
}
