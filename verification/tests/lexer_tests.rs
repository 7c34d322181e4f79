use ceph_db::bytecode::ByteCode;
use ceph_db::bytecode::NameSpace;
use ceph_db::bytecode::Stack;
use ceph_db::bytecode::VirtualMachine;
use ceph_db::errors::TypeErrors;
use ceph_db::lexer::Lexer;
use ceph_db::lexer::Token;
use ceph_db::parser::Parser;
use ceph_db::typekind::FnKind;
use ceph_db::typekind::TypeKind;

#[test]
fn test_integrated_complex() {
    let src = r#"
        class {
            Compose_f: Function(f
                Return(f))
            Compose_g: Function(g
                Return(g))
            Compose_x: Function(f,g,x
                Return(Call(f Call(g x))))
            Double: Function(x
                Return(Nary(Mul x 2)))
            Increment: Function(x
                Return(Nary(Add x 1)))
        }
        "#;

    let mut p = Parser::new(src);

    p.consume_whitespace();
    p.consume_keyword("class").unwrap();
    p.consume_whitespace();
    p.consume_brace('{').unwrap();
    p.consume_whitespace();

    let methods = p.parse_methods();
    assert_eq!(methods.len(), 5);

    let compose_f = Lexer::new(&methods[0]);
    assert_eq!(compose_f.len(), 1);
    assert_eq!(compose_f.arguments(), vec!["f".to_string()]);

    let compose_g = Lexer::new(&methods[1]);
    assert_eq!(compose_g.len(), 1);
    assert_eq!(compose_g.arguments(), vec!["g".to_string()]);

    let compose_x = Lexer::new(&methods[2]);
    assert_eq!(compose_x.len(), 1);
    assert_eq!(
        compose_x.arguments(),
        vec!["f".to_string(), "g".to_string(), "x".to_string()]
    );

    let double = Lexer::new(&methods[3]);
    assert_eq!(double.len(), 1);
    assert_eq!(double.arguments(), vec!["x".to_string()]);

    let increment = Lexer::new(&methods[4]);
    assert_eq!(increment.len(), 1);
    assert_eq!(increment.arguments(), vec!["x".to_string()]);

    let mut compose_f = compose_f;
    let mut compose_g = compose_g;
    let mut compose_x = compose_x;
    let mut double = double;
    let mut increment = increment;

    compose_f.tokenize();
    compose_g.tokenize();
    compose_x.tokenize();
    double.tokenize();
    increment.tokenize();

    let compose_f_tokens: Vec<Token> = compose_f.clone().into_tokens();
    assert_eq!(compose_f_tokens.len(), 2);

    let compose_g_tokens: Vec<Token> = compose_g.clone().into_tokens();
    assert_eq!(compose_g_tokens.len(), 2);

    let compose_x_tokens: Vec<Token> = compose_x.clone().into_tokens();
    assert_eq!(compose_x_tokens.len(), 6);

    let double_tokens: Vec<Token> = double.clone().into_tokens();
    assert_eq!(double_tokens.len(), 4);

    let increment_tokens: Vec<Token> = increment.clone().into_tokens();
    assert_eq!(increment_tokens.len(), 4);

    let _compose_f_vm: VirtualMachine = compose_f.clone().into_vm();

    let _compose_g_vm = VirtualMachine::new("Compose_g".to_string(), compose_g_tokens);

    let mut compose_x_vm = VirtualMachine::new("Compose_x".to_string(), compose_x_tokens);
    // the Call translation is unfinished: with no recorded argument count
    // the translator reports the residual inference error
    let compose_x_byc = compose_x_vm.to_bytecode();
    assert!(matches!(compose_x_byc, Err(TypeErrors::TypeInferenceError)));

    let _double_vm = VirtualMachine::new("Double".to_string(), double_tokens);

    let _increment_vm = VirtualMachine::new("Increment".to_string(), increment_tokens);
}

#[test]
fn lexer_next_reads_keywords_and_identifiers() {
    let mut lxr = Lexer::new("foo: Function(x\n    Return(x))");
    assert_eq!(lxr.name(), "foo".to_string());
    let tokens = lxr.next().unwrap();
    assert_eq!(tokens.len(), 2);
    assert!(matches!(tokens[0], Token::Keyword(FnKind::Return)));
    match &tokens[1] {
        Token::Identifier(n) => assert_eq!(n, "x"),
        _ => panic!("expected an identifier"),
    }
    assert!(lxr.next().is_none());
}

#[test]
fn return_stream_translates_to_bytecode() {
    let mut vm = VirtualMachine::new(
        "foo".to_string(),
        vec![
            Token::Keyword(FnKind::Return),
            Token::Identifier("x".to_string()),
        ],
    );
    let byc = vm.to_bytecode().unwrap();
    assert_eq!(byc.len(), 3);
    // the same source name always resolves to the same identifier
    match (&byc[0], &byc[1], &byc[2]) {
        (
            ByteCode::CREATE_NODE(ret_id, t_ret),
            ByteCode::SET_ARGUMENT(from_id, arg_id),
            ByteCode::CREATE_NODE(x_id, t_x),
        ) => {
            assert!(matches!(t_ret, TypeKind::InBuilt(FnKind::Return)));
            assert!(matches!(t_x, TypeKind::Unknown));
            assert_eq!(ret_id, from_id);
            assert_eq!(arg_id, x_id);
        }
        _ => panic!("unexpected instruction shapes"),
    }
}

#[test]
fn unknown_keyword_is_unsupported_in_bytecode() {
    let mut vm = VirtualMachine::new("foo".to_string(), vec![Token::Keyword(FnKind::Mul)]);
    assert!(matches!(
        vm.to_bytecode(),
        Err(TypeErrors::UnsupportedOperator(FnKind::Mul))
    ));
}

#[test]
fn namespace_issues_stable_identifiers() {
    let mut ns = NameSpace::new();
    let a = ns.issue("foo", "x");
    let b = ns.issue("foo", "x");
    assert_eq!(a, b);
    let c = ns.issue("foo", "x2");
    let d = ns.issue("foo", "x2");
    assert_eq!(c, d);
}

#[test]
fn vm_records_function_arguments() {
    let mut vm = VirtualMachine::new("foo".to_string(), vec![]);
    assert_eq!(vm.get_function_argument("foo"), None);
    vm.add_function_argument("foo", 2);
    assert_eq!(vm.get_function_argument("foo"), Some(2));
    assert_eq!(vm.bytecode_len(), 0);
    assert_eq!(vm.stack_len(), 0);
}

#[test]
fn call_with_recorded_arity_is_skipped() {
    let mut vm = VirtualMachine::new(
        "foo".to_string(),
        vec![Token::Keyword(FnKind::Call), Token::Identifier("x".to_string())],
    );
    vm.add_function_argument("foo", 1);
    let byc = vm.to_bytecode().unwrap();
    // the call emits nothing; the identifier emits one instruction
    assert_eq!(byc.len(), 1);
}

#[test]
fn stack_is_last_in_first_out() {
    let mut s: Stack<u32> = Stack::new();
    assert!(s.is_empty());
    s.push(1);
    s.push(2);
    assert_eq!(s.len(), 2);
    assert_eq!(s.peek(), Some(&2));
    assert_eq!(s.pop(), Some(2));
    assert_eq!(s.pop(), Some(1));
    assert_eq!(s.pop(), None);
    assert!(s.is_empty());
}

#[test]
fn tokenize_flattens_lines_into_words() {
    let mut lxr = Lexer::new("foo: Function(a\n    Eq(x Add(a b))\n    Return(x))");
    assert_eq!(lxr.len(), 2);
    lxr.tokenize();
    assert_eq!(lxr.len(), 4);
}

#[test]
fn repeated_identifiers_share_one_node_id() {
    let mut vm = VirtualMachine::new(
        "foo".to_string(),
        vec![
            Token::Keyword(FnKind::Return),
            Token::Identifier("x".to_string()),
            Token::Keyword(FnKind::Return),
            Token::Identifier("x".to_string()),
        ],
    );
    let byc = vm.to_bytecode().unwrap();
    assert_eq!(byc.len(), 6);
    let first_x = match &byc[2] {
        ByteCode::CREATE_NODE(id, _) => *id,
        _ => panic!("expected a node creation"),
    };
    let second_x = match &byc[5] {
        ByteCode::CREATE_NODE(id, _) => *id,
        _ => panic!("expected a node creation"),
    };
    assert_eq!(first_x, second_x);
}
