use ceph_db::lexer::Lexer;
use ceph_db::parser::Parser;

#[test]
fn test_parser() {
    let src = r#"
            class {
                foo: Function(x
                    Return(x))
                bar: Function(a, b
                    Eq(x Add(a b))
                    Return(x))
            }
        "#;
    let mut p = Parser::new(src);

    p.consume_whitespace();
    p.consume_keyword("class").unwrap();
    p.consume_whitespace();

    p.consume_brace('{').unwrap();
    p.consume_whitespace();

    let methods = p.parse_methods();
    assert_eq!(methods.len(), 2);

    let foo_lxr = Lexer::new(&methods[0]);
    assert_eq!(foo_lxr.len(), 1);
    assert_eq!(foo_lxr.arguments(), vec!["x".to_string()]);

    let bar_lxr = Lexer::new(&methods[1]);
    assert_eq!(bar_lxr.len(), 2);
    assert_eq!(bar_lxr.arguments(), vec!["a".to_string(), "b".to_string()]);
}

#[test]
fn consume_keyword_reports_what_it_expected() {
    let mut p = Parser::new("classroom");
    assert!(p.consume_keyword("class").is_ok());
    let e = p.consume_keyword("struct").unwrap_err();
    assert_eq!(e, "Expected keyword: struct".to_string());
    assert_eq!(p.remaining(), "room".to_string());
}

#[test]
fn consume_brace_skips_whitespace_first() {
    let mut p = Parser::new("   {x");
    assert!(p.consume_brace('{').is_ok());
    assert_eq!(p.remaining(), "x".to_string());
    let e = p.consume_brace('(').unwrap_err();
    assert_eq!(e, "Expected brace: (".to_string());
}

#[test]
fn consume_identifier_reads_alphanumerics_and_separators() {
    let mut p = Parser::new("  ab_1: rest");
    let id = p.consume_identifier().unwrap();
    assert_eq!(id, "ab_1".to_string());
    assert_eq!(p.remaining(), " rest".to_string());

    let mut q = Parser::new("x,y");
    assert_eq!(q.consume_identifier().unwrap(), "x".to_string());
    assert_eq!(q.remaining(), "y".to_string());

    let mut r = Parser::new("a(b");
    assert_eq!(r.consume_identifier().unwrap(), "a".to_string());
    assert_eq!(r.remaining(), "(b".to_string());
}

#[test]
fn whitespace_consumers_stop_where_they_should() {
    let mut p = Parser::new("  \n  x");
    p.consume_whitespace_no_newline();
    assert_eq!(p.remaining(), "\n  x".to_string());
    p.consume_whitespace();
    assert_eq!(p.remaining(), "x".to_string());

    let mut q = Parser::new(" (())y");
    q.consume_whitespace_or_brackets();
    assert_eq!(q.remaining(), "y".to_string());
}

#[test]
fn next_token_splits_at_brackets() {
    let mut p = Parser::new("Return(x))");
    assert_eq!(p.next(), Some("Return".to_string()));
    assert_eq!(p.next(), Some("x".to_string()));
    assert_eq!(p.next(), Some("".to_string()));
    assert_eq!(p.next(), None);
}

#[test]
fn parse_function_returns_the_argument_names() {
    // a space before each comma: the identifier reader itself consumes a
    // comma that directly follows a name, a quirk of the argument loop
    let mut p = Parser::new("  Function(a , b , c");
    let args = p.parse_function();
    assert_eq!(
        args,
        vec!["a".to_string(), "b".to_string(), "c".to_string()]
    );
    let mut q = Parser::new("Function(a, b");
    assert_eq!(q.parse_function(), vec!["a".to_string()]);
}

#[test]
fn parse_methods_splits_on_function_lines() {
    let src = "one: Function(x\n    Return(x))\ntwo: Function(y\n    Return(y))\n}\nignored";
    let p = Parser::new(src);
    let methods = p.parse_methods();
    assert_eq!(methods.len(), 2);
    assert!(methods[0].contains("one"));
    assert!(methods[1].contains("two"));
    // the closing brace line ends the scan
    assert!(!methods[1].contains("ignored"));
}

#[test]
fn parser_len_counts_characters() {
    let p = Parser::new("abc");
    assert_eq!(p.len(), 3);
}
