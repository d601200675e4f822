use jieplag::kind_of;
use jieplag::push_token;
use jieplag::tokenize_str;
use jieplag::Python;

#[test]
fn test_tokenize() {
    let code = "a = input() #42\nb = input()\nprint(a+b)";
    let tokens = tokenize_str(code).unwrap();

    println!("{:?}", tokens);

    assert_eq!(tokens[0].spelling, "a");
    assert_eq!(tokens[0].line, 1);
    assert_eq!(tokens[0].column, 1);

    assert_eq!(tokens[1].spelling, "=");
    assert_eq!(tokens[1].line, 1);
    assert_eq!(tokens[1].column, 3);

    assert_eq!(tokens[2].spelling, "input");
    assert_eq!(tokens[2].line, 1);
    assert_eq!(tokens[2].column, 5);

    assert_eq!(tokens[13].spelling, "+");
    assert_eq!(tokens[13].line, 3);
    assert_eq!(tokens[13].column, 8);
}

#[test]
fn test_kind_stability() {
    // renaming identifiers and dropping the comment must not change kinds
    let first = tokenize_str("a = input() #42\nb = input()\nprint(a+b)").unwrap();
    let second = tokenize_str("xyz = input()\nq = input()\nprint(xyz+q)").unwrap();
    let first_kinds: Vec<u8> = first.iter().map(|t| t.kind).collect();
    let second_kinds: Vec<u8> = second.iter().map(|t| t.kind).collect();
    assert_eq!(first_kinds, second_kinds);
}

#[test]
fn test_comments_are_dropped() {
    let with_comment = tokenize_str("x = 1 # a comment\n").unwrap();
    let without = tokenize_str("x = 1\n").unwrap();
    assert_eq!(with_comment.len(), without.len());
}

#[test]
fn test_kind_table_entries() {
    assert_eq!(kind_of(&"identifier".to_string()), 129);
    assert_eq!(kind_of(&"integer".to_string()), 138);
    assert_eq!(kind_of(&"=".to_string()), 42);
    // anything the table does not know falls to the sentinel
    assert_eq!(kind_of(&"certainly_not_a_node_type".to_string()), 215);
}

#[test]
fn test_python_struct_delegates() {
    let tokens = Python.tokenize_str("print(1)").unwrap();
    assert!(!tokens.is_empty());
    assert_eq!(tokens[0].spelling, "print");
    for w in tokens.windows(2) {
        assert!(w[0].line <= w[1].line);
    }
}

#[test]
fn test_tokenize_deterministic() {
    let code = "def f(x):\n    return x + 1\n";
    let first = tokenize_str(code).unwrap();
    let second = tokenize_str(code).unwrap();
    assert_eq!(first, second);
}

#[test]
fn test_push_token_positions() {
    let mut tokens = Vec::new();
    let mut last_line: u32 = 1;
    let mut last_col: u32 = 1;
    push_token(&mut tokens, &mut last_line, &mut last_col, 5, "a".to_string(), 2, 4);
    assert_eq!(tokens[0].line, 3);
    assert_eq!(tokens[0].column, 5);
    // a leaf reported out of source order is clamped, not trusted
    push_token(&mut tokens, &mut last_line, &mut last_col, 6, "b".to_string(), 0, 0);
    assert_eq!(tokens[1].line, 3);
    assert_eq!(tokens[1].column, 5);
    // a later position passes through unchanged
    push_token(&mut tokens, &mut last_line, &mut last_col, 7, "c".to_string(), 4, 0);
    assert_eq!(tokens[2].line, 5);
    assert_eq!(tokens[2].column, 1);
}
