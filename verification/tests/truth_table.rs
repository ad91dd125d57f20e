use truth_table::calc::make_truth_table;
use truth_table::calc::rec;
use truth_table::lexer::format_string;
use truth_table::lexer::Lexer;
use truth_table::lexer::Operator;
use truth_table::lexer::Token;
use truth_table::parse::Parser;

#[test]
fn format_test() {
    let str = "!((X) is Y)".to_string();
    let ret = format_string(str);
    assert_eq!(ret, ["!", "(", "(", "X", ")", "is", "Y", ")"]);
}

#[test]
fn format_symbols_split() {
    let ret = format_string("A->B ~C*D+0".to_string());
    assert_eq!(ret, ["A", "->", "B", "~", "C", "*", "D", "+", "0"]);
}

#[test]
fn var_indices_first_appearance() {
    let mut lexer = Lexer::new("Y and X".to_string());
    let t1 = lexer.get_token();
    assert!(matches!(t1, Token::Var(ref n, 0) if n == "Y"));
    let t2 = lexer.get_token();
    assert!(matches!(t2, Token::Op(Operator::And)));
    let t3 = lexer.get_token();
    assert!(matches!(t3, Token::Var(ref n, 1) if n == "X"));
    let t4 = lexer.get_token();
    assert!(matches!(t4, Token::End));
    assert_eq!(lexer.vnum, 2);
    assert_eq!(lexer.vars, ["Y", "X"]);
}

#[test]
fn var_index_reused_on_repeat() {
    let mut lexer = Lexer::new("P or Q or P".to_string());
    let t1 = lexer.get_token();
    assert!(matches!(t1, Token::Var(_, 0)));
    let _ = lexer.get_token();
    let t3 = lexer.get_token();
    assert!(matches!(t3, Token::Var(_, 1)));
    let _ = lexer.get_token();
    let t5 = lexer.get_token();
    assert!(matches!(t5, Token::Var(_, 0)));
    assert_eq!(lexer.vnum, 2);
}

#[test]
fn precedence_or_binds_looser_than_and() {
    let lexer = Lexer::new("A or B and C".to_string());
    let mut parser = Parser::new(lexer);
    let root = parser.parse().unwrap();
    let top = root.as_ref().unwrap();
    assert!(matches!(top.token, Token::Op(Operator::Or)));
    assert!(matches!(top.right.as_ref().unwrap().token, Token::Op(Operator::And)));
    let vec = vec![false, true, true];
    assert_eq!(truth_table::calc::calc(&vec, &root), Some(true));
}

#[test]
fn not_binds_tighter_than_and() {
    let lexer = Lexer::new("!A and B".to_string());
    let mut parser = Parser::new(lexer);
    let root = parser.parse().unwrap();
    let top = root.as_ref().unwrap();
    assert!(matches!(top.token, Token::Op(Operator::And)));
    assert!(matches!(top.left.as_ref().unwrap().token, Token::Op(Operator::Not)));
    // (!A) and B with A=true, B=true is false; !(A and B) would be false
    // only with both true, so check A=true, B=false too.
    assert_eq!(truth_table::calc::calc(&vec![true, true], &root), Some(false));
    assert_eq!(truth_table::calc::calc(&vec![true, false], &root), Some(false));
    assert_eq!(truth_table::calc::calc(&vec![false, true], &root), Some(true));
}

#[test]
fn implication_groups_to_the_right() {
    let lexer = Lexer::new("A is B is C".to_string());
    let mut parser = Parser::new(lexer);
    let root = parser.parse().unwrap();
    // A is (B is C): with A=false it is true whatever B and C hold;
    // (A is B) is C would be false here.
    assert_eq!(truth_table::calc::calc(&vec![false, true, false], &root), Some(true));
}

#[test]
fn truth_table_implication() {
    let s = make_truth_table("A is B".to_string()).unwrap();
    assert_eq!(s, "```input: A is B\n|A|B||f|\n|1|1||1|\n|1|0||0|\n|0|1||1|\n|0|0||1|\n```");
}

#[test]
fn truth_table_single_variable() {
    let s = make_truth_table("X".to_string()).unwrap();
    assert_eq!(s, "```input: X\n|X||f|\n|1||1|\n|0||0|\n```");
}

#[test]
fn truth_table_no_variables() {
    let s = make_truth_table("TRUE and FALSE".to_string()).unwrap();
    assert_eq!(s, "```input: TRUE and FALSE\n||f|\n||0|\n```");
}

#[test]
fn truth_table_symbol_vocabulary() {
    let s = make_truth_table("~(A + B) * (A -> 0)".to_string()).unwrap();
    assert_eq!(
        s,
        "```input: ~(A + B) * (A -> 0)\n|A|B||f|\n|1|1||0|\n|1|0||0|\n|0|1||0|\n|0|0||1|\n```"
    );
}

#[test]
fn truth_table_row_and_column_counts() {
    let s = make_truth_table("A and B or C".to_string()).unwrap();
    // the echoed input, the header, and two to the third rows
    assert_eq!(s.matches('\n').count(), 10);
    let lines: Vec<&str> = s.lines().collect();
    assert_eq!(lines[0], "```input: A and B or C");
    assert_eq!(lines[1], "|A|B|C||f|");
    // three variable columns and the f column in every row
    for line in &lines[2..10] {
        assert_eq!(line.matches('|').count(), 6);
    }
}

#[test]
fn wide_variable_names_pad_cells() {
    let s = make_truth_table("AB and X".to_string()).unwrap();
    assert_eq!(
        s,
        "```input: AB and X\n|AB|X||f|\n| 1|1||1|\n| 1|0||0|\n| 0|1||0|\n| 0|0||0|\n```"
    );
}

#[test]
fn nand_nor_xor_values() {
    let lexer = Lexer::new("A nand B".to_string());
    let mut parser = Parser::new(lexer);
    let root = parser.parse().unwrap();
    assert_eq!(truth_table::calc::calc(&vec![true, true], &root), Some(false));
    assert_eq!(truth_table::calc::calc(&vec![true, false], &root), Some(true));

    let lexer = Lexer::new("A nor B".to_string());
    let mut parser = Parser::new(lexer);
    let root = parser.parse().unwrap();
    assert_eq!(truth_table::calc::calc(&vec![false, false], &root), Some(true));
    assert_eq!(truth_table::calc::calc(&vec![true, false], &root), Some(false));

    let lexer = Lexer::new("A xor B".to_string());
    let mut parser = Parser::new(lexer);
    let root = parser.parse().unwrap();
    assert_eq!(truth_table::calc::calc(&vec![true, true], &root), Some(false));
    assert_eq!(truth_table::calc::calc(&vec![true, false], &root), Some(true));
}

#[test]
fn unbalanced_parentheses_error() {
    let e = make_truth_table("(A and B".to_string()).unwrap_err();
    assert_eq!(e.message, "ParseError: Incorrect parenthese");
}

#[test]
fn incomplete_parse_error() {
    // after `(A)` parses as a complete expression, `(B)` is left over
    let e = make_truth_table("(A)(B)".to_string()).unwrap_err();
    assert_eq!(e.message, "ParseError: Failed to create a parse tree.");
}

#[test]
fn adjacent_words_merge_across_whitespace() {
    // whitespace is removed before splitting, so two uppercase runs
    // separated only by spaces merge into one variable
    let s = make_truth_table("A and B C".to_string()).unwrap();
    assert_eq!(s, "```input: A and B C\n|A|BC||f|\n|1| 1||1|\n|1| 0||0|\n|0| 1||0|\n|0| 0||0|\n```");
}

#[test]
fn unexpected_token_error() {
    let e = make_truth_table("and".to_string()).unwrap_err();
    assert_eq!(e.message, "ParseError: Unknown token");
}

#[test]
fn empty_formula_error() {
    let e = make_truth_table("   ".to_string()).unwrap_err();
    assert_eq!(e.message, "ParseError: Empty formula.");
}

#[test]
fn unknown_words_become_variables() {
    let s = make_truth_table("FOO or BAR".to_string()).unwrap();
    assert_eq!(
        s,
        "```input: FOO or BAR\n|FOO|BAR||f|\n|  1|  1||1|\n|  1|  0||1|\n|  0|  1||1|\n|  0|  0||0|\n```"
    );
}

#[test]
fn enumeration_order_two_vars() {
    let mut vvec: Vec<Vec<bool>> = Vec::new();
    let mut vec = vec![true, true];
    rec(&mut vvec, &mut vec, 2, 2);
    assert_eq!(
        vvec,
        vec![
            vec![true, true],
            vec![true, false],
            vec![false, true],
            vec![false, false]
        ]
    );
}
