use regex_engine::ast::AST;
use regex_engine::codegen::{get_code, CodeGenError};
use regex_engine::evaluator::{eval, EvalError};
use regex_engine::instruction::Instruction;
use regex_engine::parser::{parse, ParserError};

fn compile(pattern: &str) -> Vec<Instruction> {
    let ast = parse(pattern).expect("pattern should parse");
    get_code(&ast).expect("pattern should compile")
}

fn run(pattern: &str, line: &str, start: usize) -> Result<bool, EvalError> {
    let code = compile(pattern);
    let chars: Vec<char> = line.chars().collect();
    eval(&code, start, &chars, true)
}

fn is_match(pattern: &str, line: &str) -> bool {
    run(pattern, line, 0).expect("evaluation should complete")
}

#[test]
fn literal_and_concatenation() {
    assert!(is_match("abc", "abc"));
    assert!(is_match("ab", "abc")); // trailing input is not inspected
    assert!(!is_match("abc", "abd"));
    assert!(!is_match("abc", "ab"));
}

#[test]
fn wildcard_matches_any_single_character() {
    assert!(is_match("a.c", "abc"));
    assert!(is_match("a.c", "axc"));
    assert!(!is_match("a.c", "ac"));
}

#[test]
fn wildcard_literal_dot_also_matches_dot() {
    assert!(is_match(".", "x"));
    assert!(is_match(".", "."));
    assert!(!is_match(".", ""));
}

#[test]
fn end_anchor_requires_end_of_input() {
    assert!(is_match("ab$", "ab"));
    assert!(!is_match("ab$", "abc"));
}

#[test]
fn start_anchor_is_behaviourally_inert() {
    assert!(is_match("^ab", "ab"));
    assert!(is_match("a^b", "ab")); // the anchor consumes nothing and asserts nothing
}

#[test]
fn star_matches_empty_input() {
    assert!(is_match("a*", ""));
    assert!(is_match("a*", "aaa"));
}

#[test]
fn plus_requires_at_least_one() {
    assert!(!is_match("a+", ""));
    assert!(is_match("a+", "a"));
    assert!(is_match("a+", "aaa"));
}

#[test]
fn question_matches_zero_or_one() {
    assert!(is_match("ab?c", "ac"));
    assert!(is_match("ab?c", "abc"));
    assert!(!is_match("ab?c", "abbc"));
}

#[test]
fn alternation_first_branch_wins() {
    // Both alternatives of `a|ab` succeed on "ab"; the match must come
    // through the first. A hand-built program makes the order observable:
    // if the engine consulted the second branch of the split first, it
    // would fetch address 99 and abort with InvalidPC instead of matching.
    let prog = vec![
        Instruction::Split(1, 2),
        Instruction::Match,
        Instruction::Jump(99),
    ];
    let chars: Vec<char> = "ab".chars().collect();
    assert_eq!(eval(&prog, 0, &chars, true), Ok(true));
    assert!(is_match("a|ab", "ab"));
}

#[test]
fn alternation_second_branch_is_tried_after_first_fails() {
    let prog = vec![
        Instruction::Split(1, 3),
        Instruction::Char('z'),
        Instruction::Match,
        Instruction::Match,
    ];
    let chars: Vec<char> = "a".chars().collect();
    assert_eq!(eval(&prog, 0, &chars, true), Ok(true));
    assert!(is_match("x|y|a", "a"));
    assert!(!is_match("x|y|z", "a"));
}

#[test]
fn grouping_with_alternation() {
    assert!(is_match("(a|b)c", "ac"));
    assert!(is_match("(a|b)c", "bc"));
    assert!(!is_match("(a|b)c", "cc"));
}

#[test]
fn nested_groups_and_repetition() {
    assert!(is_match("((a))", "a"));
    assert!(is_match("(ab)*", ""));
    assert!(is_match("(ab)*c", "ababc"));
    assert!(is_match("(a|bc)+d", "bcad"));
    assert!(!is_match("(ab)+", "b"));
}

#[test]
fn escapes_make_metacharacters_literal() {
    assert!(is_match("\\*", "*"));
    assert!(is_match("a\\|b", "a|b"));
    assert!(!is_match("a\\|b", "a"));
    assert!(is_match("\\\\", "\\"));
    assert!(is_match("\\(\\)", "()"));
}

#[test]
fn parser_error_missing_predecessor() {
    assert_eq!(parse("*"), Err(ParserError::NoPrev(0)));
    assert_eq!(parse("ab|*"), Err(ParserError::NoPrev(3)));
    assert_eq!(parse("|a"), Err(ParserError::NoPrev(0)));
}

#[test]
fn parser_error_unmatched_right_parenthesis() {
    assert_eq!(parse(")"), Err(ParserError::InvalidRightParan(0)));
    assert_eq!(parse("a)b"), Err(ParserError::InvalidRightParan(1)));
}

#[test]
fn parser_error_unclosed_group() {
    assert_eq!(parse("("), Err(ParserError::NoRightParan));
    assert_eq!(parse("(a|b"), Err(ParserError::NoRightParan));
}

#[test]
fn parser_error_empty_pattern() {
    assert_eq!(parse(""), Err(ParserError::Empty));
    assert_eq!(parse("()"), Err(ParserError::Empty));
}

#[test]
fn parser_error_invalid_escape() {
    assert_eq!(parse("\\x"), Err(ParserError::InvalidEscape(1, 'x')));
    assert_eq!(parse("ab\\^"), Err(ParserError::InvalidEscape(3, '^')));
}

#[test]
fn trailing_backslash_is_dropped() {
    // A pattern that ends inside an escape simply ends; the pending
    // backslash contributes nothing.
    assert!(is_match("ab\\", "ab"));
}

#[test]
fn bar_with_empty_right_side_keeps_left_branch() {
    assert!(is_match("a|", "a"));
    assert!(!is_match("a|", "b"));
}

#[test]
fn generated_code_is_deterministic() {
    let ast = parse("a*(b|c)?d+$").expect("pattern should parse");
    let first = get_code(&ast).expect("generation should succeed");
    let second = get_code(&ast).expect("generation should succeed");
    assert_eq!(first, second);
}

#[test]
fn generated_addresses_are_all_in_range() {
    for pattern in ["a", "a*", "a+", "a?", "a|b", "(a|bc)*d$", "((a|b)|c)+", "^x.y$"] {
        let code = compile(pattern);
        for inst in &code {
            match inst {
                Instruction::Jump(t) => assert!(*t < code.len()),
                Instruction::Split(t1, t2) => {
                    assert!(*t1 < code.len());
                    assert!(*t2 < code.len());
                },
                _ => {},
            }
        }
    }
}

#[test]
fn exact_bytecode_of_small_patterns() {
    assert_eq!(
        compile("ab"),
        vec![Instruction::Char('a'), Instruction::Char('b'), Instruction::Match]
    );
    assert_eq!(
        compile("a+"),
        vec![Instruction::Char('a'), Instruction::Split(0, 2), Instruction::Match]
    );
    assert_eq!(
        compile("a*"),
        vec![
            Instruction::Split(1, 3),
            Instruction::Char('a'),
            Instruction::Jump(0),
            Instruction::Match,
        ]
    );
    assert_eq!(
        compile("a?"),
        vec![Instruction::Split(1, 2), Instruction::Char('a'), Instruction::Match]
    );
    assert_eq!(
        compile("a|b"),
        vec![
            Instruction::Split(1, 3),
            Instruction::Char('a'),
            Instruction::Jump(4),
            Instruction::Char('b'),
            Instruction::Match,
        ]
    );
    assert_eq!(
        compile("a$"),
        vec![Instruction::Char('a'), Instruction::Dollar, Instruction::Match]
    );
    assert_eq!(
        compile("^a"),
        vec![Instruction::Hat, Instruction::Char('a'), Instruction::Match]
    );
}

#[test]
fn alternation_is_right_nested() {
    // a|b|c folds to Or(a, Or(b, c)): the split of the outermost Or comes
    // first and its first target is the code of `a`.
    assert_eq!(
        compile("a|b|c"),
        vec![
            Instruction::Split(1, 3),
            Instruction::Char('a'),
            Instruction::Jump(7),
            Instruction::Split(4, 6),
            Instruction::Char('b'),
            Instruction::Jump(7),
            Instruction::Char('c'),
            Instruction::Match,
        ]
    );
}

#[test]
fn evaluation_at_a_start_offset() {
    let code = compile("b$");
    let chars: Vec<char> = "ab".chars().collect();
    assert_eq!(eval(&code, 0, &chars, true), Ok(false));
    assert_eq!(eval(&code, 1, &chars, true), Ok(true));
}

#[test]
fn invalid_program_counter_is_a_typed_error() {
    let empty: Vec<Instruction> = Vec::new();
    let chars: Vec<char> = "a".chars().collect();
    assert_eq!(eval(&empty, 0, &chars, true), Err(EvalError::InvalidPC));
    let prog = vec![Instruction::Jump(5)];
    assert_eq!(eval(&prog, 0, &chars, true), Err(EvalError::InvalidPC));
}

#[test]
fn width_mode_reports_no_match() {
    let code = compile("a");
    let chars: Vec<char> = "a".chars().collect();
    assert_eq!(eval(&code, 0, &chars, false), Ok(false));
}

#[test]
fn parse_builds_the_expected_tree() {
    let ast = parse("a|b").expect("pattern should parse");
    let expected = AST::Or(
        Box::new(AST::Concat(vec![AST::Char('a')])),
        Box::new(AST::Concat(vec![AST::Char('b')])),
    );
    assert_eq!(ast, expected);
    let ast2 = parse("a+").expect("pattern should parse");
    assert_eq!(
        ast2,
        AST::Concat(vec![AST::Plus(Box::new(AST::Char('a')))])
    );
}

#[test]
fn generation_error_variants_are_distinct() {
    assert_ne!(CodeGenError::PCOverFlow, CodeGenError::FailStar);
    assert_ne!(CodeGenError::FailOr, CodeGenError::FailQuestion);
}
