use forth::interpreter::Interpreter;
use forth::lexer::{split_words, tokenize, Lexer};
use forth::machine::{ForthError, Status};
use forth::token::{Prim, Token};

const FUEL: usize = 1_000_000;

fn chars(s: &str) -> Vec<char> {
    s.chars().collect()
}

fn run(src: &str) -> (Interpreter, Result<Status, ForthError>) {
    let tokens = tokenize(&chars(src));
    let mut it = Interpreter::new();
    let r = it.interpret_tokens(tokens, FUEL);
    (it, r)
}

fn output_of(src: &str) -> String {
    let (it, r) = run(src);
    assert_eq!(r, Ok(Status::Done));
    it.output.iter().collect()
}

fn stack_of(src: &str) -> Vec<i32> {
    let (it, r) = run(src);
    assert_eq!(r, Ok(Status::Done));
    it.stack
}

#[test]
fn rot_moves_third_to_top() {
    assert_eq!(stack_of("1 2 3 rot"), vec![2, 3, 1]);
}

#[test]
fn shuffles_match_their_permutations() {
    assert_eq!(stack_of("1 2 3 dup"), vec![1, 2, 3, 3]);
    assert_eq!(stack_of("1 2 3 swap"), vec![1, 3, 2]);
    assert_eq!(stack_of("1 2 3 over"), vec![1, 2, 3, 2]);
    assert_eq!(stack_of("9 1 2 3 rot rot rot"), vec![9, 1, 2, 3]);
    assert_eq!(stack_of("1 2 3 swap rot over dup"), vec![3, 2, 1, 2, 2]);
}

#[test]
fn shuffle_methods_on_the_stack() {
    let mut it = Interpreter::new();
    for v in [1, 2, 3] {
        it.push(v);
    }
    assert!(it.rot().is_ok());
    assert_eq!(it.stack, vec![2, 3, 1]);
    assert!(it.swap().is_ok());
    assert_eq!(it.stack, vec![2, 1, 3]);
    assert!(it.over().is_ok());
    assert_eq!(it.stack, vec![2, 1, 3, 1]);
    assert!(it.dup().is_ok());
    assert_eq!(it.stack, vec![2, 1, 3, 1, 1]);
    assert!(it.invert().is_ok());
    assert_eq!(it.stack, vec![2, 1, 3, 1, -2]);
    assert!(it.drop().is_ok());
    assert_eq!(it.pop(), Ok(1));
}

#[test]
fn shuffles_underflow() {
    let mut it = Interpreter::new();
    it.push(1);
    assert_eq!(it.swap(), Err(ForthError::StackUnderflow));
    assert_eq!(it.rot(), Err(ForthError::StackUnderflow));
    assert_eq!(it.stack, vec![1]);
}

#[test]
fn arithmetic_pop_order() {
    assert_eq!(stack_of("5 2 -"), vec![3]);
    assert_eq!(stack_of("8 3 mod"), vec![2]);
    assert_eq!(stack_of("7 2 /"), vec![3]);
    assert_eq!(stack_of("6 7 *"), vec![42]);
    assert_eq!(stack_of("6 7 +"), vec![13]);
}

#[test]
fn division_truncates_toward_zero() {
    assert_eq!(stack_of("-7 2 /"), vec![-3]);
    assert_eq!(stack_of("-7 2 mod"), vec![-1]);
    assert_eq!(stack_of("7 -2 /"), vec![-3]);
    assert_eq!(stack_of("7 -2 mod"), vec![1]);
    assert_eq!(stack_of("-2147483648 -1 /"), vec![i32::MIN]);
    assert_eq!(stack_of("-2147483648 -1 mod"), vec![0]);
}

#[test]
fn arithmetic_wraps() {
    assert_eq!(stack_of("2147483647 1 +"), vec![i32::MIN]);
    assert_eq!(stack_of("-2147483648 1 -"), vec![i32::MAX]);
    assert_eq!(stack_of("65536 65536 *"), vec![0]);
}

#[test]
fn division_by_zero_fails() {
    assert_eq!(run("1 0 /").1, Err(ForthError::ArithmeticFailure));
    assert_eq!(run("1 0 mod").1, Err(ForthError::ArithmeticFailure));
}

#[test]
fn comparisons_give_forth_flags() {
    assert_eq!(stack_of("3 5 <"), vec![-1]);
    assert_eq!(stack_of("5 3 <"), vec![0]);
    assert_eq!(stack_of("5 3 >"), vec![-1]);
    assert_eq!(stack_of("4 4 ="), vec![-1]);
    assert_eq!(stack_of("4 5 ="), vec![0]);
}

#[test]
fn bitwise_operations() {
    assert_eq!(stack_of("12 10 and"), vec![8]);
    assert_eq!(stack_of("12 10 or"), vec![14]);
    assert_eq!(stack_of("0 invert"), vec![-1]);
    assert_eq!(stack_of("-2147483648 invert"), vec![i32::MAX]);
}

#[test]
fn word_definition_and_call() {
    assert_eq!(output_of(": double 2 * ; 5 double ."), "10");
}

#[test]
fn redefinition_wins() {
    assert_eq!(output_of(": f 1 ; : f 2 ; f ."), "2");
}

#[test]
fn words_come_before_variables_and_constants() {
    assert_eq!(output_of("7 constant x variable x : x 42 ; x ."), "42");
    assert_eq!(output_of("7 constant y variable y y ."), "0");
}

#[test]
fn variable_store_and_fetch() {
    assert_eq!(output_of("variable x  10 x !  x @ ."), "10");
}

#[test]
fn increment_allot_and_cells() {
    assert_eq!(output_of("variable x 5 x ! x +! x @ ."), "6");
    let (it, r) = run("variable a 3 allot 2 cells");
    assert_eq!(r, Ok(Status::Done));
    assert_eq!(it.memory, vec![0, 0, 0, 0]);
    assert_eq!(it.stack, vec![2]);
    assert_eq!(output_of("variable a 2 allot 9 2 ! 2 @ ."), "9");
}

#[test]
fn constants_push_their_value() {
    assert_eq!(output_of("12 constant dozen dozen dozen + ."), "24");
}

#[test]
fn counted_loop_prints_counter() {
    assert_eq!(output_of("0 5 do i . loop"), "01234");
}

#[test]
fn counted_loop_without_iterations() {
    assert_eq!(output_of("5 5 do i . loop 7 ."), "7");
}

#[test]
fn begin_until_repeats() {
    assert_eq!(output_of("5 begin dup . 1 - dup 0 = until"), "54321");
}

#[test]
fn conditionals_take_one_branch() {
    assert_eq!(output_of("1 if 10 . else 20 . then 30 ."), "1030");
    assert_eq!(output_of("0 if 10 . else 20 . then 30 ."), "2030");
    assert_eq!(output_of("0 if 10 . then 30 ."), "30");
}

#[test]
fn recursion_with_base_case_terminates() {
    assert_eq!(
        output_of(": countdown dup . dup 0 > if 1 - countdown then ; 5 countdown"),
        "543210"
    );
}

#[test]
fn recursion_without_base_case_exhausts() {
    assert_eq!(run(": f f ; f").1, Err(ForthError::ResourceExhausted));
}

#[test]
fn empty_stack_underflows() {
    assert_eq!(run("drop").1, Err(ForthError::StackUnderflow));
    assert_eq!(run(".").1, Err(ForthError::StackUnderflow));
    assert_eq!(run("1 +").1, Err(ForthError::StackUnderflow));
    let mut it = Interpreter::new();
    assert_eq!(it.pop(), Err(ForthError::StackUnderflow));
}

#[test]
fn undefined_word_fails() {
    assert_eq!(run("1 frob").1, Err(ForthError::UndefinedWord(chars("frob"))));
}

#[test]
fn memory_index_out_of_bounds() {
    assert_eq!(run("variable x 1 @").1, Err(ForthError::OutOfBounds(1)));
    assert_eq!(run("5 0 !").1, Err(ForthError::OutOfBounds(0)));
    assert_eq!(run("-1 @").1, Err(ForthError::OutOfBounds(-1)));
    assert_eq!(run("-1 allot").1, Err(ForthError::OutOfBounds(-1)));
}

#[test]
fn huge_allot_exhausts_memory() {
    let (it, r) = run("variable x 2147483647 allot");
    assert_eq!(r, Err(ForthError::ResourceExhausted));
    assert_eq!(it.memory, vec![0]);
    assert_eq!(it.stack, vec![2147483647]);
}

#[test]
fn output_before_failure_is_kept() {
    let (it, r) = run("1 . i 2 .");
    assert_eq!(r, Err(ForthError::NotInLoop));
    assert_eq!(it.output, chars("1"));
    assert!(it.stack.is_empty());
}

#[test]
fn failed_fetch_changes_nothing() {
    let (it, r) = run("variable x 7 x ! 3 . 5 @");
    assert_eq!(r, Err(ForthError::OutOfBounds(5)));
    assert_eq!(it.memory, vec![7]);
    assert_eq!(it.stack, vec![5]);
    assert_eq!(it.output, chars("3"));
    let (it, r) = run("variable x 9 4 !");
    assert_eq!(r, Err(ForthError::OutOfBounds(4)));
    assert_eq!(it.memory, vec![0]);
    assert_eq!(it.stack, vec![9, 4]);
}

#[test]
fn undefined_word_changes_nothing() {
    let (it, r) = run("variable x 3 constant c 1 2 frob");
    assert_eq!(r, Err(ForthError::UndefinedWord(chars("frob"))));
    assert_eq!(it.stack, vec![1, 2]);
    assert_eq!(it.memory, vec![0]);
    assert_eq!(it.variables.len(), 1);
    assert_eq!(it.constants.len(), 1);
    let mut it = Interpreter::new();
    it.push(4);
    assert_eq!(it.handle_word(&chars("nope")), Err(ForthError::UndefinedWord(chars("nope"))));
    assert_eq!(it.stack, vec![4]);
    assert!(it.frames.is_empty());
}

#[test]
fn long_begin_until_runs_at_fixed_depth() {
    let (it, r) = run("150000 begin 1 - dup 0 = until");
    assert_eq!(r, Ok(Status::Done));
    assert_eq!(it.stack, vec![0]);
}

#[test]
fn begin_until_inside_a_word() {
    assert_eq!(output_of(": count 3 begin dup . 1 - dup 0 = until drop ; count 9 ."), "3219");
}

#[test]
fn definitions_need_a_name() {
    assert_eq!(run(": 5 ;").1, Err(ForthError::ExpectedIdentifier));
    assert_eq!(run("variable 3").1, Err(ForthError::ExpectedIdentifier));
    assert_eq!(run("1 constant dup").1, Err(ForthError::ExpectedIdentifier));
    assert_eq!(run(":").1, Err(ForthError::ExpectedIdentifier));
}

#[test]
fn i_outside_loop_fails() {
    assert_eq!(run("i").1, Err(ForthError::NotInLoop));
    assert_eq!(run("0 2 do loop i").1, Err(ForthError::NotInLoop));
}

#[test]
fn output_primitives() {
    assert_eq!(output_of("65 emit 321 emit cr -12 . 0 ."), "AA\n-120");
    assert_eq!(output_of("-2147483648 ."), "-2147483648");
    assert_eq!(output_of(".\" hello   world \" 1 ."), "hello world1");
}

#[test]
fn key_waits_for_input() {
    let tokens = tokenize(&chars("key 1 +"));
    let mut it = Interpreter::new();
    assert_eq!(it.interpret_tokens(tokens, FUEL), Ok(Status::NeedKey));
    it.supply_key(b'a');
    assert_eq!(it.run(FUEL), Ok(Status::Done));
    assert_eq!(it.stack, vec![98]);
}

#[test]
fn run_stops_when_fuel_runs_out() {
    let tokens = tokenize(&chars("1 2 3"));
    let mut it = Interpreter::new();
    assert_eq!(it.interpret_tokens(tokens, 2), Ok(Status::Running));
    assert_eq!(it.stack, vec![1, 2]);
    assert_eq!(it.step(), Ok(Status::Running));
    assert_eq!(it.run(10), Ok(Status::Done));
    assert_eq!(it.stack, vec![1, 2, 3]);
}

#[test]
fn take_output_clears() {
    let (mut it, _) = run("1 . 2 .");
    assert_eq!(it.take_output(), chars("12"));
    assert!(it.output.is_empty());
}

#[test]
fn split_on_any_whitespace() {
    let ws = split_words(&chars("  a\tbc\n\u{3000}d  "));
    assert_eq!(ws, vec![chars("a"), chars("bc"), chars("d")]);
    assert!(split_words(&chars(" \n ")).is_empty());
}

#[test]
fn words_classify() {
    let lexer = Lexer::new();
    assert_eq!(lexer.get_token_from_word(&chars("mod")), Token::Prim(Prim::Mod));
    assert_eq!(lexer.get_token_from_word(&chars("+!")), Token::Prim(Prim::Increment));
    assert_eq!(lexer.get_token_from_word(&chars("-17")), Token::Int(-17));
    assert_eq!(lexer.get_token_from_word(&chars("+5")), Token::Int(5));
    assert_eq!(lexer.get_token_from_word(&chars("2147483647")), Token::Int(i32::MAX));
    assert_eq!(lexer.get_token_from_word(&chars("-2147483648")), Token::Int(i32::MIN));
    assert_eq!(lexer.get_token_from_word(&chars("2147483648")), Token::Word(chars("2147483648")));
    assert_eq!(lexer.get_token_from_word(&chars("1a")), Token::Word(chars("1a")));
    assert_eq!(lexer.get_token_from_word(&chars("Mod")), Token::Word(chars("Mod")));
}

#[test]
fn string_literal_swallows_closing_quote() {
    let tokens = tokenize(&chars(".\" hi  there \" cr"));
    assert_eq!(tokens, vec![Token::Str(chars("hi there")), Token::Prim(Prim::Cr)]);
    let open = tokenize(&chars(".\" no end"));
    assert_eq!(open, vec![Token::Str(chars("no end"))]);
    let empty = tokenize(&chars(".\" \""));
    assert_eq!(empty, vec![Token::Str(vec![])]);
}

#[test]
fn lex_data_appends() {
    let mut lexer = Lexer::new();
    lexer.push(Token::Int(1));
    lexer.lex_data(&vec![chars("dup"), chars("x")]);
    assert_eq!(
        lexer.token_stack,
        vec![Token::Int(1), Token::Prim(Prim::Dup), Token::Word(chars("x"))]
    );
}
