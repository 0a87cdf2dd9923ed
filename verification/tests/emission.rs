use bfjvm::bytecode::input;
use bfjvm::bytecode::label_push;
use bfjvm::bytecode::LabelStack;
use bfjvm::bytecode::loop_end;
use bfjvm::bytecode::loop_start;
use bfjvm::bytecode::mov;
use bfjvm::bytecode::out;
use bfjvm::bytecode::plus;
use bfjvm::codegen::produce_code;
use bfjvm::lex::lex_program;
use bfjvm::lex::Token;
use bfjvm::parse::parse_program;
use bfjvm::parse::Inst;

const HEADER: &str = "\n.class public Main\n.super java/lang/Object\n\n.method public <init>()V\n    aload_0\n    invokenonvirtual java/lang/Object/<init>()V\n    return\n.end method\n\n.method public static main([Ljava/lang/String;)V\n    .limit stack 10\n    .limit locals 3\n\n    iconst_0\n    istore_1\n\n    bipush 100\n    newarray int\n    astore_2\n";

const TAIL: &str = "\n    return\n.end method\n";

fn compile(source: &str) -> String {
    let tokens = lex_program(source.to_string()).unwrap();
    let instructions = parse_program(tokens).unwrap();
    produce_code(instructions)
}

#[test]
fn plus_fragment_exact() {
    assert_eq!(plus(3), "aload_2\niload_1\ndup2\niaload\nbipush 3\niadd\niastore");
}

#[test]
fn plus_fragment_negative_count() {
    assert_eq!(plus(-2), "aload_2\niload_1\ndup2\niaload\nbipush -2\niadd\niastore");
}

#[test]
fn mov_fragment_exact() {
    assert_eq!(mov(7), "iinc 1 7");
    assert_eq!(mov(-4), "iinc 1 -4");
}

#[test]
fn out_fragment_exact() {
    assert_eq!(
        out(),
        "getstatic java/lang/System/out Ljava/io/PrintStream;\naload_2\niload_1\niaload\ni2c\ninvokevirtual java/io/PrintStream/print(C)V"
    );
}

#[test]
fn input_fragment_exact() {
    assert_eq!(
        input(),
        "aload_2\niload_1\ngetstatic java/lang/System/in Ljava/io/InputStream;\ninvokevirtual java/io/InputStream/read()I\niastore"
    );
}

#[test]
fn label_push_starts_at_one() {
    let mut stack = LabelStack::new();
    assert_eq!(label_push(&mut stack), 1);
    assert_eq!(stack.issued, 1);
    assert_eq!(stack.open, vec![1]);
}

#[test]
fn label_push_never_reissues_a_number() {
    let mut stack = LabelStack::new();
    assert_eq!(label_push(&mut stack), 1);
    stack.open.pop();
    assert_eq!(label_push(&mut stack), 2);
    assert_eq!(stack.issued, 2);
    assert_eq!(stack.open, vec![2]);
}

#[test]
fn loop_fragments_share_their_label() {
    let mut stack = LabelStack::new();
    let start = loop_start(&mut stack);
    assert_eq!(
        start,
        "loop1Start:\naload_2\niload_1\niaload\nifeq loop1End"
    );
    assert_eq!(stack.open, vec![1]);
    let end = loop_end(&mut stack);
    assert_eq!(end, "goto loop1Start\nloop1End:");
    assert_eq!(stack.open, vec![]);
    assert_eq!(stack.issued, 1);
}

#[test]
fn produce_code_empty_program() {
    assert_eq!(compile(""), format!("{}\n{}", HEADER, TAIL));
}

#[test]
fn produce_code_exact_text() {
    let expected = format!(
        "{}\n{}\n{}\n{}\n{}\n{}",
        HEADER,
        "aload_2\niload_1\ndup2\niaload\nbipush 1\niadd\niastore",
        "loop1Start:\naload_2\niload_1\niaload\nifeq loop1End",
        "aload_2\niload_1\ndup2\niaload\nbipush -1\niadd\niastore",
        "goto loop1Start\nloop1End:",
        TAIL
    );
    assert_eq!(compile("+[-]"), expected);
}

#[test]
fn produce_code_uses_run_lengths() {
    let code = compile("+++>>.");
    assert!(code.contains("bipush 3"));
    assert!(code.contains("iinc 1 2"));
    assert!(code.contains("invokevirtual java/io/PrintStream/print(C)V"));
}

#[test]
fn nested_loops_get_nested_labels() {
    let code = compile("[[]]");
    let one_start = code.find("loop1Start:").unwrap();
    let two_start = code.find("loop2Start:").unwrap();
    let two_goto = code.find("goto loop2Start").unwrap();
    let two_end = code.find("loop2End:").unwrap();
    let one_goto = code.find("goto loop1Start").unwrap();
    let one_end = code.find("loop1End:").unwrap();
    assert!(one_start < two_start);
    assert!(two_start < two_goto);
    assert!(two_goto < two_end);
    assert!(two_end < one_goto);
    assert!(one_goto < one_end);
}

#[test]
fn triple_nesting_counts_to_three() {
    let code = compile("[[[]]]");
    assert!(code.contains("loop3Start:"));
    assert!(code.contains("goto loop3Start"));
    assert!(!code.contains("loop4"));
}

#[test]
fn sibling_loops_get_distinct_labels() {
    let code = compile("[][]");
    assert_eq!(code.matches("loop1Start:").count(), 1);
    assert_eq!(code.matches("loop2Start:").count(), 1);
    assert!(code.contains("goto loop1Start\nloop1End:"));
    assert!(code.contains("goto loop2Start\nloop2End:"));
}

#[test]
fn nested_and_sibling_loops_number_in_opening_order() {
    let code = compile("[[][]]");
    let one = code.find("loop1Start:").unwrap();
    let two = code.find("loop2Start:").unwrap();
    let two_end = code.find("goto loop2Start\nloop2End:").unwrap();
    let three = code.find("loop3Start:").unwrap();
    let three_end = code.find("goto loop3Start\nloop3End:").unwrap();
    let one_end = code.find("goto loop1Start\nloop1End:").unwrap();
    assert!(one < two);
    assert!(two < two_end);
    assert!(two_end < three);
    assert!(three < three_end);
    assert!(three_end < one_end);
    assert!(!code.contains("loop4"));
}

#[test]
fn to_bytecode_maps_each_kind() {
    let mut stack = LabelStack::new();
    let fragment = Inst { typ: Token::Minus, argument: 5 }.to_bytecode(&mut stack);
    assert_eq!(fragment, "aload_2\niload_1\ndup2\niaload\nbipush -5\niadd\niastore");
    let fragment = Inst { typ: Token::Left, argument: 2 }.to_bytecode(&mut stack);
    assert_eq!(fragment, "iinc 1 -2");
    let fragment = Inst { typ: Token::JumpIfZero, argument: 0 }.to_bytecode(&mut stack);
    assert_eq!(fragment, "loop1Start:\naload_2\niload_1\niaload\nifeq loop1End");
    let fragment = Inst { typ: Token::JumpIfNonZero, argument: 0 }.to_bytecode(&mut stack);
    assert_eq!(fragment, "goto loop1Start\nloop1End:");
    assert!(stack.open.is_empty());
    assert_eq!(stack.issued, 1);
}
