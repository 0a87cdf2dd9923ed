//! The folding parser: collapses runs of identical foldable operators into
//! single instructions carrying a run length, and resolves loop nesting with
//! an explicit stack of open-loop instruction indices, patching each loop-open
//! with the index of its loop-close and vice versa.

use vstd::prelude::*;

use crate::lex::Token;

verus! {

/// One parsed instruction: an operation kind and an integer argument. For the
/// six foldable kinds the argument is the run length (always at least 1); for
/// `JumpIfZero` it is the instruction index of the matching `JumpIfNonZero`,
/// and for `JumpIfNonZero` the index of the matching `JumpIfZero`.
#[derive(PartialEq, Eq, Structural, Copy, Clone, Debug)]
pub struct Inst {
    pub typ: Token,
    pub argument: usize,
}

/// The one structural error of the language: a loop-close with no still-open
/// loop to match it.
#[derive(PartialEq, Eq, Structural, Copy, Clone, Debug)]
pub enum ParseError {
    UnmatchedClose,
}

/// Whether a token folds: every kind but the two loop brackets collapses runs.
pub open spec fn is_foldable(t: Token) -> bool {
    t != Token::JumpIfZero && t != Token::JumpIfNonZero
}

/// Length of the run of tokens identical to `tokens[pos]` starting at `pos`.
pub open spec fn run_len(tokens: Seq<Token>, pos: int) -> nat
    decreases tokens.len() - pos,
{
    if !(0 <= pos < tokens.len()) {
        0
    } else if pos + 1 < tokens.len() && tokens[pos + 1] == tokens[pos] {
        1 + run_len(tokens, pos + 1)
    } else {
        1
    }
}

/// A run is nonempty, stays inside the sequence, consists of tokens equal to
/// its first, and is maximal.
pub proof fn lemma_run_len(tokens: Seq<Token>, pos: int)
    requires
        0 <= pos < tokens.len(),
    ensures
        1 <= run_len(tokens, pos),
        pos + run_len(tokens, pos) <= tokens.len(),
        forall|j: int| pos <= j < pos + run_len(tokens, pos) ==> tokens[j] == tokens[pos],
        pos + run_len(tokens, pos) < tokens.len() ==> tokens[pos + run_len(tokens, pos)]
            != tokens[pos],
    decreases tokens.len() - pos,
{
    if pos + 1 < tokens.len() && tokens[pos + 1] == tokens[pos] {
        lemma_run_len(tokens, pos + 1);
    }
}

/// One pass of the folding parser from position `pos`, given the instructions
/// emitted so far and the stack of indices of still-open loop instructions.
/// Yields the final instruction list and the indices of loops left open, or
/// `None` for a loop-close met with no loop open.
pub open spec fn parse_from(
    tokens: Seq<Token>,
    pos: int,
    insts: Seq<Inst>,
    stack: Seq<usize>,
) -> Option<(Seq<Inst>, Seq<usize>)>
    decreases tokens.len() - pos,
    via parse_from_decreases
{
    if !(0 <= pos < tokens.len()) {
        Some((insts, stack))
    } else {
        let t = tokens[pos];
        if t == Token::JumpIfZero {
            parse_from(
                tokens,
                pos + 1,
                insts.push(Inst { typ: t, argument: 0 }),
                stack.push(insts.len() as usize),
            )
        } else if t == Token::JumpIfNonZero {
            if stack.len() == 0 {
                None
            } else {
                let open = stack.last() as int;
                let patched = insts.update(
                    open,
                    Inst { typ: insts[open].typ, argument: insts.len() as usize },
                );
                parse_from(
                    tokens,
                    pos + 1,
                    patched.push(Inst { typ: t, argument: stack.last() }),
                    stack.drop_last(),
                )
            }
        } else {
            let r = run_len(tokens, pos);
            parse_from(
                tokens,
                pos + r,
                insts.push(Inst { typ: t, argument: r as usize }),
                stack,
            )
        }
    }
}

#[via_fn]
proof fn parse_from_decreases(tokens: Seq<Token>, pos: int, insts: Seq<Inst>, stack: Seq<usize>) {
    if 0 <= pos < tokens.len() {
        lemma_run_len(tokens, pos);
    }
}

/// The parse of a whole token sequence: the instruction list together with
/// the indices of loops left open at the end, or `None` on an unmatched
/// loop-close.
pub open spec fn parse_full(tokens: Seq<Token>) -> Option<(Seq<Inst>, Seq<usize>)> {
    parse_from(tokens, 0, Seq::empty(), Seq::empty())
}

/// The contribution of one instruction to the loop nesting depth.
pub open spec fn bracket_delta(inst: Inst) -> int {
    if inst.typ == Token::JumpIfZero {
        1
    } else if inst.typ == Token::JumpIfNonZero {
        -1
    } else {
        0
    }
}

/// Net loop depth of an instruction sequence: loop-opens minus loop-closes.
pub open spec fn net_depth(insts: Seq<Inst>) -> int
    decreases insts.len(),
{
    if insts.len() == 0 {
        0
    } else {
        net_depth(insts.drop_last()) + bracket_delta(insts.last())
    }
}

/// Number of instructions of kind `t`.
pub open spec fn count_kind(insts: Seq<Inst>, t: Token) -> int
    decreases insts.len(),
{
    if insts.len() == 0 {
        0
    } else {
        count_kind(insts.drop_last(), t) + if insts.last().typ == t {
            1int
        } else {
            0int
        }
    }
}

/// Whether index `i` is on the stack of still-open loop instructions.
pub open spec fn on_stack(stack: Seq<usize>, i: int) -> bool {
    exists|k: int| 0 <= k < stack.len() && stack[k] == i
}

/// The globally unique label number of the loop-open at index `i`: one more
/// than the count of loop-opens before it.
pub open spec fn open_label(insts: Seq<Inst>, i: int) -> usize {
    (count_kind(insts.take(i), Token::JumpIfZero) + 1) as usize
}

/// The label numbers of the loops still open after the first `i`
/// instructions, innermost last: a loop-open pushes its own label, a
/// loop-close discharges the innermost.
pub open spec fn open_labels(insts: Seq<Inst>, i: int) -> Seq<usize>
    decreases i,
{
    if i <= 0 {
        Seq::empty()
    } else {
        let s = open_labels(insts, i - 1);
        if insts[i - 1].typ == Token::JumpIfZero {
            s.push(open_label(insts, i - 1))
        } else if insts[i - 1].typ == Token::JumpIfNonZero {
            if s.len() == 0 {
                s
            } else {
                s.drop_last()
            }
        } else {
            s
        }
    }
}

/// The matched-pair conditions at index `i`: a loop instruction (that is no
/// longer open) cross-references a partner of the opposite kind which points
/// back, and the partner's prefix sits exactly one nesting level apart.
/// Foldable instructions satisfy this trivially.
pub open spec fn matched_at(insts: Seq<Inst>, i: int) -> bool {
    let a = insts[i].argument as int;
    if insts[i].typ == Token::JumpIfZero {
        &&& i < a < insts.len()
        &&& insts[a].typ == Token::JumpIfNonZero
        &&& insts[a].argument == i
        &&& net_depth(insts.take(a)) == net_depth(insts.take(i)) + 1
    } else if insts[i].typ == Token::JumpIfNonZero {
        &&& 0 <= a < i
        &&& insts[a].typ == Token::JumpIfZero
        &&& insts[a].argument == i
        &&& net_depth(insts.take(i)) == net_depth(insts.take(a)) + 1
        &&& open_labels(insts, i).len() >= 1
        &&& open_labels(insts, i).last() == open_label(insts, a)
    } else {
        true
    }
}

/// Well-formedness of the open-loop stack: strictly increasing indices of
/// loop-open instructions still carrying the placeholder argument 0, the
/// `k`-th of which opens nesting level `k`.
pub open spec fn stack_wf(insts: Seq<Inst>, stack: Seq<usize>) -> bool {
    &&& forall|k: int|
        #![trigger stack[k]]
        0 <= k < stack.len() ==> {
            &&& stack[k] < insts.len()
            &&& insts[stack[k] as int].typ == Token::JumpIfZero
            &&& insts[stack[k] as int].argument == 0
            &&& net_depth(insts.take(stack[k] as int)) == k
        }
    &&& forall|k1: int, k2: int| 0 <= k1 < k2 < stack.len() ==> stack[k1] < stack[k2]
}

/// The label bookkeeping the parser maintains: the loops still open after all
/// instructions so far are exactly the stacked open instructions, each under
/// its own label.
pub open spec fn labels_wf(insts: Seq<Inst>, stack: Seq<usize>) -> bool {
    &&& open_labels(insts, insts.len() as int).len() == stack.len()
    &&& forall|k: int|
        #![trigger stack[k]]
        0 <= k < stack.len() ==> open_labels(insts, insts.len() as int)[k] == open_label(
            insts,
            stack[k] as int,
        )
}

/// Everything the folding parser maintains about the instructions emitted so
/// far and its stack of open loops.
pub open spec fn parser_inv(insts: Seq<Inst>, stack: Seq<usize>) -> bool {
    &&& stack_wf(insts, stack)
    &&& labels_wf(insts, stack)
    &&& forall|i: int|
        #![trigger matched_at(insts, i)]
        0 <= i < insts.len() && !on_stack(stack, i) ==> matched_at(insts, i)
    &&& count_kind(insts, Token::JumpIfZero) == count_kind(insts, Token::JumpIfNonZero)
        + stack.len()
    &&& net_depth(insts) == stack.len()
    &&& forall|i: int|
        #![trigger insts.take(i)]
        0 <= i <= insts.len() ==> net_depth(insts.take(i)) >= 0
}

/// `n` copies of token `t`.
pub open spec fn token_run(t: Token, n: int) -> Seq<Token> {
    Seq::new(n as nat, |j: int| t)
}

/// The token sequence an instruction list stands for: each foldable
/// instruction expands to `argument` copies of its token, each loop
/// instruction to one bracket token.
pub open spec fn unfold_insts(insts: Seq<Inst>) -> Seq<Token>
    decreases insts.len(),
{
    if insts.len() == 0 {
        Seq::empty()
    } else {
        unfold_insts(insts.drop_last()) + if is_foldable(insts.last().typ) {
            token_run(insts.last().typ, insts.last().argument as int)
        } else {
            seq![insts.last().typ]
        }
    }
}

proof fn lemma_take_push<A>(s: Seq<A>, x: A, i: int)
    requires
        0 <= i <= s.len(),
    ensures
        s.push(x).take(i) == s.take(i),
{
    assert(s.push(x).take(i) =~= s.take(i));
}

proof fn lemma_net_depth_push(s: Seq<Inst>, x: Inst)
    ensures
        net_depth(s.push(x)) == net_depth(s) + bracket_delta(x),
{
    assert(s.push(x).drop_last() =~= s);
}

proof fn lemma_count_push(s: Seq<Inst>, x: Inst, t: Token)
    ensures
        count_kind(s.push(x), t) == count_kind(s, t) + if x.typ == t {
            1int
        } else {
            0int
        },
{
    assert(s.push(x).drop_last() =~= s);
}

proof fn lemma_unfold_push(s: Seq<Inst>, x: Inst)
    ensures
        unfold_insts(s.push(x)) == unfold_insts(s) + if is_foldable(x.typ) {
            token_run(x.typ, x.argument as int)
        } else {
            seq![x.typ]
        },
{
    assert(s.push(x).drop_last() =~= s);
}

proof fn lemma_net_depth_update(s: Seq<Inst>, j: int, x: Inst)
    requires
        0 <= j < s.len(),
        x.typ == s[j].typ,
    ensures
        net_depth(s.update(j, x)) == net_depth(s),
    decreases s.len(),
{
    if j == s.len() - 1 {
        assert(s.update(j, x).drop_last() =~= s.drop_last());
    } else {
        assert(s.update(j, x).drop_last() =~= s.drop_last().update(j, x));
        lemma_net_depth_update(s.drop_last(), j, x);
    }
}

proof fn lemma_count_update(s: Seq<Inst>, j: int, x: Inst, t: Token)
    requires
        0 <= j < s.len(),
        x.typ == s[j].typ,
    ensures
        count_kind(s.update(j, x), t) == count_kind(s, t),
    decreases s.len(),
{
    if j == s.len() - 1 {
        assert(s.update(j, x).drop_last() =~= s.drop_last());
    } else {
        assert(s.update(j, x).drop_last() =~= s.drop_last().update(j, x));
        lemma_count_update(s.drop_last(), j, x, t);
    }
}

proof fn lemma_unfold_update_bracket(s: Seq<Inst>, j: int, x: Inst)
    requires
        0 <= j < s.len(),
        x.typ == s[j].typ,
        !is_foldable(x.typ),
    ensures
        unfold_insts(s.update(j, x)) == unfold_insts(s),
    decreases s.len(),
{
    if j == s.len() - 1 {
        assert(s.update(j, x).drop_last() =~= s.drop_last());
    } else {
        assert(s.update(j, x).drop_last() =~= s.drop_last().update(j, x));
        lemma_unfold_update_bracket(s.drop_last(), j, x);
    }
}

/// A same-kind update anywhere leaves every prefix's net depth unchanged.
proof fn lemma_net_depth_update_take(s: Seq<Inst>, j: int, x: Inst, i: int)
    requires
        0 <= j < s.len(),
        x.typ == s[j].typ,
        0 <= i <= s.len(),
    ensures
        net_depth(s.update(j, x).take(i)) == net_depth(s.take(i)),
{
    if j < i {
        assert(s.update(j, x).take(i) =~= s.take(i).update(j, x));
        lemma_net_depth_update(s.take(i), j, x);
    } else {
        assert(s.update(j, x).take(i) =~= s.take(i));
    }
}

/// Extending a prefix by one instruction counts that instruction's kind.
pub proof fn lemma_count_kind_take_succ(s: Seq<Inst>, i: int, t: Token)
    requires
        0 <= i < s.len(),
    ensures
        count_kind(s.take(i + 1), t) == count_kind(s.take(i), t) + if s[i].typ == t {
            1int
        } else {
            0int
        },
{
    assert(s.take(i + 1).drop_last() =~= s.take(i));
    assert(s.take(i + 1).last() == s[i]);
}

/// A kind count lies between zero and the sequence's length.
pub proof fn lemma_count_kind_le_len(s: Seq<Inst>, t: Token)
    ensures
        0 <= count_kind(s, t) <= s.len(),
    decreases s.len(),
{
    if s.len() > 0 {
        lemma_count_kind_le_len(s.drop_last(), t);
    }
}

/// Kind counts of prefixes never decrease as the prefix grows.
pub proof fn lemma_count_kind_monotone(s: Seq<Inst>, a: int, b: int, t: Token)
    requires
        0 <= a <= b <= s.len(),
    ensures
        count_kind(s.take(a), t) <= count_kind(s.take(b), t),
    decreases b - a,
{
    if a < b {
        lemma_count_kind_monotone(s, a, b - 1, t);
        lemma_count_kind_take_succ(s, b - 1, t);
    }
}

/// A same-kind update anywhere leaves every prefix's kind counts unchanged.
proof fn lemma_count_kind_update_take(s: Seq<Inst>, j: int, x: Inst, i: int, t: Token)
    requires
        0 <= j < s.len(),
        x.typ == s[j].typ,
        0 <= i <= s.len(),
    ensures
        count_kind(s.update(j, x).take(i), t) == count_kind(s.take(i), t),
{
    if j < i {
        assert(s.update(j, x).take(i) =~= s.take(i).update(j, x));
        lemma_count_update(s.take(i), j, x, t);
    } else {
        assert(s.update(j, x).take(i) =~= s.take(i));
    }
}

/// Appending an instruction leaves the open labels of every prior prefix
/// unchanged.
proof fn lemma_open_labels_push(s: Seq<Inst>, x: Inst, i: int)
    requires
        0 <= i <= s.len(),
    ensures
        open_labels(s.push(x), i) == open_labels(s, i),
    decreases i,
{
    if i > 0 {
        lemma_open_labels_push(s, x, i - 1);
        lemma_take_push(s, x, i - 1);
    }
}

/// A same-kind update anywhere leaves the open labels of every prefix
/// unchanged.
proof fn lemma_open_labels_update(s: Seq<Inst>, j: int, x: Inst, i: int)
    requires
        0 <= j < s.len(),
        x.typ == s[j].typ,
        0 <= i <= s.len(),
    ensures
        open_labels(s.update(j, x), i) == open_labels(s, i),
    decreases i,
{
    if i > 0 {
        lemma_open_labels_update(s, j, x, i - 1);
        lemma_count_kind_update_take(s, j, x, i - 1, Token::JumpIfZero);
    }
}

/// Extending a prefix by one instruction changes its net depth by that
/// instruction's bracket contribution.
pub proof fn lemma_net_depth_take_succ(s: Seq<Inst>, i: int)
    requires
        0 <= i < s.len(),
    ensures
        net_depth(s.take(i + 1)) == net_depth(s.take(i)) + bracket_delta(s[i]),
{
    assert(s.take(i + 1).drop_last() =~= s.take(i));
    assert(s.take(i + 1).last() == s[i]);
}

proof fn lemma_on_stack_push(stack: Seq<usize>, x: usize, i: int)
    ensures
        on_stack(stack, i) ==> on_stack(stack.push(x), i),
{
    if on_stack(stack, i) {
        let k = choose|k: int| 0 <= k < stack.len() && stack[k] == i;
        assert(stack.push(x)[k] == i);
    }
}

proof fn lemma_on_stack_split(stack: Seq<usize>, i: int)
    requires
        stack.len() > 0,
        on_stack(stack, i),
    ensures
        on_stack(stack.drop_last(), i) || i == stack.last(),
{
    let k = choose|k: int| 0 <= k < stack.len() && stack[k] == i;
    if k < stack.len() - 1 {
        assert(stack.drop_last()[k] == i);
    }
}

/// Folds the run starting at `*pos` into one instruction, advancing `*pos` to
/// the run's last position.
pub fn compile_foldable(token: Token, pos: &mut usize, program: &Vec<Token>) -> (r: Inst)
    requires
        *old(pos) < program@.len(),
        program@[*old(pos) as int] == token,
    ensures
        r == (Inst { typ: token, argument: run_len(program@, *old(pos) as int) as usize }),
        *final(pos) == *old(pos) + run_len(program@, *old(pos) as int) - 1,
{
    proof {
        lemma_run_len(program@, *pos as int);
    }
    let ghost start = *pos as int;
    let mut count: usize = 1;
    while *pos < program.len() - 1 && program[*pos + 1] == token
        invariant
            0 <= start <= *pos < program@.len(),
            program@[*pos as int] == token,
            program@[start] == token,
            count == *pos - start + 1,
            run_len(program@, start) == (*pos - start) + run_len(program@, *pos as int),
        decreases program@.len() - *pos,
    {
        count += 1;
        *pos += 1;
    }
    assert(run_len(program@, *pos as int) == 1);
    Inst { typ: token, argument: count }
}

/// Parses a token sequence into a flat instruction list: runs of foldable
/// tokens become single counted instructions; each loop-open is patched with
/// the index of its loop-close, whose own argument is the loop-open's index.
/// Fails exactly when a loop-close arrives with no loop open.
pub fn parse_program(program: Vec<Token>) -> (r: Result<Vec<Inst>, ParseError>)
    ensures
        match r {
            Ok(insts) => parse_full(program@) matches Some(p) && p.0 == insts@,
            Err(e) => parse_full(program@) is None && e == ParseError::UnmatchedClose,
        },
{
    let ghost toks = program@;
    let mut pos: usize = 0;
    let mut instructions: Vec<Inst> = Vec::new();
    let mut stack: Vec<usize> = Vec::new();
    while pos < program.len()
        invariant
            toks == program@,
            pos <= toks.len(),
            forall|k: int|
                0 <= k < stack@.len() ==> stack@[k] < instructions@.len()
                    && instructions@[stack@[k] as int].typ == Token::JumpIfZero,
            parse_from(toks, pos as int, instructions@, stack@) == parse_full(toks),
        decreases toks.len() - pos,
    {
        let curr = program[pos];
        let ghost start_pos = pos as int;
        let ghost before = instructions@;
        let ghost stack_before = stack@;
        match curr {
            Token::JumpIfZero => {
                stack.push(instructions.len());
                instructions.push(Inst { typ: Token::JumpIfZero, argument: 0 });
                assert(parse_from(toks, pos as int, before, stack_before) == parse_from(
                    toks,
                    pos + 1,
                    instructions@,
                    stack@,
                ));
            },
            Token::JumpIfNonZero => {
                if stack.len() == 0 {
                    return Err(ParseError::UnmatchedClose);
                }
                let open_inst_ptr = stack[stack.len() - 1];
                stack.pop();
                let mut open_inst = instructions[open_inst_ptr];
                open_inst.argument = instructions.len();
                instructions.push(Inst { typ: Token::JumpIfNonZero, argument: open_inst_ptr });
                instructions[open_inst_ptr] = open_inst;
                proof {
                    let patched = before.update(
                        open_inst_ptr as int,
                        Inst { typ: before[open_inst_ptr as int].typ, argument: before.len() as usize },
                    );
                    assert(instructions@ =~= patched.push(
                        Inst { typ: Token::JumpIfNonZero, argument: stack_before.last() },
                    ));
                    assert(stack@ =~= stack_before.drop_last());
                    assert(parse_from(toks, pos as int, before, stack_before) == parse_from(
                        toks,
                        pos + 1,
                        instructions@,
                        stack@,
                    ));
                }
            },
            _ => {
                proof {
                    lemma_run_len(toks, pos as int);
                }
                let inst = compile_foldable(curr, &mut pos, &program);
                instructions.push(inst);
                assert(parse_from(toks, start_pos, before, stack_before) == parse_from(
                    toks,
                    pos + 1,
                    instructions@,
                    stack@,
                ));
            },
        }
        pos += 1;
    }
    Ok(instructions)
}

/// The parser's invariant is carried from any midpoint to the end of the
/// pass, together with the re-expansion of the emitted instructions.
#[verifier::rlimit(50)]
proof fn lemma_parse_from_inv(tokens: Seq<Token>, pos: int, insts: Seq<Inst>, stack: Seq<usize>)
    requires
        tokens.len() <= usize::MAX,
        0 <= pos <= tokens.len(),
        insts.len() + (tokens.len() - pos) <= tokens.len(),
        forall|i: int| #![trigger insts[i]] 0 <= i < insts.len() ==> insts[i].argument <= tokens.len(),
        parser_inv(insts, stack),
    ensures
        parse_from(tokens, pos, insts, stack) matches Some(p) ==> {
            &&& parser_inv(p.0, p.1)
            &&& insts.len() <= p.0.len() <= tokens.len()
            &&& forall|i: int| #![trigger p.0[i]] 0 <= i < p.0.len() ==> p.0[i].argument <= tokens.len()
            &&& unfold_insts(p.0) == unfold_insts(insts) + tokens.skip(pos)
        },
    decreases tokens.len() - pos,
{
    if !(0 <= pos < tokens.len()) {
        assert(tokens.skip(pos) =~= Seq::<Token>::empty());
        assert(unfold_insts(insts) + tokens.skip(pos) =~= unfold_insts(insts));
    } else {
        let t = tokens[pos];
        let len = insts.len() as int;
        if t == Token::JumpIfZero {
            let x = Inst { typ: t, argument: 0 };
            let insts2 = insts.push(x);
            let stack2 = stack.push(insts.len() as usize);
            lemma_net_depth_push(insts, x);
            lemma_count_push(insts, x, Token::JumpIfZero);
            lemma_count_push(insts, x, Token::JumpIfNonZero);
            lemma_unfold_push(insts, x);
            assert forall|k: int| #![trigger stack2[k]] 0 <= k < stack2.len() implies {
                &&& stack2[k] < insts2.len()
                &&& insts2[stack2[k] as int].typ == Token::JumpIfZero
                &&& insts2[stack2[k] as int].argument == 0
                &&& net_depth(insts2.take(stack2[k] as int)) == k
            } by {
                if k < stack.len() {
                    assert(stack[k] < insts.len());
                    lemma_take_push(insts, x, stack[k] as int);
                } else {
                    assert(stack2[k] == insts.len() as usize);
                    assert(insts2.take(len) =~= insts);
                }
            }
            assert forall|i: int|
                0 <= i < insts2.len() && !on_stack(stack2, i) implies #[trigger] matched_at(
                insts2,
                i,
            ) by {
                if i == len {
                    assert(stack2[stack.len() as int] == insts.len() as usize);
                    assert(on_stack(stack2, i));
                } else {
                    lemma_on_stack_push(stack, insts.len() as usize, i);
                    assert(matched_at(insts, i));
                    if insts[i].typ == Token::JumpIfZero || insts[i].typ == Token::JumpIfNonZero {
                        let a = insts[i].argument as int;
                        lemma_take_push(insts, x, i);
                        lemma_take_push(insts, x, a);
                        lemma_open_labels_push(insts, x, i);
                    }
                }
            }
            assert forall|i: int| #![trigger insts2.take(i)] 0 <= i <= insts2.len() implies net_depth(
                insts2.take(i),
            ) >= 0 by {
                if i <= len {
                    lemma_take_push(insts, x, i);
                } else {
                    assert(insts2.take(i) =~= insts2);
                }
            }
            assert(labels_wf(insts2, stack2)) by {
                lemma_open_labels_push(insts, x, len);
                assert(insts.take(len) =~= insts);
                assert(insts2.take(len) =~= insts);
                assert(open_labels(insts2, len + 1) == open_labels(insts, len).push(
                    open_label(insts2, len),
                ));
                assert forall|k: int| #![trigger stack2[k]] 0 <= k < stack2.len() implies
                    open_labels(insts2, insts2.len() as int)[k] == open_label(
                    insts2,
                    stack2[k] as int,
                ) by {
                    if k < stack.len() {
                        assert(stack2[k] == stack[k]);
                        lemma_take_push(insts, x, stack[k] as int);
                    }
                }
            }
            assert(parser_inv(insts2, stack2));
            lemma_parse_from_inv(tokens, pos + 1, insts2, stack2);
            if let Some(p) = parse_from(tokens, pos, insts, stack) {
                assert(unfold_insts(p.0) =~= unfold_insts(insts) + tokens.skip(pos)) by {
                    assert(tokens.skip(pos) =~= seq![t] + tokens.skip(pos + 1));
                    assert(unfold_insts(insts2) + tokens.skip(pos + 1) =~= unfold_insts(insts)
                        + tokens.skip(pos));
                }
            }
        } else if t == Token::JumpIfNonZero {
            if stack.len() == 0 {
                // the parse fails; nothing to show
            } else {
                let open = stack.last() as int;
                assert(stack[stack.len() - 1] == stack.last());
                assert(insts[open].typ == Token::JumpIfZero);
                assert(net_depth(insts.take(open)) == stack.len() - 1);
                let xopen = Inst { typ: insts[open].typ, argument: insts.len() as usize };
                let xclose = Inst { typ: t, argument: stack.last() };
                let patched = insts.update(open, xopen);
                let insts2 = patched.push(xclose);
                let stack2 = stack.drop_last();
                lemma_net_depth_update(insts, open, xopen);
                lemma_net_depth_push(patched, xclose);
                lemma_count_update(insts, open, xopen, Token::JumpIfZero);
                lemma_count_update(insts, open, xopen, Token::JumpIfNonZero);
                lemma_count_push(patched, xclose, Token::JumpIfZero);
                lemma_count_push(patched, xclose, Token::JumpIfNonZero);
                lemma_unfold_update_bracket(insts, open, xopen);
                lemma_unfold_push(patched, xclose);
                lemma_open_labels_update(insts, open, xopen, len);
                lemma_open_labels_push(patched, xclose, len);
                lemma_count_kind_update_take(insts, open, xopen, open, Token::JumpIfZero);
                assert(open_labels(insts2, len) == open_labels(insts, len));
                assert(open_labels(insts, len).last() == open_label(insts, open)) by {
                    assert(open_labels(insts, len)[stack.len() - 1] == open_label(
                        insts,
                        stack[stack.len() - 1] as int,
                    ));
                }
                assert(open_label(insts2, open) == open_label(insts, open)) by {
                    lemma_take_push(patched, xclose, open);
                }
                assert forall|k: int| #![trigger stack2[k]] 0 <= k < stack2.len() implies {
                    &&& stack2[k] < insts2.len()
                    &&& insts2[stack2[k] as int].typ == Token::JumpIfZero
                    &&& insts2[stack2[k] as int].argument == 0
                    &&& net_depth(insts2.take(stack2[k] as int)) == k
                } by {
                    assert(stack2[k] == stack[k]);
                    assert(stack[k] < stack.last());
                    lemma_net_depth_update_take(insts, open, xopen, stack[k] as int);
                    lemma_take_push(patched, xclose, stack[k] as int);
                }
                assert forall|i: int|
                    0 <= i < insts2.len() && !on_stack(stack2, i) implies #[trigger] matched_at(
                    insts2,
                    i,
                ) by {
                    lemma_net_depth_update_take(insts, open, xopen, open);
                    lemma_net_depth_update_take(insts, open, xopen, len);
                    lemma_take_push(patched, xclose, open);
                    lemma_take_push(patched, xclose, len);
                    assert(patched.take(len) =~= patched);
                    if i == len {
                        assert(net_depth(insts2.take(len)) == stack.len());
                        assert(net_depth(insts2.take(open)) == stack.len() - 1);
                        assert(open_labels(insts2, len).last() == open_label(insts2, open));
                        assert(matched_at(insts2, i));
                    } else if i == open {
                        assert(net_depth(insts2.take(len)) == stack.len());
                        assert(net_depth(insts2.take(open)) == stack.len() - 1);
                        assert(matched_at(insts2, i));
                    } else {
                        assert(!on_stack(stack, i)) by {
                            if on_stack(stack, i) {
                                lemma_on_stack_split(stack, i);
                            }
                        }
                        assert(matched_at(insts, i));
                        if insts[i].typ == Token::JumpIfZero || insts[i].typ
                            == Token::JumpIfNonZero {
                            let a = insts[i].argument as int;
                            assert(a != open) by {
                                if a == open {
                                    if insts[i].typ == Token::JumpIfZero {
                                        assert(insts[a].typ == Token::JumpIfNonZero);
                                    } else {
                                        assert(insts[open].argument == 0);
                                        assert(insts[a].argument == i);
                                    }
                                }
                            }
                            assert(insts2[i] == insts[i]);
                            assert(insts2[a] == insts[a]);
                            lemma_net_depth_update_take(insts, open, xopen, i);
                            lemma_net_depth_update_take(insts, open, xopen, a);
                            lemma_take_push(patched, xclose, i);
                            lemma_take_push(patched, xclose, a);
                            lemma_open_labels_update(insts, open, xopen, i);
                            lemma_open_labels_push(patched, xclose, i);
                            lemma_count_kind_update_take(insts, open, xopen, a, Token::JumpIfZero);
                        }
                    }
                }
                assert forall|i: int| #![trigger insts2.take(i)] 0 <= i <= insts2.len() implies
                    net_depth(insts2.take(i)) >= 0 by {
                    if i <= len {
                        lemma_net_depth_update_take(insts, open, xopen, i);
                        lemma_take_push(patched, xclose, i);
                    } else {
                        assert(insts2.take(i) =~= insts2);
                        assert(net_depth(insts2) == stack2.len());
                    }
                }
                assert(labels_wf(insts2, stack2)) by {
                    assert(open_labels(insts2, len + 1) == open_labels(insts, len).drop_last());
                    assert forall|k: int| #![trigger stack2[k]] 0 <= k < stack2.len() implies
                        open_labels(insts2, insts2.len() as int)[k] == open_label(
                        insts2,
                        stack2[k] as int,
                    ) by {
                        assert(stack2[k] == stack[k]);
                        assert(open_labels(insts, len)[k] == open_label(insts, stack[k] as int));
                        lemma_count_kind_update_take(
                            insts,
                            open,
                            xopen,
                            stack[k] as int,
                            Token::JumpIfZero,
                        );
                        lemma_take_push(patched, xclose, stack[k] as int);
                    }
                }
                assert(parser_inv(insts2, stack2));
                assert forall|i: int| #![trigger insts2[i]] 0 <= i < insts2.len() implies insts2[i].argument
                    <= tokens.len() by {
                    if i != open && i != len {
                        assert(insts2[i] == insts[i]);
                    }
                }
                lemma_parse_from_inv(tokens, pos + 1, insts2, stack2);
                if let Some(p) = parse_from(tokens, pos, insts, stack) {
                    assert(unfold_insts(p.0) =~= unfold_insts(insts) + tokens.skip(pos)) by {
                        assert(tokens.skip(pos) =~= seq![t] + tokens.skip(pos + 1));
                        assert(unfold_insts(insts2) + tokens.skip(pos + 1) =~= unfold_insts(insts)
                            + tokens.skip(pos));
                    }
                }
            }
        } else {
            lemma_run_len(tokens, pos);
            let r = run_len(tokens, pos) as int;
            let x = Inst { typ: t, argument: run_len(tokens, pos) as usize };
            let insts2 = insts.push(x);
            lemma_net_depth_push(insts, x);
            lemma_count_push(insts, x, Token::JumpIfZero);
            lemma_count_push(insts, x, Token::JumpIfNonZero);
            lemma_unfold_push(insts, x);
            assert forall|k: int| #![trigger stack[k]] 0 <= k < stack.len() implies {
                &&& stack[k] < insts2.len()
                &&& insts2[stack[k] as int].typ == Token::JumpIfZero
                &&& insts2[stack[k] as int].argument == 0
                &&& net_depth(insts2.take(stack[k] as int)) == k
            } by {
                assert(stack[k] < insts.len());
                lemma_take_push(insts, x, stack[k] as int);
            }
            assert forall|i: int|
                0 <= i < insts2.len() && !on_stack(stack, i) implies #[trigger] matched_at(
                insts2,
                i,
            ) by {
                if i < len {
                    assert(matched_at(insts, i));
                    if insts[i].typ == Token::JumpIfZero || insts[i].typ == Token::JumpIfNonZero {
                        let a = insts[i].argument as int;
                        lemma_take_push(insts, x, i);
                        lemma_take_push(insts, x, a);
                        lemma_open_labels_push(insts, x, i);
                    }
                }
            }
            assert forall|i: int| #![trigger insts2.take(i)] 0 <= i <= insts2.len() implies net_depth(
                insts2.take(i),
            ) >= 0 by {
                if i <= len {
                    lemma_take_push(insts, x, i);
                } else {
                    assert(insts2.take(i) =~= insts2);
                }
            }
            assert(labels_wf(insts2, stack)) by {
                lemma_open_labels_push(insts, x, len);
                assert(open_labels(insts2, len + 1) == open_labels(insts, len));
                assert forall|k: int| #![trigger stack[k]] 0 <= k < stack.len() implies
                    open_labels(insts2, insts2.len() as int)[k] == open_label(
                    insts2,
                    stack[k] as int,
                ) by {
                    lemma_take_push(insts, x, stack[k] as int);
                }
            }
            assert(parser_inv(insts2, stack));
            lemma_parse_from_inv(tokens, pos + r, insts2, stack);
            if let Some(p) = parse_from(tokens, pos, insts, stack) {
                assert(unfold_insts(p.0) =~= unfold_insts(insts) + tokens.skip(pos)) by {
                    assert(tokens.skip(pos) =~= token_run(t, r) + tokens.skip(pos + r));
                    assert(unfold_insts(insts2) + tokens.skip(pos + r) =~= unfold_insts(insts)
                        + tokens.skip(pos));
                }
            }
        }
    }
}

/// What any successful parse guarantees: the parser's structural invariant,
/// the re-expansion of the output to the input tokens, and bounds on every
/// emitted argument.
pub proof fn lemma_parse_invariants(tokens: Seq<Token>)
    requires
        tokens.len() <= usize::MAX,
    ensures
        parse_full(tokens) matches Some(p) ==> {
            &&& parser_inv(p.0, p.1)
            &&& p.0.len() <= tokens.len()
            &&& forall|i: int| #![trigger p.0[i]] 0 <= i < p.0.len() ==> p.0[i].argument
                <= tokens.len()
            &&& unfold_insts(p.0) == tokens
        },
{
    lemma_parse_from_inv(tokens, 0, Seq::empty(), Seq::empty());
    if let Some(p) = parse_full(tokens) {
        assert(unfold_insts(Seq::<Inst>::empty()) + tokens.skip(0) =~= tokens);
    }
}

/// Round-trip pairing law: on a source whose parse succeeds with no loop left
/// open, the loop-open instructions equal the loop-close instructions in
/// number, and every loop instruction's argument is the index of its partner,
/// whose argument points back (one nesting level further in).
pub proof fn lemma_loop_pairing(tokens: Seq<Token>)
    requires
        tokens.len() <= usize::MAX,
        parse_full(tokens) matches Some(p) && p.1.len() == 0,
    ensures
        parse_full(tokens) matches Some(p) ==> {
            &&& count_kind(p.0, Token::JumpIfZero) == count_kind(p.0, Token::JumpIfNonZero)
            &&& forall|i: int| 0 <= i < p.0.len() ==> #[trigger] matched_at(p.0, i)
        },
{
    lemma_parse_invariants(tokens);
}

/// Number of tokens equal to `t`.
pub open spec fn count_tok(tokens: Seq<Token>, t: Token) -> int
    decreases tokens.len(),
{
    if tokens.len() == 0 {
        0
    } else {
        count_tok(tokens.drop_last(), t) + if tokens.last() == t {
            1int
        } else {
            0int
        }
    }
}

/// Bracket balance of a token sequence: no prefix closes more loops than it
/// opens, and the whole sequence closes every loop it opens.
pub open spec fn balanced(tokens: Seq<Token>) -> bool {
    &&& forall|i: int|
        #![trigger tokens.take(i)]
        0 <= i <= tokens.len() ==> count_tok(tokens.take(i), Token::JumpIfNonZero) <= count_tok(
            tokens.take(i),
            Token::JumpIfZero,
        )
    &&& count_tok(tokens, Token::JumpIfNonZero) == count_tok(tokens, Token::JumpIfZero)
}

proof fn lemma_count_tok_take_succ(s: Seq<Token>, i: int, t: Token)
    requires
        0 <= i < s.len(),
    ensures
        count_tok(s.take(i + 1), t) == count_tok(s.take(i), t) + if s[i] == t {
            1int
        } else {
            0int
        },
{
    assert(s.take(i + 1).drop_last() =~= s.take(i));
    assert(s.take(i + 1).last() == s[i]);
}

proof fn lemma_count_tok_segment_foldable(s: Seq<Token>, a: int, b: int, t: Token)
    requires
        0 <= a <= b <= s.len(),
        forall|j: int| a <= j < b ==> is_foldable(#[trigger] s[j]),
        !is_foldable(t),
    ensures
        count_tok(s.take(b), t) == count_tok(s.take(a), t),
    decreases b - a,
{
    if a < b {
        lemma_count_tok_segment_foldable(s, a, b - 1, t);
        lemma_count_tok_take_succ(s, b - 1, t);
    }
}

/// The parse of a bracket-balanced remainder succeeds and closes every loop,
/// given a stack as deep as the brackets so far left open.
proof fn lemma_balanced_parse_from(
    tokens: Seq<Token>,
    pos: int,
    insts: Seq<Inst>,
    stack: Seq<usize>,
)
    requires
        tokens.len() <= usize::MAX,
        0 <= pos <= tokens.len(),
        balanced(tokens),
        stack.len() == count_tok(tokens.take(pos), Token::JumpIfZero) - count_tok(
            tokens.take(pos),
            Token::JumpIfNonZero,
        ),
    ensures
        parse_from(tokens, pos, insts, stack) matches Some(p) && p.1.len() == 0,
    decreases tokens.len() - pos,
{
    if !(0 <= pos < tokens.len()) {
        assert(tokens.take(pos) =~= tokens);
    } else {
        let t = tokens[pos];
        if t == Token::JumpIfZero {
            lemma_count_tok_take_succ(tokens, pos, Token::JumpIfZero);
            lemma_count_tok_take_succ(tokens, pos, Token::JumpIfNonZero);
            lemma_balanced_parse_from(
                tokens,
                pos + 1,
                insts.push(Inst { typ: t, argument: 0 }),
                stack.push(insts.len() as usize),
            );
        } else if t == Token::JumpIfNonZero {
            lemma_count_tok_take_succ(tokens, pos, Token::JumpIfZero);
            lemma_count_tok_take_succ(tokens, pos, Token::JumpIfNonZero);
            assert(stack.len() >= 1) by {
                assert(count_tok(tokens.take(pos + 1), Token::JumpIfNonZero) <= count_tok(
                    tokens.take(pos + 1),
                    Token::JumpIfZero,
                ));
            }
            let open = stack.last() as int;
            let patched = insts.update(
                open,
                Inst { typ: insts[open].typ, argument: insts.len() as usize },
            );
            lemma_balanced_parse_from(
                tokens,
                pos + 1,
                patched.push(Inst { typ: t, argument: stack.last() }),
                stack.drop_last(),
            );
        } else {
            lemma_run_len(tokens, pos);
            let r = run_len(tokens, pos) as int;
            lemma_count_tok_segment_foldable(tokens, pos, pos + r, Token::JumpIfZero);
            lemma_count_tok_segment_foldable(tokens, pos, pos + r, Token::JumpIfNonZero);
            lemma_balanced_parse_from(
                tokens,
                pos + r,
                insts.push(Inst { typ: t, argument: r as usize }),
                stack,
            );
        }
    }
}

/// A source whose brackets balance always parses, with no loop left open.
pub proof fn lemma_balanced_parses(tokens: Seq<Token>)
    requires
        tokens.len() <= usize::MAX,
        balanced(tokens),
    ensures
        parse_full(tokens) matches Some(p) && p.1.len() == 0,
{
    assert(tokens.take(0int) =~= Seq::<Token>::empty());
    lemma_balanced_parse_from(tokens, 0, Seq::empty(), Seq::empty());
}

/// The round-trip pairing law, from the source: any token sequence whose
/// brackets balance parses successfully, its loop-opens and loop-closes are
/// equal in number, and every loop instruction's argument is the index of its
/// partner, whose argument points back.
pub proof fn lemma_balanced_source_pairing(tokens: Seq<Token>)
    requires
        tokens.len() <= usize::MAX,
        balanced(tokens),
    ensures
        parse_full(tokens) matches Some(p) && p.1.len() == 0,
        parse_full(tokens) matches Some(p) ==> {
            &&& count_kind(p.0, Token::JumpIfZero) == count_kind(p.0, Token::JumpIfNonZero)
            &&& forall|i: int| 0 <= i < p.0.len() ==> #[trigger] matched_at(p.0, i)
        },
{
    lemma_balanced_parses(tokens);
    lemma_loop_pairing(tokens);
}

/// Folding idempotence: re-deriving each parsed instruction's run length and
/// concatenating that many copies of its token (one copy for a loop bracket)
/// reproduces the parsed token sequence exactly.
pub proof fn lemma_fold_unfold(tokens: Seq<Token>)
    requires
        tokens.len() <= usize::MAX,
    ensures
        parse_full(tokens) matches Some(p) ==> unfold_insts(p.0) == tokens,
{
    lemma_parse_invariants(tokens);
}

/// A source text of non-operator characters only lexes to no tokens and
/// parses to the empty instruction list.
pub proof fn lemma_non_operator_source(s: Seq<char>)
    requires
        forall|i: int| 0 <= i < s.len() ==> crate::lex::token_of_char(s[i]) is None,
    ensures
        crate::lex::lexed(s).len() == 0,
        parse_full(crate::lex::lexed(s)) == Some(
            (Seq::<Inst>::empty(), Seq::<usize>::empty()),
        ),
{
    crate::lex::lemma_lex_non_operator(s);
}

} // verus!
