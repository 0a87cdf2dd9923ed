//! Emission of the whole program text: a fixed class/method header, one
//! assembly fragment per instruction joined by newlines, and a fixed trailer.
//! Loop fragments draw globally unique label numbers from the allocator of
//! [`crate::bytecode`]; the instruction list's own index arguments are not
//! consulted here.

use vstd::prelude::*;

use crate::bytecode::LabelStack;
use crate::bytecode::input_text;
use crate::bytecode::loop_end_text;
use crate::bytecode::loop_start_text;
use crate::bytecode::mov_text;
use crate::bytecode::out_text;
use crate::bytecode::plus_text;
use crate::lex::Token;
use crate::parse::Inst;
use crate::parse::is_foldable;
use crate::parse::count_kind;
use crate::parse::lemma_count_kind_le_len;
use crate::parse::lemma_count_kind_monotone;
use crate::parse::lemma_count_kind_take_succ;
use crate::parse::lemma_loop_pairing;
use crate::parse::lemma_net_depth_take_succ;
use crate::parse::lemma_parse_invariants;
use crate::parse::matched_at;
use crate::parse::net_depth;
use crate::parse::on_stack;
use crate::parse::open_label;
use crate::parse::open_labels;
use crate::parse::parse_full;

verus! {

/// The label number the emitter assigns to the loop instruction at `i`: a
/// loop-open is numbered by the count of loop-opens before it plus one, so no
/// number is ever issued twice; a loop-close reuses the innermost label still
/// open at its position.
pub open spec fn label_at(insts: Seq<Inst>, i: int) -> int {
    if insts[i].typ == Token::JumpIfZero {
        open_label(insts, i) as int
    } else {
        open_labels(insts, i).last() as int
    }
}

/// The fragment emitted for the instruction at `i`.
pub open spec fn inst_text(insts: Seq<Inst>, i: int) -> Seq<char> {
    let inst = insts[i];
    match inst.typ {
        Token::Plus => plus_text(inst.argument as int),
        Token::Minus => plus_text(-(inst.argument as int)),
        Token::Right => mov_text(inst.argument as int),
        Token::Left => mov_text(-(inst.argument as int)),
        Token::PutChar => out_text(),
        Token::ReadChar => input_text(),
        Token::JumpIfZero => loop_start_text(label_at(insts, i)),
        Token::JumpIfNonZero => loop_end_text(label_at(insts, i)),
    }
}

/// The newline-joined fragments from instruction `i` on, with the newline
/// that separates the last fragment from the trailer.
pub open spec fn body_text(insts: Seq<Inst>, i: int) -> Seq<char>
    decreases insts.len() - i,
{
    if !(0 <= i < insts.len()) {
        seq!['\n']
    } else {
        seq!['\n'] + inst_text(insts, i) + body_text(insts, i + 1)
    }
}

/// The fixed header: class scaffolding, a zeroed pointer register in local
/// slot 1, and a 100-cell integer array in local slot 2.
pub open spec fn header_text() -> Seq<char> {
    "\n.class public Main\n.super java/lang/Object\n\n.method public <init>()V\n    aload_0\n    invokenonvirtual java/lang/Object/<init>()V\n    return\n.end method\n\n.method public static main([Ljava/lang/String;)V\n    .limit stack 10\n    .limit locals 3\n\n    iconst_0\n    istore_1\n\n    bipush 100\n    newarray int\n    astore_2\n"@
}

/// The fixed trailer closing the entry method.
pub open spec fn tail_text() -> Seq<char> {
    "\n    return\n.end method\n"@
}

/// The complete emitted program text for an instruction list.
pub open spec fn code_text(insts: Seq<Inst>) -> Seq<char> {
    header_text() + body_text(insts, 0) + tail_text()
}

/// What safe emission requires of an instruction list: every loop-close
/// stands at positive nesting depth (it has a loop to close), and every
/// foldable run length fits the signed immediate it is emitted as.
pub open spec fn codegen_wf(insts: Seq<Inst>) -> bool {
    forall|i: int|
        #![trigger insts[i]]
        0 <= i < insts.len() ==> {
            &&& (insts[i].typ == Token::JumpIfNonZero ==> net_depth(insts.take(i)) >= 1)
            &&& (is_foldable(insts[i].typ) ==> insts[i].argument <= i32::MAX)
        }
}

/// The fragment one instruction emits, given the labels issued so far and the
/// stack of open labels it meets.
pub open spec fn fragment_text(inst: Inst, issued: int, open: Seq<usize>) -> Seq<char> {
    match inst.typ {
        Token::Plus => plus_text(inst.argument as int),
        Token::Minus => plus_text(-(inst.argument as int)),
        Token::Right => mov_text(inst.argument as int),
        Token::Left => mov_text(-(inst.argument as int)),
        Token::PutChar => out_text(),
        Token::ReadChar => input_text(),
        Token::JumpIfZero => loop_start_text(issued + 1),
        Token::JumpIfNonZero => loop_end_text(open.last() as int),
    }
}

/// How many labels are issued after one instruction's fragment: opening a
/// loop issues one more.
pub open spec fn issued_after(inst: Inst, issued: int) -> int {
    if inst.typ == Token::JumpIfZero {
        issued + 1
    } else {
        issued
    }
}

/// The open-label stack after one instruction's fragment: opening a loop
/// pushes its fresh label, closing one pops the innermost.
pub open spec fn open_after(inst: Inst, issued: int, open: Seq<usize>) -> Seq<usize> {
    if inst.typ == Token::JumpIfZero {
        open.push((issued + 1) as usize)
    } else if inst.typ == Token::JumpIfNonZero {
        open.drop_last()
    } else {
        open
    }
}

impl Inst {
    /// The assembly-text fragment of this one instruction; the two loop kinds
    /// take their label number from `loop_stack`, pushing on open and popping
    /// on close.
    pub fn to_bytecode(&self, loop_stack: &mut LabelStack) -> (r: String)
        requires
            is_foldable(self.typ) ==> self.argument <= i32::MAX,
            self.typ == Token::JumpIfZero ==> old(loop_stack).issued < usize::MAX,
            self.typ == Token::JumpIfNonZero ==> old(loop_stack).open@.len() > 0,
        ensures
            r@ == fragment_text(*self, old(loop_stack).issued as int, old(loop_stack).open@),
            final(loop_stack).issued == issued_after(*self, old(loop_stack).issued as int),
            final(loop_stack).open@ == open_after(
                *self,
                old(loop_stack).issued as int,
                old(loop_stack).open@,
            ),
    {
        match self.typ {
            Token::Plus => crate::bytecode::plus(self.argument as i32),
            Token::Minus => {
                let arg = self.argument as i32;
                crate::bytecode::plus(-arg)
            },
            Token::Left => {
                let arg = self.argument as i32;
                crate::bytecode::mov(-arg)
            },
            Token::Right => crate::bytecode::mov(self.argument as i32),
            Token::PutChar => crate::bytecode::out(),
            Token::ReadChar => crate::bytecode::input(),
            Token::JumpIfZero => crate::bytecode::loop_start(loop_stack),
            Token::JumpIfNonZero => crate::bytecode::loop_end(loop_stack),
        }
    }
}

/// Emits the whole program text: fixed header, one fragment per instruction
/// in source order joined by newlines, fixed trailer.
pub fn produce_code(instructions: Vec<Inst>) -> (r: String)
    requires
        codegen_wf(instructions@),
    ensures
        r@ == code_text(instructions@),
{
    let ghost insts = instructions@;
    let mut code = String::from_str(
        "\n.class public Main\n.super java/lang/Object\n\n.method public <init>()V\n    aload_0\n    invokenonvirtual java/lang/Object/<init>()V\n    return\n.end method\n\n.method public static main([Ljava/lang/String;)V\n    .limit stack 10\n    .limit locals 3\n\n    iconst_0\n    istore_1\n\n    bipush 100\n    newarray int\n    astore_2\n",
    );
    let mut stack: LabelStack = LabelStack::new();
    let mut idx: usize = 0;
    proof {
        assert(insts.take(0int) =~= Seq::<Inst>::empty());
    }
    while idx < instructions.len()
        invariant
            insts == instructions@,
            idx <= insts.len(),
            codegen_wf(insts),
            stack.issued == count_kind(insts.take(idx as int), Token::JumpIfZero),
            stack.open@ == open_labels(insts, idx as int),
            stack.open@.len() == net_depth(insts.take(idx as int)),
            code@ + body_text(insts, idx as int) + tail_text() == code_text(insts),
        decreases insts.len() - idx,
    {
        proof {
            lemma_net_depth_take_succ(insts, idx as int);
            lemma_count_kind_take_succ(insts, idx as int, Token::JumpIfZero);
            lemma_count_kind_le_len(insts.take(idx as int), Token::JumpIfZero);
        }
        let inst = instructions[idx];
        let frag = inst.to_bytecode(&mut stack);
        proof {
            assert(frag@ == inst_text(insts, idx as int));
        }
        let ghost mid = code@;
        code.append("\n");
        code.append(frag.as_str());
        proof {
            reveal_strlit("\n");
            assert(code@ =~= mid + seq!['\n'] + inst_text(insts, idx as int));
            assert(code@ + body_text(insts, idx + 1) + tail_text() =~= mid + body_text(
                insts,
                idx as int,
            ) + tail_text());
        }
        idx += 1;
    }
    let ghost mid = code@;
    code.append("\n");
    code.append("\n    return\n.end method\n");
    proof {
        reveal_strlit("\n");
        assert(code@ =~= mid + body_text(insts, insts.len() as int) + tail_text());
    }
    code
}

/// A successful parse is always safe to emit: every loop-close it produces
/// stands at positive nesting depth.
pub proof fn lemma_parse_output_emittable(tokens: Seq<Token>)
    requires
        tokens.len() <= usize::MAX,
    ensures
        parse_full(tokens) matches Some(p) ==> forall|i: int|
            #![trigger p.0[i]]
            0 <= i < p.0.len() && p.0[i].typ == Token::JumpIfNonZero ==> net_depth(p.0.take(i))
                >= 1,
{
    lemma_parse_invariants(tokens);
    if let Some(p) = parse_full(tokens) {
        assert forall|i: int|
            0 <= i < p.0.len() && p.0[i].typ == Token::JumpIfNonZero implies net_depth(
            #[trigger] p.0.take(i),
        ) >= 1 by {
            assert(!on_stack(p.1, i)) by {
                if on_stack(p.1, i) {
                    let k = choose|k: int| 0 <= k < p.1.len() && p.1[k] == i;
                    assert(p.0[p.1[k] as int].typ == Token::JumpIfZero);
                }
            }
            assert(matched_at(p.0, i));
            let a = p.0[i].argument as int;
            assert(net_depth(p.0.take(a)) >= 0);
        }
    }
}

/// Label pairing: on a source whose parse succeeds with no loop left open,
/// the fragment of every loop instruction carries the same label number as
/// the fragment of its matching partner. Each emitted `goto loopNStart` thus
/// names the start label its partner defined, and each `ifeq loopNEnd` the
/// end label its partner defines: no branch target dangles.
pub proof fn lemma_label_pairing(tokens: Seq<Token>)
    requires
        tokens.len() <= usize::MAX,
        parse_full(tokens) matches Some(p) && p.1.len() == 0,
    ensures
        parse_full(tokens) matches Some(p) ==> forall|i: int|
            #![trigger label_at(p.0, i)]
            0 <= i < p.0.len() && !is_foldable(p.0[i].typ) ==> {
                &&& matched_at(p.0, i)
                &&& label_at(p.0, i) == label_at(p.0, p.0[i].argument as int)
            },
{
    lemma_loop_pairing(tokens);
    if let Some(p) = parse_full(tokens) {
        assert forall|i: int|
            0 <= i < p.0.len() && !is_foldable(p.0[i].typ) implies #[trigger] label_at(p.0, i)
            == label_at(p.0, p.0[i].argument as int) by {
            let a = p.0[i].argument as int;
            if p.0[i].typ == Token::JumpIfZero {
                assert(matched_at(p.0, i));
                assert(matched_at(p.0, a));
                assert(label_at(p.0, a) == open_label(p.0, i) as int);
            } else {
                assert(matched_at(p.0, i));
            }
        }
    }
}

/// Label uniqueness, for every instruction list: distinct loop-opens always
/// carry distinct, strictly increasing label numbers, whatever their nesting
/// or sibling arrangement — a program with `k` loops defines `k` distinct
/// start/end label pairs.
pub proof fn lemma_label_uniqueness(insts: Seq<Inst>)
    requires
        insts.len() <= usize::MAX,
    ensures
        forall|i: int, j: int|
            #![trigger label_at(insts, i), label_at(insts, j)]
            0 <= i < j < insts.len() && insts[i].typ == Token::JumpIfZero && insts[j].typ
                == Token::JumpIfZero ==> label_at(insts, i) < label_at(insts, j),
{
    assert forall|i: int, j: int|
        0 <= i < j < insts.len() && insts[i].typ == Token::JumpIfZero && insts[j].typ
            == Token::JumpIfZero implies #[trigger] label_at(insts, i) < #[trigger] label_at(
        insts,
        j,
    ) by {
        lemma_count_kind_le_len(insts.take(i), Token::JumpIfZero);
        lemma_count_kind_le_len(insts.take(j), Token::JumpIfZero);
        lemma_count_kind_take_succ(insts, i, Token::JumpIfZero);
        lemma_count_kind_monotone(insts, i + 1, j, Token::JumpIfZero);
    }
}

} // verus!
