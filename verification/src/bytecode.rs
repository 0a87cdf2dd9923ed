//! Text fragments of the stack-machine assembly dialect, one per instruction
//! kind, and the label numbering used by the two loop fragments. Loop labels
//! are globally unique: entering a loop allocates the next number from a
//! counter that never decreases and pushes it on a stack of open labels;
//! leaving a loop pops and reuses the innermost open number, so label pairs
//! nest properly and no number is ever issued twice.

use vstd::prelude::*;

use crate::decimal::append_dec_i64;
use crate::decimal::append_dec_u64;
use crate::decimal::dec_int;
use crate::decimal::dec_nat;

verus! {

/// The label allocator: `issued` counts the labels handed out so far (so the
/// next loop is numbered `issued + 1`), and `open` stacks the numbers of the
/// loops currently open, innermost last.
pub struct LabelStack {
    pub issued: usize,
    pub open: Vec<usize>,
}

impl LabelStack {
    /// A fresh allocator: nothing issued, no loop open.
    pub fn new() -> (r: LabelStack)
        ensures
            r.issued == 0,
            r.open@ == Seq::<usize>::empty(),
    {
        LabelStack { issued: 0, open: Vec::new() }
    }
}

/// Allocates, pushes and returns the next loop label number: one more than
/// the count of labels issued so far, so every label is globally unique.
pub fn label_push(stack: &mut LabelStack) -> (r: usize)
    requires
        old(stack).issued < usize::MAX,
    ensures
        r == old(stack).issued + 1,
        final(stack).issued == old(stack).issued + 1,
        final(stack).open@ == old(stack).open@.push(r),
{
    let fresh = stack.issued + 1;
    stack.issued = fresh;
    stack.open.push(fresh);
    fresh
}

/// Text that adds the signed `count` to the cell under the pointer.
pub open spec fn plus_text(count: int) -> Seq<char> {
    "aload_2\niload_1\ndup2\niaload\nbipush "@ + dec_int(count) + "\niadd\niastore"@
}

/// Text that moves the pointer register by the signed `count`.
pub open spec fn mov_text(count: int) -> Seq<char> {
    "iinc 1 "@ + dec_int(count)
}

/// Text that prints the cell under the pointer as a character.
pub open spec fn out_text() -> Seq<char> {
    "getstatic java/lang/System/out Ljava/io/PrintStream;\naload_2\niload_1\niaload\ni2c\ninvokevirtual java/io/PrintStream/print(C)V"@
}

/// Text that reads one value into the cell under the pointer.
pub open spec fn input_text() -> Seq<char> {
    "aload_2\niload_1\ngetstatic java/lang/System/in Ljava/io/InputStream;\ninvokevirtual java/io/InputStream/read()I\niastore"@
}

/// Text opening loop `n`: its start label, a load of the current cell, and a
/// branch to the loop's end label when the cell is zero.
pub open spec fn loop_start_text(n: int) -> Seq<char> {
    "loop"@ + dec_nat(n as nat) + "Start:\naload_2\niload_1\niaload\nifeq loop"@ + dec_nat(n as nat)
        + "End"@
}

/// Text closing loop `n`: an unconditional branch back to its start label,
/// then its end label.
pub open spec fn loop_end_text(n: int) -> Seq<char> {
    "goto loop"@ + dec_nat(n as nat) + "Start\nloop"@ + dec_nat(n as nat) + "End:"@
}

/// Emits the add-to-cell fragment for the signed run length `count`.
pub fn plus(count: i32) -> (r: String)
    ensures
        r@ == plus_text(count as int),
{
    let mut s = String::from_str("aload_2\niload_1\ndup2\niaload\nbipush ");
    append_dec_i64(&mut s, count as i64);
    s.append("\niadd\niastore");
    proof {
        assert(s@ =~= plus_text(count as int));
    }
    s
}

/// Emits the move-pointer fragment for the signed move `count`.
pub fn mov(count: i32) -> (r: String)
    ensures
        r@ == mov_text(count as int),
{
    let mut s = String::from_str("iinc 1 ");
    append_dec_i64(&mut s, count as i64);
    proof {
        assert(s@ =~= mov_text(count as int));
    }
    s
}

/// Emits the output fragment.
pub fn out() -> (r: String)
    ensures
        r@ == out_text(),
{
    String::from_str(
        "getstatic java/lang/System/out Ljava/io/PrintStream;\naload_2\niload_1\niaload\ni2c\ninvokevirtual java/io/PrintStream/print(C)V",
    )
}

/// Emits the input fragment.
pub fn input() -> (r: String)
    ensures
        r@ == input_text(),
{
    String::from_str(
        "aload_2\niload_1\ngetstatic java/lang/System/in Ljava/io/InputStream;\ninvokevirtual java/io/InputStream/read()I\niastore",
    )
}

/// Emits the loop-open fragment, allocating the loop's fresh label number on
/// `stack`.
pub fn loop_start(stack: &mut LabelStack) -> (r: String)
    requires
        old(stack).issued < usize::MAX,
    ensures
        r@ == loop_start_text(old(stack).issued + 1),
        final(stack).issued == old(stack).issued + 1,
        final(stack).open@ == old(stack).open@.push((old(stack).issued + 1) as usize),
{
    let pos = label_push(stack);
    let mut s = String::from_str("loop");
    append_dec_u64(&mut s, pos as u64);
    s.append("Start:\naload_2\niload_1\niaload\nifeq loop");
    append_dec_u64(&mut s, pos as u64);
    s.append("End");
    proof {
        assert(s@ =~= loop_start_text(old(stack).issued + 1));
    }
    s
}

/// Emits the loop-close fragment, popping the innermost open label number
/// from `stack`; it must only be called with a loop open.
pub fn loop_end(stack: &mut LabelStack) -> (r: String)
    requires
        old(stack).open@.len() > 0,
    ensures
        r@ == loop_end_text(old(stack).open@.last() as int),
        final(stack).open@ == old(stack).open@.drop_last(),
        final(stack).issued == old(stack).issued,
{
    let pos = stack.open[stack.open.len() - 1];
    stack.open.pop();
    proof {
        assert(stack.open@ =~= old(stack).open@.drop_last());
    }
    let mut s = String::from_str("goto loop");
    append_dec_u64(&mut s, pos as u64);
    s.append("Start\nloop");
    append_dec_u64(&mut s, pos as u64);
    s.append("End:");
    proof {
        assert(s@ =~= loop_end_text(old(stack).open@.last() as int));
    }
    s
}

} // verus!
