use bfjvm::interp::interpret;
use bfjvm::interp::InterpError;

const FUEL: u64 = 100_000;

#[test]
fn interp_outputs_incremented_cell() {
    assert_eq!(interpret("++.", &[], FUEL), Ok(vec![2]));
}

#[test]
fn interp_loop_runs_once_and_terminates() {
    assert_eq!(interpret("+[-]", &[], FUEL), Ok(vec![]));
}

#[test]
fn interp_wraparound_after_256_increments() {
    let mut source = "+".repeat(256);
    source.push('.');
    assert_eq!(interpret(&source, &[], FUEL), Ok(vec![0]));
}

#[test]
fn interp_decrement_wraps_to_255() {
    assert_eq!(interpret("-.", &[], FUEL), Ok(vec![255]));
}

#[test]
fn interp_skips_loop_over_zero_cell() {
    assert_eq!(interpret("[+++.].", &[], FUEL), Ok(vec![0]));
}

#[test]
fn interp_skips_nested_loops() {
    assert_eq!(interpret("[[-]+].", &[], FUEL), Ok(vec![0]));
}

#[test]
fn interp_moves_pointer() {
    assert_eq!(interpret("+>++>+++<.", &[], FUEL), Ok(vec![2]));
}

#[test]
fn interp_loop_iterates_until_zero() {
    assert_eq!(interpret("++[-.]", &[], FUEL), Ok(vec![1, 0]));
}

#[test]
fn interp_reads_input_byte() {
    assert_eq!(interpret(",.", &[65], FUEL), Ok(vec![65]));
}

#[test]
fn interp_reads_input_bytes_in_order() {
    assert_eq!(interpret(",>,<..>.", &[7, 9], FUEL), Ok(vec![7, 7, 9]));
}

#[test]
fn interp_exhausted_input_leaves_cell() {
    assert_eq!(interpret("+,.", &[], FUEL), Ok(vec![1]));
}

#[test]
fn interp_ignores_non_operators() {
    assert_eq!(interpret("+ one . two + three .", &[], FUEL), Ok(vec![1, 2]));
}

#[test]
fn interp_empty_program_outputs_nothing() {
    assert_eq!(interpret("", &[], FUEL), Ok(vec![]));
}

#[test]
fn interp_pointer_underflow_faults() {
    assert_eq!(interpret("<", &[], FUEL), Err(InterpError::PointerOutOfRange));
}

#[test]
fn interp_pointer_beyond_tape_faults() {
    let mut source = ">".repeat(100);
    source.push('+');
    assert_eq!(interpret(&source, &[], FUEL), Err(InterpError::PointerOutOfRange));
}

#[test]
fn interp_unmatched_close_on_nonzero_cell_faults() {
    assert_eq!(interpret("+]", &[], FUEL), Err(InterpError::UnmatchedClose));
}

#[test]
fn interp_bare_close_on_zero_cell_is_ignored() {
    assert_eq!(interpret("].", &[], FUEL), Ok(vec![0]));
}

#[test]
fn interp_endless_loop_hits_step_limit() {
    assert_eq!(interpret("+[]", &[], 1_000), Err(InterpError::StepLimit));
}
