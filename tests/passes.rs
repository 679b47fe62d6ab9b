use bfbfe::block::IRBlock;
use bfbfe::instruction::IRInstruction;
use bfbfe::optimization::constants::ConstantsOptimization;
use bfbfe::optimization::merge::MergeInstructions;
use bfbfe::optimization::reorder::ReorderingOptimizations;

fn tr(val: isize) -> IRInstruction {
    IRInstruction::TraverseBy { val }
}

fn mu(pos: isize, val: isize) -> IRInstruction {
    IRInstruction::MutateValue { pos, val }
}

fn set(pos: isize, val: isize) -> IRInstruction {
    IRInstruction::SetTo { pos, val }
}

fn out() -> IRInstruction {
    IRInstruction::OutputBytes { poslst: vec![0] }
}

fn cond(content: Vec<IRInstruction>) -> IRInstruction {
    IRInstruction::ConditionalBlock(Box::new(IRBlock::with_instructions(content)))
}

fn merged(content: Vec<IRInstruction>) -> Vec<IRInstruction> {
    let mut b = IRBlock::with_instructions(content);
    b.merge_instructions();
    b.content
}

fn zeroed(content: Vec<IRInstruction>) -> Vec<IRInstruction> {
    let mut b = IRBlock::with_instructions(content);
    b.find_set_to_zero();
    b.content
}

fn folded(content: Vec<IRInstruction>) -> Vec<IRInstruction> {
    let mut b = IRBlock::with_instructions(content);
    b.find_set_to_value();
    b.content
}

fn reordered(content: Vec<IRInstruction>) -> Vec<IRInstruction> {
    let mut b = IRBlock::with_instructions(content);
    b.reorder_instructions();
    b.content
}

#[test]
fn merge_sums_consecutive_traversals() {
    assert_eq!(merged(vec![tr(3), tr(-1), tr(5), tr(2)]), vec![tr(9)]);
}

#[test]
fn merge_sums_same_offset_mutations() {
    assert_eq!(merged(vec![mu(1, 2), mu(1, 3), mu(1, -10)]), vec![mu(1, -5)]);
}

#[test]
fn merge_is_blocked_by_a_different_offset() {
    assert_eq!(merged(vec![mu(0, 1), mu(1, 1), mu(0, 1)]), vec![mu(0, 1), mu(1, 1), mu(0, 1)]);
}

#[test]
fn merge_runs_stop_at_other_kinds() {
    assert_eq!(
        merged(vec![tr(1), tr(1), mu(0, 1), mu(0, 1), tr(-1), out(), out()]),
        vec![tr(2), mu(0, 2), tr(-1), out(), out()]
    );
}

#[test]
fn merge_leaves_nested_blocks_alone() {
    assert_eq!(
        merged(vec![cond(vec![tr(1), tr(1)]), cond(vec![])]),
        vec![cond(vec![tr(1), tr(1)]), cond(vec![])]
    );
}

#[test]
fn merge_of_empty_block() {
    assert_eq!(merged(vec![]), vec![]);
}

#[test]
fn merge_wraps_on_overflow() {
    assert_eq!(merged(vec![tr(isize::MAX), tr(1)]), vec![tr(isize::MIN)]);
}

#[test]
fn zero_detection_rewrites_unit_decrement_loop() {
    assert_eq!(zeroed(vec![cond(vec![mu(0, -1)])]), vec![set(0, 0)]);
    assert_eq!(zeroed(vec![cond(vec![mu(0, 1)])]), vec![set(0, 0)]);
}

#[test]
fn zero_detection_keeps_divisor_of_256_loop() {
    assert_eq!(zeroed(vec![cond(vec![mu(0, -128)])]), vec![cond(vec![mu(0, -128)])]);
    assert_eq!(zeroed(vec![cond(vec![mu(0, 2)])]), vec![cond(vec![mu(0, 2)])]);
}

#[test]
fn zero_detection_rewrites_non_divisor_step() {
    assert_eq!(zeroed(vec![cond(vec![mu(0, 3)])]), vec![set(0, 0)]);
    assert_eq!(zeroed(vec![cond(vec![mu(0, -300)])]), vec![set(0, 0)]);
    assert_eq!(zeroed(vec![cond(vec![mu(0, isize::MIN)])]), vec![set(0, 0)]);
}

#[test]
fn zero_detection_ignores_ineligible_bodies() {
    let cases = vec![
        cond(vec![mu(0, 0)]),
        cond(vec![mu(1, -1)]),
        cond(vec![mu(0, -1), mu(0, -1)]),
        cond(vec![tr(1)]),
        cond(vec![]),
    ];
    for c in cases {
        let kept = zeroed(vec![c]);
        assert!(matches!(kept[0], IRInstruction::ConditionalBlock(_)));
    }
}

#[test]
fn folding_absorbs_adjacent_same_offset_mutation() {
    assert_eq!(folded(vec![set(2, 5), mu(2, 3), out()]), vec![set(2, 8), out()]);
}

#[test]
fn folding_keeps_other_offset_mutation() {
    assert_eq!(folded(vec![set(2, 5), mu(1, 3)]), vec![set(2, 5), mu(1, 3)]);
}

#[test]
fn folding_takes_one_step_of_a_chain() {
    assert_eq!(folded(vec![set(0, 1), mu(0, 2), mu(0, 4)]), vec![set(0, 3), mu(0, 4)]);
}

#[test]
fn folding_needs_direct_adjacency() {
    assert_eq!(folded(vec![set(0, 1), tr(0), mu(0, 2)]), vec![set(0, 1), tr(0), mu(0, 2)]);
}

#[test]
fn reorder_flushes_sorted_by_effective_position() {
    assert_eq!(
        reordered(vec![tr(2), mu(0, 5), tr(3), mu(0, 7), out()]),
        vec![mu(2, 5), mu(5, 7), tr(5), out()]
    );
}

#[test]
fn reorder_emits_sets_before_mutations() {
    assert_eq!(
        reordered(vec![mu(0, 1), tr(1), set(0, 4), tr(-3), mu(1, 2), set(-1, 9)]),
        vec![set(-3, 9), set(1, 4), mu(-1, 2), mu(0, 1), tr(-2)]
    );
}

#[test]
fn reorder_moves_mutation_after_set_of_same_position() {
    assert_eq!(reordered(vec![mu(0, 1), set(0, 5)]), vec![set(0, 5), mu(0, 1)]);
}

#[test]
fn reorder_keeps_arrival_order_for_equal_positions() {
    assert_eq!(reordered(vec![mu(1, 1), tr(1), mu(0, 2)]), vec![mu(1, 1), mu(1, 2), tr(1)]);
}

#[test]
fn reorder_elides_zero_net_motion() {
    assert_eq!(reordered(vec![tr(1), mu(0, 1), tr(-1)]), vec![mu(1, 1)]);
}

#[test]
fn reorder_flushes_before_each_barrier() {
    assert_eq!(
        reordered(vec![tr(1), cond(vec![tr(1)]), mu(0, 1), out(), tr(2)]),
        vec![tr(1), cond(vec![tr(1)]), mu(0, 1), out(), tr(2)]
    );
}
