use bfbfe::block::IRBlock;
use bfbfe::instruction::IRInstruction;
use bfbfe::lang::instructionize::instructionize;
use bfbfe::lang::lexer::tokenize_whole_program;

fn cond(content: Vec<IRInstruction>) -> IRInstruction {
    IRInstruction::ConditionalBlock(Box::new(IRBlock::with_instructions(content)))
}

fn build(src: &str) -> IRBlock {
    instructionize(&tokenize_whole_program(&src.chars().collect::<Vec<char>>())).unwrap()
}

#[test]
fn optimize_end_to_end_example() {
    let block = build("++[>+<-]").optimize();
    assert_eq!(
        block.content,
        vec![
            IRInstruction::BeginProgram,
            IRInstruction::MutateValue { pos: 0, val: 2 },
            cond(vec![
                IRInstruction::MutateValue { pos: 0, val: -1 },
                IRInstruction::MutateValue { pos: 1, val: 1 },
            ]),
            IRInstruction::EndProgram,
        ]
    );
}

#[test]
fn optimize_turns_clear_loop_into_set() {
    let block = build("+++[-]++.").optimize();
    assert_eq!(
        block.content,
        vec![
            IRInstruction::BeginProgram,
            IRInstruction::SetTo { pos: 0, val: 2 },
            IRInstruction::MutateValue { pos: 0, val: 3 },
            IRInstruction::OutputBytes { poslst: vec![0] },
            IRInstruction::EndProgram,
        ]
    );
}

#[test]
fn optimize_inner_blocks_first() {
    let block = build("[>>[-]<<]").optimize();
    assert_eq!(
        block.content,
        vec![
            IRInstruction::BeginProgram,
            cond(vec![IRInstruction::SetTo { pos: 2, val: 0 }]),
            IRInstruction::EndProgram,
        ]
    );
}

#[test]
fn optimize_second_run_can_fold_further() {
    let block = IRBlock::with_instructions(vec![
        cond(vec![IRInstruction::MutateValue { pos: 0, val: -1 }]),
        IRInstruction::TraverseBy { val: 1 },
        IRInstruction::MutateValue { pos: -1, val: 5 },
    ]);
    let once = block.optimize();
    assert_eq!(
        once.content,
        vec![
            IRInstruction::SetTo { pos: 0, val: 0 },
            IRInstruction::MutateValue { pos: 0, val: 5 },
            IRInstruction::TraverseBy { val: 1 },
        ]
    );
    let twice = once.optimize();
    assert_eq!(
        twice.content,
        vec![IRInstruction::SetTo { pos: 0, val: 5 }, IRInstruction::TraverseBy { val: 1 }]
    );
}

#[test]
fn optimize_empty_block() {
    assert_eq!(IRBlock::new().optimize(), IRBlock::new());
}

fn frame_body() -> Vec<IRInstruction> {
    vec![
        IRInstruction::TraverseBy { val: 1 },
        IRInstruction::TraverseBy { val: 1 },
        IRInstruction::MutateValue { pos: 0, val: 4 },
    ]
}

#[test]
fn optimize_keeps_sentinels_around_the_optimized_body() {
    let alone = IRBlock::with_instructions(frame_body()).optimize();
    assert_eq!(
        alone.content,
        vec![IRInstruction::MutateValue { pos: 2, val: 4 }, IRInstruction::TraverseBy { val: 2 }]
    );
    let mut framed = vec![IRInstruction::BeginProgram];
    framed.extend(frame_body());
    framed.push(IRInstruction::EndProgram);
    let mut expected = vec![IRInstruction::BeginProgram];
    expected.extend(alone.content);
    expected.push(IRInstruction::EndProgram);
    assert_eq!(IRBlock::with_instructions(framed).optimize().content, expected);
}

#[test]
fn block_clone_is_a_deep_copy() {
    let block = build("+[->[-]<].,");
    let copy = block.clone();
    assert_eq!(copy, block);
    assert_eq!(copy.len(), block.content.len());
    assert_eq!(copy.optimize(), block.optimize());
}
