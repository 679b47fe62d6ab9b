use bfbfe::block::IRBlock;
use bfbfe::instruction::IRInstruction;
use bfbfe::lang::instructionize::{instructionize, InstructionizingError};
use bfbfe::lang::lexer::tokenize_whole_program;
use bfbfe::lang::token::Token;

fn lex(src: &str) -> Vec<Token> {
    tokenize_whole_program(&src.chars().collect::<Vec<char>>())
}

fn cond(content: Vec<IRInstruction>) -> IRInstruction {
    IRInstruction::ConditionalBlock(Box::new(IRBlock::with_instructions(content)))
}

#[test]
fn lexer_maps_each_symbol_and_drops_the_rest() {
    assert_eq!(
        lex("a>b<+-.,[]\n"),
        vec![
            Token::IncrementPointer,
            Token::DecrementPointer,
            Token::IncrementValue,
            Token::DecrementValue,
            Token::PushByte,
            Token::ReadByte,
            Token::JumpForward,
            Token::JumpBackward,
        ]
    );
    assert_eq!(lex(""), vec![]);
}

#[test]
fn lowering_end_to_end_example() {
    let block = instructionize(&lex("++[>+<-]")).unwrap();
    assert_eq!(
        block.content,
        vec![
            IRInstruction::BeginProgram,
            IRInstruction::MutateValue { pos: 0, val: 1 },
            IRInstruction::MutateValue { pos: 0, val: 1 },
            cond(vec![
                IRInstruction::TraverseBy { val: 1 },
                IRInstruction::MutateValue { pos: 0, val: 1 },
                IRInstruction::TraverseBy { val: -1 },
                IRInstruction::MutateValue { pos: 0, val: -1 },
            ]),
            IRInstruction::EndProgram,
        ]
    );
}

#[test]
fn lowering_io_and_pointer_symbols() {
    let block = instructionize(&lex("><.,")).unwrap();
    assert_eq!(
        block.content,
        vec![
            IRInstruction::BeginProgram,
            IRInstruction::TraverseBy { val: 1 },
            IRInstruction::TraverseBy { val: -1 },
            IRInstruction::OutputBytes { poslst: vec![0] },
            IRInstruction::ReadBytes { poslst: vec![0] },
            IRInstruction::EndProgram,
        ]
    );
}

#[test]
fn lowering_empty_input_gives_sentinels_only() {
    let block = instructionize(&[]).unwrap();
    assert_eq!(block.content, vec![IRInstruction::BeginProgram, IRInstruction::EndProgram]);
}

#[test]
fn lowering_nested_loops() {
    let block = instructionize(&lex("[[-]>]")).unwrap();
    assert_eq!(
        block.content,
        vec![
            IRInstruction::BeginProgram,
            cond(vec![
                cond(vec![IRInstruction::MutateValue { pos: 0, val: -1 }]),
                IRInstruction::TraverseBy { val: 1 },
            ]),
            IRInstruction::EndProgram,
        ]
    );
}

#[test]
fn lowering_excess_open_fails() {
    assert_eq!(instructionize(&lex("[[-]")).unwrap_err(), InstructionizingError::UnmatchedJumpForward);
    assert_eq!(InstructionizingError::UnmatchedJumpForward.message(), "unmatched JumpForward");
}

#[test]
fn lowering_excess_close_fails() {
    assert_eq!(instructionize(&lex("[-]]")).unwrap_err(), InstructionizingError::UnmatchedJumpBackward);
    assert_eq!(InstructionizingError::UnmatchedJumpBackward.message(), "unmatched JumpBackward");
}

#[test]
fn lowering_equal_counts_in_wrong_order_skips_the_stray_close() {
    let block = instructionize(&lex("+][-")).unwrap();
    assert_eq!(
        block.content,
        vec![
            IRInstruction::BeginProgram,
            IRInstruction::MutateValue { pos: 0, val: 1 },
            cond(vec![IRInstruction::MutateValue { pos: 0, val: -1 }]),
            IRInstruction::EndProgram,
        ]
    );
}
