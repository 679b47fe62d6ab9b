use std::str::FromStr;

use bfbfe::block::IRBlock;
use bfbfe::instruction::IRInstruction;
use bfbfe::transpile::backend::{get_compiler_fn, CompilerBackend};
use bfbfe::transpile::c_backend::compile_to_c;
use bfbfe::transpile::codegen_error::CodegenError;

const PRELUDE: &str = "#include <stddef.h>
#include <stdint.h>
#include <stdio.h>

#define TAPE_SIZE 30000

int main(void)
{
    uint8_t tape[TAPE_SIZE] = { 0 };
    size_t ptr = 0;

";

const EPILOGUE: &str = "
    return 0;
}
";

fn sample() -> IRBlock {
    IRBlock::with_instructions(vec![
        IRInstruction::BeginProgram,
        IRInstruction::MutateValue { pos: 0, val: 2 },
        IRInstruction::ConditionalBlock(Box::new(IRBlock::with_instructions(vec![
            IRInstruction::MutateValue { pos: 0, val: -1 },
            IRInstruction::MutateValue { pos: 1, val: 10 },
        ]))),
        IRInstruction::TraverseBy { val: -3 },
        IRInstruction::SetTo { pos: -2, val: -7 },
        IRInstruction::SetTo { pos: 0, val: 120 },
        IRInstruction::OutputBytes { poslst: vec![0, 1] },
        IRInstruction::ReadBytes { poslst: vec![0, 25] },
        IRInstruction::EndProgram,
    ])
}

fn expected() -> String {
    format!(
        "{}{}{}",
        PRELUDE,
        "    tape[ptr] += 2;
    while (tape[ptr] != 0) {
        tape[ptr] -= 1;
        tape[ptr + 1] += 10;
    }
    ptr -= 3;
    tape[ptr - 2] = -7;
    tape[ptr] = 120;
    printf(\"%c%c\", tape[ptr], tape[ptr + 1]);
    tape[ptr] = getchar();
    tape[ptr + 25] = getchar();
",
        EPILOGUE
    )
}

#[test]
fn c_backend_emits_every_instruction_kind() {
    assert_eq!(compile_to_c(&sample()), expected());
}

#[test]
fn c_backend_empty_block_is_empty_text() {
    assert_eq!(compile_to_c(&IRBlock::new()), "");
}

#[test]
fn c_backend_extreme_values() {
    let block = IRBlock::with_instructions(vec![
        IRInstruction::TraverseBy { val: isize::MIN },
        IRInstruction::SetTo { pos: isize::MAX, val: 0 },
    ]);
    let min = (isize::MIN as i128).unsigned_abs();
    assert_eq!(
        compile_to_c(&block),
        format!("    ptr -= {};\n    tape[ptr + {}] = 0;\n", min, isize::MAX)
    );
}

#[test]
fn backend_lookup_gives_the_c_generator() {
    let f = get_compiler_fn(&CompilerBackend::C);
    assert_eq!(f(&sample()), expected());
}

#[test]
fn backend_names_parse() {
    assert_eq!(CompilerBackend::from_str("c"), Ok(CompilerBackend::C));
    assert_eq!(CompilerBackend::from_str("C"), Ok(CompilerBackend::C));
    assert_eq!(CompilerBackend::parse("rust"), Err(CodegenError::InvalidBackend));
    assert_eq!(CompilerBackend::parse(""), Err(CodegenError::InvalidBackend));
    assert_eq!(CodegenError::InvalidBackend.message(), "invalid backend selected");
}
