use bfbfe::ast::transform::transform;
use bfbfe::ast::Node;
use bfbfe::runtime::ast_walker::{ASTInterpreterContext, Action, TAPE_SIZE};
use bfbfe::token::tokenize;

fn context(src: &[u8]) -> ASTInterpreterContext {
    let content = transform(&tokenize(src).unwrap()).unwrap();
    ASTInterpreterContext::new(Node { content })
}

/// Runs to the end, feeding `input`; returns the output.
fn run(ctx: &mut ASTInterpreterContext, input: &[u8]) -> Vec<u8> {
    let mut out = Vec::new();
    let mut next_input = input.iter();
    loop {
        match ctx.step() {
            Action::Continue => {}
            Action::Output(b) => out.push(b),
            Action::NeedInput => assert!(ctx.supply_input(*next_input.next().unwrap())),
            Action::Halted => return out,
            Action::PointerOutOfRange => panic!("pointer out of range"),
        }
    }
}

#[test]
fn interpreter_starts_clean() {
    let ctx = context(b"");
    assert_eq!(ctx.tape.len(), TAPE_SIZE);
    assert!(ctx.tape.iter().all(|c| *c == 0));
    assert_eq!(ctx.data_pointer, 0);
    assert_eq!(ctx.frames, vec![0]);
}

#[test]
fn interpreter_runs_a_loop() {
    let mut ctx = context(b"++>+++[<+>-]<.");
    assert_eq!(run(&mut ctx, b""), vec![5]);
    assert_eq!(ctx.tape[0], 5);
    assert_eq!(ctx.tape[1], 0);
    assert_eq!(ctx.data_pointer, 0);
}

#[test]
fn interpreter_echoes_input() {
    let mut ctx = context(b",+.,.");
    assert_eq!(run(&mut ctx, b"AZ"), vec![b'B', b'Z']);
}

#[test]
fn interpreter_cells_wrap() {
    let mut ctx = context(b"-.");
    assert_eq!(run(&mut ctx, b""), vec![255]);
}

#[test]
fn interpreter_skips_loop_on_zero() {
    let mut ctx = context(b"[.]+.");
    assert_eq!(run(&mut ctx, b""), vec![1]);
}

#[test]
fn interpreter_stops_off_the_tape() {
    let mut ctx = context(b"<+");
    assert_eq!(ctx.step(), Action::Continue);
    assert_eq!(ctx.data_pointer, usize::MAX);
    assert_eq!(ctx.step(), Action::PointerOutOfRange);
    assert_eq!(ctx.step(), Action::PointerOutOfRange);
}

#[test]
fn interpreter_refuses_input_when_not_reading() {
    let mut ctx = context(b"+,");
    assert!(!ctx.supply_input(7));
    assert_eq!(ctx.step(), Action::Continue);
    assert_eq!(ctx.step(), Action::NeedInput);
    assert!(ctx.supply_input(7));
    assert_eq!(ctx.tape[0], 7);
    assert_eq!(ctx.step(), Action::Halted);
}
