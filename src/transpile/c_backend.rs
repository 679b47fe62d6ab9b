use vstd::prelude::*;

use crate::block::IRBlock;
use crate::instruction::{lemma_seq_model, IRInstruction, Instr};

verus! {

/// What the program sentinel at the start is emitted as.
pub const C_PRELUDE: &'static str = "#include <stddef.h>
#include <stdint.h>
#include <stdio.h>

#define TAPE_SIZE 30000

int main(void)
{
    uint8_t tape[TAPE_SIZE] = { 0 };
    size_t ptr = 0;

";

/// What the program sentinel at the end is emitted as.
pub const C_EPILOGUE: &'static str = "
    return 0;
}
";

/// One level of indentation.
pub const C_INDENT: &'static str = "    ";

/// The text of one decimal digit.
pub open spec fn digit_text(d: nat) -> Seq<char> {
    if d == 0 {
        "0"@
    } else if d == 1 {
        "1"@
    } else if d == 2 {
        "2"@
    } else if d == 3 {
        "3"@
    } else if d == 4 {
        "4"@
    } else if d == 5 {
        "5"@
    } else if d == 6 {
        "6"@
    } else if d == 7 {
        "7"@
    } else if d == 8 {
        "8"@
    } else {
        "9"@
    }
}

/// `n` in decimal, without leading zeros.
pub open spec fn decimal(n: nat) -> Seq<char>
    decreases n,
{
    if n < 10 {
        digit_text(n)
    } else {
        decimal(n / 10) + digit_text(n % 10)
    }
}

/// The magnitude of `v`.
pub open spec fn magnitude(v: isize) -> nat {
    if v < 0 {
        (-v) as nat
    } else {
        v as nat
    }
}

/// The operator sign for `v`: minus for a negative value, plus otherwise.
pub open spec fn sign_text(v: isize) -> Seq<char> {
    if v < 0 {
        "-"@
    } else {
        "+"@
    }
}

/// `v` in decimal, with a minus sign if it is negative.
pub open spec fn signed_decimal(v: isize) -> Seq<char> {
    if v < 0 {
        "-"@ + decimal(magnitude(v))
    } else {
        decimal(magnitude(v))
    }
}

/// The C expression for the cell at `pos` from the pointer.
pub open spec fn access_text(pos: isize) -> Seq<char> {
    if pos == 0 {
        "tape[ptr]"@
    } else {
        "tape[ptr "@ + sign_text(pos) + " "@ + decimal(magnitude(pos)) + "]"@
    }
}

/// `t` repeated `n` times.
pub open spec fn repeated(t: Seq<char>, n: nat) -> Seq<char>
    decreases n,
{
    if n == 0 {
        Seq::empty()
    } else {
        repeated(t, (n - 1) as nat) + t
    }
}

/// The argument list of an output call: `, <cell>` for each position.
pub open spec fn output_args(ps: Seq<isize>) -> Seq<char>
    decreases ps.len(),
{
    if ps.len() == 0 {
        Seq::empty()
    } else {
        output_args(ps.drop_last()) + ", "@ + access_text(ps.last())
    }
}

/// One `getchar` line, indented by `pad`, for each position.
pub open spec fn read_lines(pad: Seq<char>, ps: Seq<isize>) -> Seq<char>
    decreases ps.len(),
{
    if ps.len() == 0 {
        Seq::empty()
    } else {
        read_lines(pad, ps.drop_last()) + pad + access_text(ps.last()) + " = getchar();\n"@
    }
}

/// The C text of one instruction, indented by `pad`.
pub open spec fn c_instr(pad: Seq<char>, x: Instr) -> Seq<char>
    decreases x, 1nat,
{
    match x {
        Instr::BeginProgram => C_PRELUDE@,
        Instr::EndProgram => C_EPILOGUE@,
        Instr::TraverseBy { val } => pad + "ptr "@ + sign_text(val) + "= "@ + decimal(
            magnitude(val),
        ) + ";\n"@,
        Instr::MutateValue { pos, val } => pad + access_text(pos) + " "@ + sign_text(val) + "= "@
            + decimal(magnitude(val)) + ";\n"@,
        Instr::SetTo { pos, val } => pad + access_text(pos) + " = "@ + signed_decimal(val)
            + ";\n"@,
        Instr::OutputBytes { poslst } => pad + "printf(\""@ + repeated("%c"@, poslst.len())
            + "\""@ + output_args(poslst) + ");\n"@,
        Instr::ReadBytes { poslst } => read_lines(pad, poslst),
        Instr::ConditionalBlock(body) => pad + "while (tape[ptr] != 0) {\n"@ + c_block(
            pad + C_INDENT@,
            body,
        ) + pad + "}\n"@,
    }
}

/// The C text of a sequence of instructions, indented by `pad`.
pub open spec fn c_block(pad: Seq<char>, s: Seq<Instr>) -> Seq<char>
    decreases s, 0nat,
{
    if s.len() == 0 {
        Seq::empty()
    } else {
        c_block(pad, s.drop_last()) + c_instr(pad, s.last())
    }
}

/// The C program for a block: its instructions at one level of indentation,
/// with the sentinels emitted as the program's frame.
pub open spec fn c_program(s: Seq<Instr>) -> Seq<char> {
    c_block(C_INDENT@, s)
}

/// Emits the C program for `block`.
pub fn compile_to_c(block: &IRBlock) -> (r: String)
    ensures
        r@ == c_program(block@),
{
    let mut code = String::new();
    let pad = String::from_str(C_INDENT);
    emit_block(block, &mut code, &pad);
    code
}

fn push_digit(code: &mut String, d: usize)
    requires
        d < 10,
    ensures
        final(code)@ == old(code)@ + digit_text(d as nat),
{
    let t = if d == 0 {
        "0"
    } else if d == 1 {
        "1"
    } else if d == 2 {
        "2"
    } else if d == 3 {
        "3"
    } else if d == 4 {
        "4"
    } else if d == 5 {
        "5"
    } else if d == 6 {
        "6"
    } else if d == 7 {
        "7"
    } else if d == 8 {
        "8"
    } else {
        "9"
    };
    code.append(t);
}

fn push_decimal(code: &mut String, n: usize)
    ensures
        final(code)@ == old(code)@ + decimal(n as nat),
    decreases n,
{
    if n >= 10 {
        push_decimal(code, n / 10);
        push_digit(code, n % 10);
        proof {
            assert(old(code)@ + decimal((n / 10) as nat) + digit_text((n % 10) as nat) =~= old(
                code,
            )@ + decimal(n as nat));
        }
    } else {
        push_digit(code, n);
    }
}

/// The magnitude of `v`, which always fits in `usize`.
fn magnitude_of(v: isize) -> (r: usize)
    ensures
        r == magnitude(v),
{
    if v < 0 {
        ((-(v + 1)) as usize) + 1
    } else {
        v as usize
    }
}

fn push_sign(code: &mut String, v: isize)
    ensures
        final(code)@ == old(code)@ + sign_text(v),
{
    if v < 0 {
        code.append("-");
    } else {
        code.append("+");
    }
}

fn push_access(code: &mut String, pos: isize)
    ensures
        final(code)@ == old(code)@ + access_text(pos),
{
    let ghost start = code@;
    if pos == 0 {
        code.append("tape[ptr]");
    } else {
        code.append("tape[ptr ");
        push_sign(code, pos);
        code.append(" ");
        push_decimal(code, magnitude_of(pos));
        code.append("]");
        proof {
            assert(code@ =~= start + access_text(pos));
        }
    }
}

fn push_output(code: &mut String, pad: &String, ps: &Vec<isize>)
    ensures
        final(code)@ == old(code)@ + c_instr(pad@, Instr::OutputBytes { poslst: ps@ }),
{
    let ghost start = code@;
    code.append(pad.as_str());
    code.append("printf(\"");
    let mut i: usize = 0;
    while i < ps.len()
        invariant
            i <= ps@.len(),
            code@ == start + pad@ + "printf(\""@ + repeated("%c"@, i as nat),
        decreases ps@.len() - i,
    {
        code.append("%c");
        i = i + 1;
    }
    code.append("\"");
    let ghost mid = code@;
    let mut k: usize = 0;
    while k < ps.len()
        invariant
            k <= ps@.len(),
            code@ == mid + output_args(ps@.take(k as int)),
        decreases ps@.len() - k,
    {
        proof {
            assert(ps@.take(k + 1).drop_last() =~= ps@.take(k as int));
        }
        code.append(", ");
        push_access(code, ps[k]);
        proof {
            assert(code@ =~= mid + output_args(ps@.take(k + 1)));
        }
        k = k + 1;
    }
    proof {
        assert(ps@.take(ps@.len() as int) =~= ps@);
    }
    code.append(");\n");
    proof {
        assert(code@ =~= start + c_instr(pad@, Instr::OutputBytes { poslst: ps@ }));
    }
}

fn push_reads(code: &mut String, pad: &String, ps: &Vec<isize>)
    ensures
        final(code)@ == old(code)@ + read_lines(pad@, ps@),
{
    let ghost start = code@;
    let mut k: usize = 0;
    while k < ps.len()
        invariant
            k <= ps@.len(),
            code@ == start + read_lines(pad@, ps@.take(k as int)),
        decreases ps@.len() - k,
    {
        proof {
            assert(ps@.take(k + 1).drop_last() =~= ps@.take(k as int));
        }
        code.append(pad.as_str());
        push_access(code, ps[k]);
        code.append(" = getchar();\n");
        proof {
            assert(code@ =~= start + read_lines(pad@, ps@.take(k + 1)));
        }
        k = k + 1;
    }
    proof {
        assert(ps@.take(ps@.len() as int) =~= ps@);
    }
}

fn emit_block(block: &IRBlock, code: &mut String, pad: &String)
    ensures
        final(code)@ == old(code)@ + c_block(pad@, block@),
    decreases block,
{
    let ghost start = code@;
    let ghost s = block.content@;
    proof {
        lemma_seq_model(s);
    }
    let mut i: usize = 0;
    while i < block.content.len()
        invariant
            i <= s.len(),
            s == block.content@,
            block@.len() == s.len(),
            forall|j: int| 0 <= j < s.len() ==> #[trigger] block@[j] == s[j]@,
            code@ == start + c_block(pad@, block@.take(i as int)),
        decreases s.len() - i,
    {
        let ghost before = code@;
        proof {
            assert(block@.take(i + 1).drop_last() =~= block@.take(i as int));
        }
        match &block.content[i] {
            IRInstruction::BeginProgram => {
                code.append(C_PRELUDE);
            },
            IRInstruction::EndProgram => {
                code.append(C_EPILOGUE);
            },
            IRInstruction::TraverseBy { val } => {
                code.append(pad.as_str());
                code.append("ptr ");
                push_sign(code, *val);
                code.append("= ");
                push_decimal(code, magnitude_of(*val));
                code.append(";\n");
            },
            IRInstruction::MutateValue { pos, val } => {
                code.append(pad.as_str());
                push_access(code, *pos);
                code.append(" ");
                push_sign(code, *val);
                code.append("= ");
                push_decimal(code, magnitude_of(*val));
                code.append(";\n");
            },
            IRInstruction::SetTo { pos, val } => {
                code.append(pad.as_str());
                push_access(code, *pos);
                code.append(" = ");
                if *val < 0 {
                    code.append("-");
                }
                push_decimal(code, magnitude_of(*val));
                code.append(";\n");
            },
            IRInstruction::OutputBytes { poslst } => {
                push_output(code, pad, poslst);
            },
            IRInstruction::ReadBytes { poslst } => {
                push_reads(code, pad, poslst);
            },
            IRInstruction::ConditionalBlock(b) => {
                code.append(pad.as_str());
                code.append("while (tape[ptr] != 0) {\n");
                let mut inner = pad.clone();
                inner.append(C_INDENT);
                proof {
                    assert(decreases_to!(block.content@ => block.content@[i as int]));
                }
                emit_block(b, code, &inner);
                code.append(pad.as_str());
                code.append("}\n");
            },
        }
        proof {
            assert(code@ =~= before + c_instr(pad@, s[i as int]@));
            assert(code@ =~= start + c_block(pad@, block@.take(i + 1)));
        }
        i = i + 1;
    }
    proof {
        assert(block@.take(s.len() as int) =~= block@);
    }
}

} // verus!
