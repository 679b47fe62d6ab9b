use vstd::prelude::*;
use vstd::string::StringSliceAdditionalSpecFns;

use crate::block::IRBlock;
use crate::transpile::c_backend;
use crate::transpile::codegen_error::CodegenError;

verus! {

/// A code-generation target.
#[derive(Clone, Copy, Debug, PartialEq, Eq, Structural)]
#[non_exhaustive]
pub enum CompilerBackend {
    C,
}

/// Whether `b` is the UTF-8 text of a backend's name: `c` or `C`.
pub open spec fn names_c(b: Seq<u8>) -> bool {
    b == seq![0x63u8] || b == seq![0x43u8]
}

impl CompilerBackend {
    /// The backend named by `s`, matched exactly.
    pub fn parse(s: &str) -> (r: Result<CompilerBackend, CodegenError>)
        ensures
            names_c(s.spec_bytes()) ==> r == Ok::<CompilerBackend, CodegenError>(CompilerBackend::C),
            !names_c(s.spec_bytes()) ==> r == Err::<CompilerBackend, CodegenError>(
                CodegenError::InvalidBackend,
            ),
    {
        let b = s.as_bytes();
        if b.len() == 1 && (b[0] == 0x63u8 || b[0] == 0x43u8) {
            proof {
                assert(b@ =~= seq![b@[0]]);
            }
            Ok(CompilerBackend::C)
        } else {
            Err(CodegenError::InvalidBackend)
        }
    }
}

impl core::str::FromStr for CompilerBackend {
    type Err = CodegenError;

    fn from_str(s: &str) -> Result<CompilerBackend, CodegenError> {
        CompilerBackend::parse(s)
    }
}

/// The code generator of `backend`.
pub fn get_compiler_fn(backend: &CompilerBackend) -> (r: impl Fn(&IRBlock) -> String)
    ensures
        forall|b: &IRBlock| #[trigger] call_requires(r, (b,)),
        forall|b: &IRBlock, out: String|
            #[trigger] call_ensures(r, (b,), out) ==> out@ == c_backend::c_program(b@),
{
    match *backend {
        CompilerBackend::C => {
            let f = c_backend::compile_to_c;
            proof {
                assert forall|b: &IRBlock| #[trigger] call_requires(f, (b,)) by {}
                assert forall|b: &IRBlock, out: String| #[trigger]
                    call_ensures(f, (b,), out) implies out@ == c_backend::c_program(b@) by {}
            }
            f
        },
    }
}

} // verus!
