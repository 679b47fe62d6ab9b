use vstd::prelude::*;

verus! {

/// One of the eight symbols of the source language.
///
/// | Character | Token              |
/// |-----------|--------------------|
/// | `>`       | `IncrementPointer` |
/// | `<`       | `DecrementPointer` |
/// | `+`       | `IncrementValue`   |
/// | `-`       | `DecrementValue`   |
/// | `.`       | `PushByte`         |
/// | `,`       | `ReadByte`         |
/// | `[`       | `JumpForward`      |
/// | `]`       | `JumpBackward`     |
#[derive(Clone, Copy, Debug, PartialEq, Eq, Structural)]
pub enum Token {
    IncrementPointer,
    DecrementPointer,
    IncrementValue,
    DecrementValue,
    PushByte,
    ReadByte,
    JumpForward,
    JumpBackward,
}

} // verus!
