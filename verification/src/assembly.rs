//! What every code generator shares: the registers, the errors and the
//! buffer that takes the emitted lines.

use vstd::prelude::*;

pub mod assembly_writer_arm64;

verus! {

/// The target architectures that code can be generated for.
#[derive(Debug, Clone, Copy, PartialEq, Eq, Structural)]
pub enum SupportedArchitectures {
    ARM64,
}

/// The general-purpose registers that expressions are evaluated in.
#[derive(Debug, Clone, Copy, PartialEq, Eq, Structural)]
pub enum RegisterList {
    R0,
    R1,
    R2,
    R3,
    R4,
}

/// Why no code could be generated.
#[derive(Debug, Clone, Copy, PartialEq, Eq, Structural)]
pub enum CodegenError {
    /// A register was needed while all of them held a value.
    RegisterExhausted,
    /// A node holds a token that is neither an integer nor an operator.
    UnsupportedOperation,
}

/// The lines of assembly text that were emitted so far, for one
/// architecture. A line holds no line break.
pub struct AssemblyWriter {
    pub lines: Vec<String>,
    pub architecture: SupportedArchitectures,
}

impl View for AssemblyWriter {
    type V = Seq<Seq<char>>;

    /// The emitted lines as sequences of characters.
    open spec fn view(&self) -> Seq<Seq<char>> {
        self.lines@.map_values(|line: String| line@)
    }
}

impl AssemblyWriter {
    /// A writer that holds no line yet.
    pub fn new(architecture: SupportedArchitectures) -> (writer: AssemblyWriter)
        ensures
            writer@ == Seq::<Seq<char>>::empty(),
            writer.architecture == architecture,
    {
        let writer = AssemblyWriter { lines: Vec::new(), architecture };
        assert(writer@ =~= Seq::<Seq<char>>::empty());
        writer
    }

    /// Adds one line behind those that are there.
    pub fn write_line(&mut self, line: String)
        ensures
            final(self)@ == old(self)@.push(line@),
            final(self).architecture == old(self).architecture,
    {
        self.lines.push(line);
        assert(self@ =~= old(self)@.push(line@));
    }
}

} // verus!
