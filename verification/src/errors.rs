use vstd::prelude::*;

verus! {

/// Everything that can stop a build or an insertion into the site tree.
#[derive(Debug, PartialEq, Eq, Structural, Clone, Copy)]
pub enum BuildError {
    /// The designated output root already exists; nothing has been touched.
    PreexistingOutput,
    /// The output root or an intermediate directory could not be created.
    DirectoryCreationFailure,
    /// A source file could not be read.
    ReadFailure,
    /// A destination file could not be written.
    WriteFailure,
    /// A name in the site tree is already bound to a page where a folder is
    /// needed.
    StructuralConflict,
}

} // verus!
