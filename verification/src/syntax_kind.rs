//! The tag that names the category of a node or of a token.
use vstd::prelude::*;

verus! {

/// An opaque tag for a category of tree nodes or leaf tokens.
///
/// The pass never looks inside a tag, except to tell the tombstone apart from
/// every other one.
#[derive(Clone, Copy, Debug, PartialEq, Eq, Structural, Hash)]
pub struct SyntaxKind(pub u16);

impl SyntaxKind {
    /// The sentinel that marks an abandoned node start and a consumed slot of
    /// the log. It never names a node of the tree.
    pub open spec fn tombstone_spec() -> SyntaxKind {
        SyntaxKind(0)
    }

    /// Whether this tag is the tombstone.
    pub open spec fn is_tombstone_spec(self) -> bool {
        self == Self::tombstone_spec()
    }

    /// The tombstone tag.
    #[verifier::when_used_as_spec(tombstone_spec)]
    pub fn tombstone() -> (kind: SyntaxKind)
        ensures
            kind == Self::tombstone_spec(),
    {
        SyntaxKind(0)
    }

    /// Whether this tag is the tombstone.
    #[verifier::when_used_as_spec(is_tombstone_spec)]
    pub fn is_tombstone(self) -> (yes: bool)
        ensures
            yes == self.is_tombstone_spec(),
    {
        self.0 == 0
    }
}

} // verus!
