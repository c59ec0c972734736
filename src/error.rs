use vstd::prelude::*;

verus! {

/// A fatal failure of a fixup on one document.
#[derive(Debug, Clone, Copy, PartialEq, Eq, Structural)]
pub enum FixError {
    /// A heading would move past the deepest level, 6.
    HeadingLevelOverflow,
    /// A code block does not end where it must.
    MalformedStream,
}

/// The description of each failure.
pub open spec fn message_of(e: FixError) -> Seq<char> {
    match e {
        FixError::HeadingLevelOverflow => "heading level out of range"@,
        FixError::MalformedStream => "expected the end of a code block"@,
    }
}

impl FixError {
    /// A short description of the failure.
    pub fn message(&self) -> (r: String)
        ensures
            r@ == message_of(*self),
    {
        proof {
            reveal_strlit("heading level out of range");
            reveal_strlit("expected the end of a code block");
        }
        match self {
            FixError::HeadingLevelOverflow => String::from_str("heading level out of range"),
            FixError::MalformedStream => String::from_str("expected the end of a code block"),
        }
    }
}

} // verus!
