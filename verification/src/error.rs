use vstd::prelude::*;

verus! {

/// A failure that is described by a fixed message.
#[derive(Debug, PartialEq)]
pub struct StaticStringError(pub &'static str);

impl StaticStringError {
    /// The text that stands for this failure when it is shown: its message,
    /// unchanged.
    pub fn message(&self) -> (text: String)
        ensures
            text@ == self.0@,
    {
        self.0.to_owned()
    }
}

} // verus!
