//! What the user asks of the tool.
use vstd::prelude::*;

verus! {

/// One request of the user.
#[derive(Debug, Clone)]
pub enum Message {
    /// Show the previous scan.
    Previous,
    /// Show the next scan.
    Next,
    /// The date text was edited to this value.
    InputChanged(String),
    /// Remove the scan shown.
    Delete,
    /// File the scan shown under the date entered.
    Post,
}

} // verus!
