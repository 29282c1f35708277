//! What the book reports when it turns a request down.

use vstd::prelude::*;

verus! {

/// Why a single request was turned down. The book is unchanged by a request
/// that ends in one of these.
#[derive(Clone, Copy, Debug, PartialEq, Eq, Hash, Structural)]
pub enum OrderError {
    /// The request names an order that is not resting in the book.
    NotFound,
    /// A replace asks for another side or another price than the resting
    /// order has.
    InvalidReplace,
    /// Content without terms reached the matching path.
    InvariantViolation,
}

impl OrderError {
    /// The text shown for this error.
    pub open spec fn spec_message(&self) -> Seq<char> {
        "There was an error processing the order."@
    }

    /// The text shown for this error.
    pub fn message(&self) -> (text: String)
        ensures
            text@ == self.spec_message(),
    {
        "There was an error processing the order.".to_string()
    }

    /// Whether processing must stop at this error: it shows a fault
    /// upstream of the book, not a request that can simply be skipped.
    pub open spec fn spec_is_fatal(&self) -> bool {
        *self == OrderError::InvariantViolation
    }

    /// Whether processing must stop at this error.
    #[verifier::when_used_as_spec(spec_is_fatal)]
    pub fn is_fatal(&self) -> (fatal: bool)
        ensures
            fatal == self.spec_is_fatal(),
    {
        match self {
            OrderError::InvariantViolation => true,
            _ => false,
        }
    }
}

/// Why a line of text is not a request.
#[derive(Clone, Copy, Debug, PartialEq, Eq, Hash, Structural)]
pub enum ParseError {
    /// The line does not have the shape of a request.
    BadLine,
    /// The text between the square brackets is not a date and time.
    BadTimestamp,
    /// The order id is not a number of 64 bits.
    BadOrderId,
    /// The request type is none of the three that there are.
    UnknownRequestType,
    /// The order content starts with no known word.
    UnknownOrderType,
    /// Price and quantity are not two numbers of 64 bits.
    BadTerms,
}

/// Processing a stream of requests was given up.
#[derive(Clone, Copy, Debug, PartialEq, Eq, Hash, Structural)]
pub struct OrderbookProcessingError;

impl OrderbookProcessingError {
    /// The text shown for this error.
    pub open spec fn spec_message(&self) -> Seq<char> {
        "There was an error processing the orderbook."@
    }

    /// The text shown for this error.
    pub fn message(&self) -> (text: String)
        ensures
            text@ == self.spec_message(),
    {
        "There was an error processing the orderbook.".to_string()
    }
}

} // verus!
