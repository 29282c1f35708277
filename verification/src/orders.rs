//! The economic terms of an order.

use crate::errors::ParseError;
use crate::text::{chars_of, find, number, parse_number, same_text};
use vstd::prelude::*;

verus! {

/// The side of the book on which an order rests.
#[derive(Clone, Copy, Debug, PartialEq, Eq, Hash, Structural)]
pub enum Side {
    /// Resting buy orders.
    Bid,
    /// Resting sell orders.
    Ask,
}

impl Side {
    /// The side an order on this side trades against.
    pub open spec fn spec_opposite(self) -> Side {
        match self {
            Side::Bid => Side::Ask,
            Side::Ask => Side::Bid,
        }
    }

    /// The side an order on this side trades against.
    #[verifier::when_used_as_spec(spec_opposite)]
    pub fn opposite(self) -> (other: Side)
        ensures
            other == self.spec_opposite(),
    {
        match self {
            Side::Bid => Side::Ask,
            Side::Ask => Side::Bid,
        }
    }
}

/// Whether price `a` is at least as good as price `b` for orders resting on
/// `side`: bids are better the higher they are, asks the lower.
pub open spec fn spec_ranks_before(side: Side, a: u64, b: u64) -> bool {
    match side {
        Side::Bid => a >= b,
        Side::Ask => a <= b,
    }
}

/// Whether price `a` is at least as good as price `b` on `side`.
#[verifier::when_used_as_spec(spec_ranks_before)]
pub fn ranks_before(side: Side, a: u64, b: u64) -> (r: bool)
    ensures
        r == spec_ranks_before(side, a, b),
{
    match side {
        Side::Bid => a >= b,
        Side::Ask => a <= b,
    }
}

/// What an order asks for: a side, a limit price and a quantity.
///
/// `Empty` carries no terms. It stands for requests that have none, such as a
/// cancel, and never rests in the book.
#[derive(Clone, Copy, Debug, PartialEq, Eq, Hash, Structural)]
pub enum OrderContent {
    LimitOrderBuy { price: u64, quantity: u64 },
    LimitOrderSell { price: u64, quantity: u64 },
    Empty,
}

/// The price and the quantity that `text` writes: two numbers with one
/// space between them.
pub open spec fn terms_of(text: Seq<char>) -> Option<(u64, u64)> {
    match text.index_of_first(' ') {
        None => None,
        Some(space) => match (number(text.subrange(0, space)), number(text.skip(space + 1))) {
            (Some(price), Some(quantity)) => Some((price, quantity)),
            _ => None,
        },
    }
}

/// The order content that `text` writes.
///
/// `EMPTY` is the content without terms. Any other content is one of the
/// words `LIMIT_ORDER_BUY` and `LIMIT_ORDER_SELL`, a space, the price, a
/// space and the quantity.
pub open spec fn content_of(text: Seq<char>) -> Result<OrderContent, ParseError> {
    match text.index_of_first(' ') {
        None => if text == "EMPTY"@ {
            Ok(OrderContent::Empty)
        } else {
            Err(ParseError::UnknownOrderType)
        },
        Some(space) => {
            let word = text.subrange(0, space);
            let terms = terms_of(text.skip(space + 1));
            if word == "LIMIT_ORDER_BUY"@ {
                match terms {
                    Some((price, quantity)) => Ok(OrderContent::LimitOrderBuy { price, quantity }),
                    None => Err(ParseError::BadTerms),
                }
            } else if word == "LIMIT_ORDER_SELL"@ {
                match terms {
                    Some((price, quantity)) => Ok(OrderContent::LimitOrderSell { price, quantity }),
                    None => Err(ParseError::BadTerms),
                }
            } else {
                Err(ParseError::UnknownOrderType)
            }
        },
    }
}

/// Reads price and quantity from `chars` between `from` and `to`.
fn parse_terms(chars: &Vec<char>, from: usize, to: usize) -> (terms: Option<(u64, u64)>)
    requires
        from <= to <= chars.len(),
    ensures
        terms == terms_of(chars@.subrange(from as int, to as int)),
{
    let ghost text = chars@.subrange(from as int, to as int);
    match find(chars, from, to, ' ') {
        None => None,
        Some(space) => {
            proof {
                assert(text.subrange(0, space - from) =~= chars@.subrange(
                    from as int,
                    space as int,
                ));
                assert(text.skip(space - from + 1) =~= chars@.subrange(space + 1, to as int));
            }
            match (parse_number(chars, from, space), parse_number(chars, space + 1, to)) {
                (Some(price), Some(quantity)) => Some((price, quantity)),
                _ => None,
            }
        },
    }
}

impl OrderContent {
    /// The side this order rests on, if it has terms.
    pub open spec fn spec_side(&self) -> Option<Side> {
        match *self {
            OrderContent::LimitOrderBuy { .. } => Some(Side::Bid),
            OrderContent::LimitOrderSell { .. } => Some(Side::Ask),
            OrderContent::Empty => None,
        }
    }

    /// The limit price; zero for `Empty`.
    pub open spec fn spec_price(&self) -> u64 {
        match *self {
            OrderContent::LimitOrderBuy { price, .. } => price,
            OrderContent::LimitOrderSell { price, .. } => price,
            OrderContent::Empty => 0,
        }
    }

    /// The open quantity; zero for `Empty`.
    pub open spec fn spec_quantity(&self) -> u64 {
        match *self {
            OrderContent::LimitOrderBuy { quantity, .. } => quantity,
            OrderContent::LimitOrderSell { quantity, .. } => quantity,
            OrderContent::Empty => 0,
        }
    }

    /// The same order with another open quantity. `Empty` stays `Empty`.
    pub open spec fn spec_with_quantity(&self, quantity: u64) -> OrderContent {
        match *self {
            OrderContent::LimitOrderBuy { price, .. } => OrderContent::LimitOrderBuy {
                price,
                quantity,
            },
            OrderContent::LimitOrderSell { price, .. } => OrderContent::LimitOrderSell {
                price,
                quantity,
            },
            OrderContent::Empty => OrderContent::Empty,
        }
    }

    /// An order may rest in the book when it has a side and a positive
    /// quantity.
    pub open spec fn spec_can_rest(&self) -> bool {
        self.spec_side() is Some && self.spec_quantity() > 0
    }

    /// The side this order rests on, if it has terms.
    #[verifier::when_used_as_spec(spec_side)]
    pub fn side(&self) -> (side: Option<Side>)
        ensures
            side == self.spec_side(),
    {
        match self {
            OrderContent::LimitOrderBuy { .. } => Some(Side::Bid),
            OrderContent::LimitOrderSell { .. } => Some(Side::Ask),
            OrderContent::Empty => None,
        }
    }

    /// The limit price; zero for `Empty`.
    #[verifier::when_used_as_spec(spec_price)]
    pub fn price(&self) -> (price: u64)
        ensures
            price == self.spec_price(),
    {
        match self {
            OrderContent::LimitOrderBuy { price, .. } => *price,
            OrderContent::LimitOrderSell { price, .. } => *price,
            OrderContent::Empty => 0,
        }
    }

    /// The open quantity; zero for `Empty`.
    #[verifier::when_used_as_spec(spec_quantity)]
    pub fn quantity(&self) -> (quantity: u64)
        ensures
            quantity == self.spec_quantity(),
    {
        match self {
            OrderContent::LimitOrderBuy { quantity, .. } => *quantity,
            OrderContent::LimitOrderSell { quantity, .. } => *quantity,
            OrderContent::Empty => 0,
        }
    }

    /// The same order with another open quantity. `Empty` stays `Empty`.
    #[verifier::when_used_as_spec(spec_with_quantity)]
    pub fn with_quantity(&self, quantity: u64) -> (content: OrderContent)
        ensures
            content == self.spec_with_quantity(quantity),
    {
        match self {
            OrderContent::LimitOrderBuy { price, .. } => OrderContent::LimitOrderBuy {
                price: *price,
                quantity,
            },
            OrderContent::LimitOrderSell { price, .. } => OrderContent::LimitOrderSell {
                price: *price,
                quantity,
            },
            OrderContent::Empty => OrderContent::Empty,
        }
    }

    /// Whether the open quantity is no more than `limit`: an incoming
    /// quantity of `limit` then fills this order completely.
    pub fn quantity_at_most(&self, limit: u64) -> (r: bool)
        ensures
            r == (self.spec_quantity() <= limit),
    {
        self.quantity() <= limit
    }

    /// Whether the order has a side and a positive quantity.
    #[verifier::when_used_as_spec(spec_can_rest)]
    pub fn can_rest(&self) -> (r: bool)
        ensures
            r == self.spec_can_rest(),
    {
        match self {
            OrderContent::LimitOrderBuy { quantity, .. } => *quantity > 0,
            OrderContent::LimitOrderSell { quantity, .. } => *quantity > 0,
            OrderContent::Empty => false,
        }
    }

    /// Reads the order content that `text` writes.
    pub fn parse(text: &str) -> (content: Result<OrderContent, ParseError>)
        ensures
            content == content_of(text@),
    {
        let chars = chars_of(text);
        let n = chars.len();
        proof {
            assert(chars@.subrange(0, n as int) =~= chars@);
        }
        match find(&chars, 0, n, ' ') {
            None => {
                if same_text(&chars, 0, n, "EMPTY") {
                    Ok(OrderContent::Empty)
                } else {
                    Err(ParseError::UnknownOrderType)
                }
            },
            Some(space) => {
                proof {
                    assert(text@.skip(space + 1) =~= chars@.subrange(space + 1, n as int));
                }
                if same_text(&chars, 0, space, "LIMIT_ORDER_BUY") {
                    match parse_terms(&chars, space + 1, n) {
                        Some((price, quantity)) => Ok(
                            OrderContent::LimitOrderBuy { price, quantity },
                        ),
                        None => Err(ParseError::BadTerms),
                    }
                } else if same_text(&chars, 0, space, "LIMIT_ORDER_SELL") {
                    match parse_terms(&chars, space + 1, n) {
                        Some((price, quantity)) => Ok(
                            OrderContent::LimitOrderSell { price, quantity },
                        ),
                        None => Err(ParseError::BadTerms),
                    }
                } else {
                    Err(ParseError::UnknownOrderType)
                }
            },
        }
    }
}

impl<'a> TryFrom<&'a str> for OrderContent {
    type Error = ParseError;

    /// Reads the order content that `text` writes.
    fn try_from(text: &'a str) -> (content: Result<OrderContent, ParseError>) {
        OrderContent::parse(text)
    }
}

impl<'a> vstd::std_specs::convert::TryFromSpecImpl<&'a str> for OrderContent {
    open spec fn obeys_try_from_spec() -> bool {
        true
    }

    open spec fn try_from_spec(text: &'a str) -> Result<OrderContent, ParseError> {
        content_of(text@)
    }
}

} // verus!
