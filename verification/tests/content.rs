use orderbook::errors::ParseError;
use orderbook::orders::{ranks_before, OrderContent, Side};
use orderbook::text::{chars_of, read_number};

#[test]
fn test_create_limit_order_buy_content() {
    let order_contents = "LIMIT_ORDER_BUY 100 200";

    let expected = OrderContent::LimitOrderBuy { price: 100, quantity: 200 };

    let result: Result<OrderContent, _> = order_contents.try_into();
    assert_eq!(result.unwrap(), expected);
}

#[test]
fn test_create_limit_order_sell_content() {
    let order_contents = "LIMIT_ORDER_SELL 100 200";

    let expected = OrderContent::LimitOrderSell { price: 100, quantity: 200 };

    let result: Result<OrderContent, _> = order_contents.try_into();
    assert_eq!(result.unwrap(), expected);
}

#[test]
fn empty_content_is_read() {
    assert_eq!(OrderContent::parse("EMPTY"), Ok(OrderContent::Empty));
}

#[test]
fn unknown_order_type_is_refused() {
    assert_eq!(OrderContent::parse("MARKET_ORDER 1 2"), Err(ParseError::UnknownOrderType));
    assert_eq!(OrderContent::parse("LIMIT_ORDER_BUY"), Err(ParseError::UnknownOrderType));
    assert_eq!(OrderContent::parse("empty"), Err(ParseError::UnknownOrderType));
    assert_eq!(OrderContent::parse(""), Err(ParseError::UnknownOrderType));
}

#[test]
fn bad_terms_are_refused() {
    assert_eq!(OrderContent::parse("LIMIT_ORDER_BUY 100"), Err(ParseError::BadTerms));
    assert_eq!(OrderContent::parse("LIMIT_ORDER_BUY 100 "), Err(ParseError::BadTerms));
    assert_eq!(OrderContent::parse("LIMIT_ORDER_BUY  100 200"), Err(ParseError::BadTerms));
    assert_eq!(OrderContent::parse("LIMIT_ORDER_SELL 100 200 300"), Err(ParseError::BadTerms));
    assert_eq!(OrderContent::parse("LIMIT_ORDER_SELL 1x0 200"), Err(ParseError::BadTerms));
    assert_eq!(OrderContent::parse("LIMIT_ORDER_SELL -1 200"), Err(ParseError::BadTerms));
    assert_eq!(OrderContent::parse("LIMIT_ORDER_SELL +1 200"), Err(ParseError::BadTerms));
    assert_eq!(
        OrderContent::parse("LIMIT_ORDER_SELL 18446744073709551616 1"),
        Err(ParseError::BadTerms)
    );
}

#[test]
fn largest_terms_are_read() {
    assert_eq!(
        OrderContent::parse("LIMIT_ORDER_SELL 18446744073709551615 0"),
        Ok(OrderContent::LimitOrderSell { price: u64::MAX, quantity: 0 })
    );
}

#[test]
fn numbers_are_read_digit_by_digit() {
    assert_eq!(read_number("0"), Some(0));
    assert_eq!(read_number("007"), Some(7));
    assert_eq!(read_number("1234567890"), Some(1234567890));
    assert_eq!(read_number("18446744073709551615"), Some(u64::MAX));
    assert_eq!(read_number("18446744073709551616"), None);
    assert_eq!(read_number("99999999999999999999999"), None);
    assert_eq!(read_number("000000000000000000000000000012"), Some(12));
    assert_eq!(read_number(""), None);
    assert_eq!(read_number("12a"), None);
    assert_eq!(read_number(" 12"), None);
}

#[test]
fn chars_are_taken_in_order() {
    assert_eq!(chars_of("a[1] \"x\""), vec!['a', '[', '1', ']', ' ', '"', 'x', '"']);
    assert_eq!(chars_of(""), Vec::<char>::new());
}

#[test]
fn content_accessors_give_its_terms() {
    let buy = OrderContent::LimitOrderBuy { price: 10, quantity: 3 };
    let sell = OrderContent::LimitOrderSell { price: 11, quantity: 4 };
    assert_eq!(buy.side(), Some(Side::Bid));
    assert_eq!(sell.side(), Some(Side::Ask));
    assert_eq!(OrderContent::Empty.side(), None);
    assert_eq!(buy.price(), 10);
    assert_eq!(sell.quantity(), 4);
    assert_eq!(OrderContent::Empty.price(), 0);
    assert_eq!(OrderContent::Empty.quantity(), 0);
    assert_eq!(buy.with_quantity(7), OrderContent::LimitOrderBuy { price: 10, quantity: 7 });
    assert_eq!(OrderContent::Empty.with_quantity(7), OrderContent::Empty);
    assert!(buy.can_rest());
    assert!(!buy.with_quantity(0).can_rest());
    assert!(!OrderContent::Empty.can_rest());
    assert!(sell.quantity_at_most(4));
    assert!(!sell.quantity_at_most(3));
}

#[test]
fn bids_rank_high_first_and_asks_low_first() {
    assert!(ranks_before(Side::Bid, 101, 100));
    assert!(!ranks_before(Side::Bid, 99, 100));
    assert!(ranks_before(Side::Ask, 99, 100));
    assert!(!ranks_before(Side::Ask, 101, 100));
    assert!(ranks_before(Side::Bid, 100, 100));
    assert!(ranks_before(Side::Ask, 100, 100));
    assert_eq!(Side::Bid.opposite(), Side::Ask);
    assert_eq!(Side::Ask.opposite(), Side::Bid);
}
