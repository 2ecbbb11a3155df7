use order_match::codec::{parse_order, render_trade, ParseError};
use order_match::order::{Side, Trade};

fn parse(line: &str) -> Result<order_match::order::Order, ParseError> {
    parse_order(&line.as_bytes().to_vec())
}

#[test]
fn parses_a_buy_record() {
    let o = parse("1: Buy 10 BTC @ 100").unwrap();
    assert_eq!(o.id, 1);
    assert_eq!(o.side, Side::Buy);
    assert_eq!(o.quantity, 10);
    assert_eq!(o.price, 100);
}

#[test]
fn parses_a_sell_record() {
    let o = parse("42: Sell 7 BTC @ 250 USD").unwrap();
    assert_eq!(o.id, 42);
    assert_eq!(o.side, Side::Sell);
    assert_eq!(o.quantity, 7);
    assert_eq!(o.price, 250);
}

#[test]
fn tolerates_extra_whitespace() {
    let o = parse("  3:   Buy  2 BTC   @  9  ").unwrap();
    assert_eq!(o.id, 3);
    assert_eq!(o.quantity, 2);
    assert_eq!(o.price, 9);
}

#[test]
fn rejects_too_few_fields() {
    assert_eq!(parse("1: Buy 10 BTC @"), Err(ParseError::TooFewFields));
    assert_eq!(parse(""), Err(ParseError::TooFewFields));
}

#[test]
fn rejects_unknown_side() {
    assert_eq!(parse("1: Hold 10 BTC @ 100"), Err(ParseError::UnknownSide));
    assert_eq!(parse("1: buy 10 BTC @ 100"), Err(ParseError::UnknownSide));
}

#[test]
fn rejects_bad_integers() {
    assert_eq!(parse("x: Buy 10 BTC @ 100"), Err(ParseError::BadInteger));
    assert_eq!(parse("1: Buy ten BTC @ 100"), Err(ParseError::BadInteger));
    assert_eq!(parse("1: Buy 10 BTC @ 1e2"), Err(ParseError::BadInteger));
}

#[test]
fn rejects_out_of_range_integers() {
    assert_eq!(
        parse("99999999999999999999: Buy 10 BTC @ 100"),
        Err(ParseError::BadInteger)
    );
    assert_eq!(parse("1: Buy 4294967296 BTC @ 100"), Err(ParseError::BadInteger));
    let o = parse("18446744073709551615: Buy 4294967295 BTC @ 4294967295").unwrap();
    assert_eq!(o.id, u64::MAX);
    assert_eq!(o.quantity, u32::MAX);
    assert_eq!(o.price, u32::MAX);
}

#[test]
fn rejects_zero_quantity() {
    assert_eq!(parse("1: Buy 0 BTC @ 100"), Err(ParseError::ZeroQuantity));
}

#[test]
fn strips_trailing_colon_from_id() {
    let o = parse("7: Sell 1 BTC @ 2").unwrap();
    assert_eq!(o.id, 7);
    let o2 = parse("7 Sell 1 BTC @ 2").unwrap();
    assert_eq!(o2.id, 7);
}

#[test]
fn renders_a_trade_line() {
    let t = Trade { buyer_order_id: 2, seller_order_id: 1, price: 100, quantity: 5 };
    let line = render_trade(&t);
    assert_eq!(
        String::from_utf8(line).unwrap(),
        "Trade: 5 BTC @ 100 USD between 2 and 1"
    );
}

#[test]
fn renders_multi_digit_numbers() {
    let t = Trade {
        buyer_order_id: 1234567890123,
        seller_order_id: 0,
        price: 4294967295,
        quantity: 10,
    };
    let line = render_trade(&t);
    assert_eq!(
        String::from_utf8(line).unwrap(),
        "Trade: 10 BTC @ 4294967295 USD between 1234567890123 and 0"
    );
}

#[test]
fn renders_an_order_line() {
    let o = order_match::order::Order { id: 1, side: Side::Buy, price: 100, quantity: 10 };
    let line = order_match::codec::render_order(&o);
    assert_eq!(String::from_utf8(line).unwrap(), "1: Buy 10 BTC @ 100 USD");
}

#[test]
fn rendered_order_parses_back() {
    let o = order_match::order::Order { id: 77, side: Side::Sell, price: 250, quantity: 3 };
    let line = order_match::codec::render_order(&o);
    assert_eq!(parse_order(&line), Ok(o));
}
