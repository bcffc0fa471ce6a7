//! The texts that the engine hands back to its host, and the decimal
//! rendering of prices and quantities that they quote.

use crate::order::{side_name, side_text, BidOrAsk, Qty, QTY_DECIMALS};
use crate::tick::{
    normalize, normalized, tick_to_price, Price, Tick, MAX_PRICE_DECIMALS, MAX_PRICE_MANTISSA,
    PRICE_DECIMALS,
};
use rust_decimal::Decimal;
use vstd::prelude::*;
use vstd::string::StringExecFns;

verus! {

/// The text that `rust_decimal` prints for the decimal `mantissa / 10^scale`.
pub uninterp spec fn decimal_digits(mantissa: int, scale: nat) -> Seq<char>;

/// `Display` of `rust_decimal::Decimal`, on the decimal built by
/// `Decimal::from_i128_with_scale`: the printed text depends on the mantissa
/// and the scale alone. The constructor panics on a scale above 28 or a
/// mantissa of more than 96 bits, which `requires` leaves out.
#[verifier::external_body]
fn decimal_text(mantissa: i128, scale: u32) -> (r: String)
    requires
        -MAX_PRICE_MANTISSA <= mantissa <= MAX_PRICE_MANTISSA,
        scale <= MAX_PRICE_DECIMALS,
    ensures
        r@ == decimal_digits(mantissa as int, scale as nat),
{
    Decimal::from_i128_with_scale(mantissa, scale).to_string()
}

/// The text of a tick's price, at the lowest scale that holds it.
pub open spec fn tick_digits(t: Tick) -> Seq<char> {
    decimal_digits(
        normalized(t as int, PRICE_DECIMALS as nat).0,
        normalized(t as int, PRICE_DECIMALS as nat).1,
    )
}

/// The text of a quantity, at the lowest scale that holds it.
pub open spec fn qty_digits(q: Qty) -> Seq<char> {
    decimal_digits(
        normalized(q as int, QTY_DECIMALS as nat).0,
        normalized(q as int, QTY_DECIMALS as nat).1,
    )
}

/// The canonical name of a trading pair: base, underscore, quote.
pub open spec fn pair_name(base: Seq<char>, quote: Seq<char>) -> Seq<char> {
    base + "_"@ + quote
}

/// What the host is told when a limit order has come to rest.
pub open spec fn limit_accepted_message(
    side: BidOrAsk,
    size: Seq<char>,
    pair: Seq<char>,
    price: Seq<char>,
) -> Seq<char> {
    " received "@ + side_name(side) + " order with size "@ + size + " in pair "@ + pair
        + " on price "@ + price
}

/// The word for a side in the crossing message.
pub open spec fn side_verb(side: BidOrAsk) -> Seq<char> {
    match side {
        BidOrAsk::Ask => "sell"@,
        BidOrAsk::Bid => "buy"@,
    }
}

/// What the host is told when a limit order would cross the opposing best.
pub open spec fn crossing_message(side: BidOrAsk, price: Seq<char>) -> Seq<char> {
    "You can not place a "@ + side_verb(side) + " order on that price "@ + price
        + ". Try a market order."@
}

/// What the host is told when a market order has been filled.
pub open spec fn market_filled_message(filled: Seq<char>, side: BidOrAsk) -> Seq<char> {
    "Successfully filled "@ + filled + " "@ + side_name(side) + " market orders"@
}

/// What the host is told when the opposing side cannot fill a market order.
pub open spec fn insufficient_message(side: BidOrAsk) -> Seq<char> {
    match side {
        BidOrAsk::Bid => "Not enough ask orders to fill this buy"@,
        BidOrAsk::Ask => "Not enough bid orders to fill this sell"@,
    }
}

/// What the host is told when it names a market that is not registered.
pub open spec fn unknown_market_message(pair: Seq<char>) -> Seq<char> {
    "the orderbook "@ + pair + " doesn't exist "@
}

/// What the host is told when a side cannot account for more volume.
pub open spec fn capacity_message(side: BidOrAsk, size: Seq<char>, pair: Seq<char>) -> Seq<
    char,
> {
    "The "@ + side_name(side) + " side of "@ + pair + " can not hold another "@ + size
}

/// The decimal text of a price.
pub fn price_text(p: Price) -> (r: String)
    ensures
        r@ == decimal_digits(p.spec_mantissa(), p.spec_scale()),
{
    decimal_text(p.mantissa(), p.scale())
}

/// The decimal text of a tick's price.
pub fn tick_text(t: Tick) -> (r: String)
    ensures
        r@ == tick_digits(t),
{
    price_text(tick_to_price(t))
}

/// The decimal text of a quantity.
pub fn qty_text(q: Qty) -> (r: String)
    ensures
        r@ == qty_digits(q),
{
    let (m, s) = normalize(q as i128, QTY_DECIMALS);
    decimal_text(m, s)
}

/// Builds the canonical name of a trading pair.
pub fn pair_text(base: &str, quote: &str) -> (r: String)
    ensures
        r@ == pair_name(base@, quote@),
{
    let mut r = String::from_str(base);
    r.append("_");
    r.append(quote);
    r
}

/// Builds the message for a limit order that has come to rest.
pub fn limit_accepted_text(side: BidOrAsk, size: &str, pair: &str, price: &str) -> (r: String)
    ensures
        r@ == limit_accepted_message(side, size@, pair@, price@),
{
    let mut r = String::from_str(" received ");
    r.append(side_text(side).as_str());
    r.append(" order with size ");
    r.append(size);
    r.append(" in pair ");
    r.append(pair);
    r.append(" on price ");
    r.append(price);
    r
}

/// Builds the message for a limit order that would cross.
pub fn crossing_text(side: BidOrAsk, price: &str) -> (r: String)
    ensures
        r@ == crossing_message(side, price@),
{
    let mut r = String::from_str("You can not place a ");
    match side {
        BidOrAsk::Ask => r.append("sell"),
        BidOrAsk::Bid => r.append("buy"),
    }
    r.append(" order on that price ");
    r.append(price);
    r.append(". Try a market order.");
    r
}

/// Builds the message for a market order that has been filled.
pub fn market_filled_text(filled: &str, side: BidOrAsk) -> (r: String)
    ensures
        r@ == market_filled_message(filled@, side),
{
    let mut r = String::from_str("Successfully filled ");
    r.append(filled);
    r.append(" ");
    r.append(side_text(side).as_str());
    r.append(" market orders");
    r
}

/// Builds the message for a market order that the opposing side cannot fill.
pub fn insufficient_text(side: BidOrAsk) -> (r: String)
    ensures
        r@ == insufficient_message(side),
{
    match side {
        BidOrAsk::Bid => String::from_str("Not enough ask orders to fill this buy"),
        BidOrAsk::Ask => String::from_str("Not enough bid orders to fill this sell"),
    }
}

/// Builds the message for a market that is not registered.
pub fn unknown_market_text(pair: &str) -> (r: String)
    ensures
        r@ == unknown_market_message(pair@),
{
    let mut r = String::from_str("the orderbook ");
    r.append(pair);
    r.append(" doesn't exist ");
    r
}

/// Builds the message for a side that cannot account for more volume.
pub fn capacity_text(side: BidOrAsk, size: &str, pair: &str) -> (r: String)
    ensures
        r@ == capacity_message(side, size@, pair@),
{
    let mut r = String::from_str("The ");
    r.append(side_text(side).as_str());
    r.append(" side of ");
    r.append(pair);
    r.append(" can not hold another ");
    r.append(size);
    r
}

} // verus!
