//! The wire format: decoding one whitespace-delimited order record from a
//! line of input bytes, and rendering one trade as a line of output bytes.
//! Reading and writing the streams themselves is the caller's business; this
//! module only computes.

use vstd::prelude::*;

use crate::engine::append_copies;
use crate::order::Order;
use crate::order::Side;
use crate::order::Trade;

verus! {

/// A field separator: space or tab.
pub open spec fn is_ws(b: u8) -> bool {
    b == 32 || b == 9
}

/// An ASCII decimal digit.
pub open spec fn is_digit(b: u8) -> bool {
    48 <= b && b <= 57
}

/// Every byte of `s` is a decimal digit.
pub open spec fn all_digits(s: Seq<u8>) -> bool {
    forall|i: int| 0 <= i < s.len() ==> is_digit(s[i])
}

/// The value of a digit string, most significant digit first.
pub open spec fn dec_val(s: Seq<u8>) -> nat
    decreases s.len(),
{
    if s.len() == 0 {
        0
    } else {
        dec_val(s.drop_last()) * 10 + (s.last() - 48) as nat
    }
}

/// A token that denotes an unsigned integer no greater than `max`.
pub open spec fn dec_ok(s: Seq<u8>, max: nat) -> bool {
    s.len() > 0 && all_digits(s) && dec_val(s) <= max
}

/// Where the word starting at `i` ends: the first position at or after `i`
/// holding a separator, or the end of the input.
pub open spec fn word_end(s: Seq<u8>, i: int) -> int
    decreases s.len() - i,
{
    if i < 0 || i >= s.len() || is_ws(s[i]) {
        i
    } else {
        word_end(s, i + 1)
    }
}

/// The word starting at `i` runs to its end without separators, and ends at
/// one or at the end of the input.
pub proof fn lemma_word_end(s: Seq<u8>, i: int)
    requires
        0 <= i <= s.len(),
    ensures
        i <= word_end(s, i) <= s.len(),
        forall|k: int| i <= k < word_end(s, i) ==> !is_ws(s[k]),
        word_end(s, i) < s.len() ==> is_ws(s[word_end(s, i)]),
    decreases s.len() - i,
{
    if i < s.len() && !is_ws(s[i]) {
        lemma_word_end(s, i + 1);
    }
}

/// The whitespace-delimited tokens of `s` from position `i` on.
pub open spec fn tokens_from(s: Seq<u8>, i: int) -> Seq<Seq<u8>>
    decreases s.len() - i,
    via tokens_from_decreases
{
    if i < 0 || i >= s.len() {
        Seq::<Seq<u8>>::empty()
    } else if is_ws(s[i]) {
        tokens_from(s, i + 1)
    } else {
        seq![s.subrange(i, word_end(s, i))] + tokens_from(s, word_end(s, i))
    }
}

#[via_fn]
proof fn tokens_from_decreases(s: Seq<u8>, i: int) {
    if 0 <= i < s.len() && !is_ws(s[i]) {
        lemma_word_end(s, i + 1);
    }
}

/// The tokens of the whole input.
pub open spec fn tokens_of(s: Seq<u8>) -> Seq<Seq<u8>> {
    tokens_from(s, 0)
}

/// Word ends only depend on the input from the position on: a common prefix
/// shifts them.
proof fn lemma_word_end_shift(x: Seq<u8>, y: Seq<u8>, j: int)
    requires
        0 <= j <= y.len(),
    ensures
        word_end(x + y, x.len() + j) == x.len() + word_end(y, j),
    decreases y.len() - j,
{
    if j < y.len() {
        assert((x + y)[x.len() + j] == y[j]);
        if !is_ws(y[j]) {
            lemma_word_end_shift(x, y, j + 1);
        }
    }
}

/// Tokens only depend on the input from the position on: a common prefix
/// shifts them.
proof fn lemma_tokens_from_shift(x: Seq<u8>, y: Seq<u8>, j: int)
    requires
        0 <= j <= y.len(),
    ensures
        tokens_from(x + y, x.len() + j) == tokens_from(y, j),
    decreases y.len() - j,
{
    if j < y.len() {
        assert((x + y)[x.len() + j] == y[j]);
        if is_ws(y[j]) {
            lemma_tokens_from_shift(x, y, j + 1);
        } else {
            lemma_word_end_shift(x, y, j);
            lemma_word_end(y, j);
            let we = word_end(y, j);
            assert((x + y).subrange(x.len() + j, x.len() + we) =~= y.subrange(j, we));
            lemma_tokens_from_shift(x, y, we);
        }
    }
}

/// A leading word, closed off by a separator or the end of the input, is the
/// first token; the rest of the input supplies the rest.
proof fn lemma_tokens_peel_word(w: Seq<u8>, rest: Seq<u8>)
    requires
        w.len() > 0,
        forall|i: int| 0 <= i < w.len() ==> !is_ws(w[i]),
        rest.len() == 0 || is_ws(rest[0]),
    ensures
        tokens_of(w + rest) == seq![w] + tokens_of(rest),
{
    let s = w + rest;
    assert(s[0] == w[0]);
    lemma_word_end(s, 0);
    let we = word_end(s, 0);
    assert forall|k: int| 0 <= k < w.len() implies !is_ws(s[k]) by {
        assert(s[k] == w[k]);
    }
    if we < w.len() {
        assert(!is_ws(s[we]));
    }
    if w.len() < we {
        assert(w.len() < s.len());
        assert(s[w.len() as int] == rest[0]);
        assert(!is_ws(s[w.len() as int]));
    }
    assert(we == w.len());
    assert(s.subrange(0, w.len() as int) =~= w);
    lemma_tokens_from_shift(w, rest, 0);
}

/// A leading separator contributes nothing: the rest of the input supplies
/// all the tokens.
proof fn lemma_tokens_peel_ws(sp: Seq<u8>, rest: Seq<u8>)
    requires
        sp.len() == 1,
        is_ws(sp[0]),
    ensures
        tokens_of(sp + rest) == tokens_of(rest),
{
    let s = sp + rest;
    assert(s[0] == sp[0]);
    lemma_tokens_from_shift(sp, rest, 0);
}

/// The views of a vector of byte tokens.
pub open spec fn views_of(ts: Seq<Vec<u8>>) -> Seq<Seq<u8>> {
    ts.map_values(|t: Vec<u8>| t@)
}

/// Splits the input into its whitespace-delimited tokens, in order.
pub fn tokenize(s: &Vec<u8>) -> (tokens: Vec<Vec<u8>>)
    ensures
        views_of(tokens@) == tokens_of(s@),
{
    let mut tokens: Vec<Vec<u8>> = Vec::new();
    let mut i: usize = 0;
    while i < s.len()
        invariant
            0 <= i <= s@.len(),
            tokens_of(s@) == views_of(tokens@) + tokens_from(s@, i as int),
        decreases s@.len() - i,
    {
        if s[i] == 32 || s[i] == 9 {
            i = i + 1;
        } else {
            let start = i;
            let mut w: Vec<u8> = Vec::new();
            while i < s.len() && s[i] != 32 && s[i] != 9
                invariant
                    start <= i <= s@.len(),
                    forall|k: int| start <= k < i ==> !is_ws(s@[k]),
                    w@ == s@.subrange(start as int, i as int),
                decreases s@.len() - i,
            {
                w.push(s[i]);
                proof {
                    assert(w@ =~= s@.subrange(start as int, i + 1));
                }
                i = i + 1;
            }
            proof {
                lemma_word_end(s@, start as int);
                let we = word_end(s@, start as int);
                if (i as int) < we {
                    assert(!is_ws(s@[i as int]));
                }
                if we < i as int {
                    assert(!is_ws(s@[we]));
                }
                assert(i as int == we);
            }
            let ghost before = tokens@;
            tokens.push(w);
            proof {
                assert(views_of(tokens@) =~= views_of(before).push(w@));
                assert(views_of(before).push(w@) + tokens_from(s@, i as int) =~= views_of(before)
                    + (seq![w@] + tokens_from(s@, i as int)));
                assert(tokens_from(s@, start as int) == seq![w@] + tokens_from(s@, i as int));
            }
        }
    }
    proof {
        assert(views_of(tokens@) + Seq::<Seq<u8>>::empty() =~= views_of(tokens@));
    }
    tokens
}

/// Parses a decimal token as an unsigned 64-bit integer. Returns the value
/// exactly when the token is nonempty, all digits, and in range.
pub fn parse_u64(t: &Vec<u8>) -> (r: Option<u64>)
    ensures
        r is Some <==> dec_ok(t@, u64::MAX as nat),
        r is Some ==> r->0 == dec_val(t@),
{
    if t.len() == 0 {
        return None;
    }
    let mut acc: u64 = 0;
    let mut i: usize = 0;
    while i < t.len()
        invariant
            0 <= i <= t@.len(),
            all_digits(t@.take(i as int)),
            acc == dec_val(t@.take(i as int)),
        decreases t@.len() - i,
    {
        let b = t[i];
        if b < 48 || b > 57 {
            return None;
        }
        let d = (b - 48) as u64;
        proof {
            assert(t@.take(i + 1).drop_last() =~= t@.take(i as int));
            assert(t@.take(i + 1).last() == t@[i as int]);
        }
        proof {
            assert(dec_val(t@.take(i + 1)) == dec_val(t@.take(i as int)) * 10 + d);
        }
        if acc > u64::MAX / 10 {
            proof {
                assert(dec_val(t@.take(i + 1)) > u64::MAX);
                lemma_dec_val_take_le(t@, i + 1, t@.len() as int);
                assert(t@.take(t@.len() as int) =~= t@);
            }
            return None;
        }
        acc = acc * 10;
        if acc > u64::MAX - d {
            proof {
                assert(dec_val(t@.take(i + 1)) > u64::MAX);
                lemma_dec_val_take_le(t@, i + 1, t@.len() as int);
                assert(t@.take(t@.len() as int) =~= t@);
            }
            return None;
        }
        acc = acc + d;
        i = i + 1;
    }
    proof {
        assert(t@.take(t@.len() as int) =~= t@);
    }
    Some(acc)
}

/// A longer digit prefix denotes at least as large a value.
pub proof fn lemma_dec_val_take_le(s: Seq<u8>, i: int, j: int)
    requires
        0 <= i <= j <= s.len(),
    ensures
        dec_val(s.take(i)) <= dec_val(s.take(j)),
    decreases j - i,
{
    if i < j {
        lemma_dec_val_take_le(s, i, j - 1);
        assert(s.take(j).drop_last() =~= s.take(j - 1));
    }
}

/// Parses a decimal token as an unsigned 32-bit integer. Returns the value
/// exactly when the token is nonempty, all digits, and in range.
pub fn parse_u32(t: &Vec<u8>) -> (r: Option<u32>)
    ensures
        r is Some <==> dec_ok(t@, u32::MAX as nat),
        r is Some ==> r->0 == dec_val(t@),
{
    match parse_u64(t) {
        None => None,
        Some(v) => if v <= u32::MAX as u64 {
            Some(v as u32)
        } else {
            None
        },
    }
}

/// `s` with every trailing colon removed.
pub open spec fn strip_colons(s: Seq<u8>) -> Seq<u8>
    decreases s.len(),
{
    if s.len() > 0 && s.last() == 58 {
        strip_colons(s.drop_last())
    } else {
        s
    }
}

/// Removes the trailing colon (or colons) an order-id field carries.
pub fn strip_trailing_colons(t: &Vec<u8>) -> (r: Vec<u8>)
    ensures
        r@ == strip_colons(t@),
{
    let mut r: Vec<u8> = Vec::new();
    let mut i: usize = 0;
    while i < t.len()
        invariant
            0 <= i <= t@.len(),
            r@ == t@.take(i as int),
        decreases t@.len() - i,
    {
        r.push(t[i]);
        proof {
            assert(r@ =~= t@.take(i + 1));
        }
        i = i + 1;
    }
    proof {
        assert(t@.take(t@.len() as int) =~= t@);
    }
    while r.len() > 0 && r[r.len() - 1] == 58
        invariant
            strip_colons(r@) == strip_colons(t@),
        decreases r@.len(),
    {
        let ghost before = r@;
        r.pop();
        proof {
            assert(r@ =~= before.drop_last());
        }
    }
    r
}

/// Why a record was rejected. The policy is the robust one: a caller skips
/// the rejected record and goes on with the next.
#[derive(Clone, Copy, Debug, PartialEq, Eq, Structural)]
pub enum ParseError {
    /// Fewer than the six required fields.
    TooFewFields,
    /// The side keyword is neither `Buy` nor `Sell` (case-sensitive).
    UnknownSide,
    /// The id, quantity or price field is not an unsigned integer in range.
    BadInteger,
    /// The quantity field is zero: such an order could neither rest nor
    /// fill, so it is rejected with the malformed records.
    ZeroQuantity,
}

/// The `Buy` side keyword.
pub open spec fn buy_kw() -> Seq<u8> {
    seq![66u8, 117u8, 121u8]
}

/// The `Sell` side keyword.
pub open spec fn sell_kw() -> Seq<u8> {
    seq![83u8, 101u8, 108u8, 108u8]
}

/// What decoding a record yields: field 0 is the order id with its trailing
/// colon stripped, field 1 the side keyword, field 2 the quantity, field 5
/// the price; fields 3, 4 and any further ones are uninterpreted.
pub open spec fn parse_spec(s: Seq<u8>) -> Result<Order, ParseError> {
    let ts = tokens_of(s);
    if ts.len() < 6 {
        Result::<Order, ParseError>::Err(ParseError::TooFewFields)
    } else if ts[1] != buy_kw() && ts[1] != sell_kw() {
        Result::<Order, ParseError>::Err(ParseError::UnknownSide)
    } else if !dec_ok(strip_colons(ts[0]), u64::MAX as nat) || !dec_ok(ts[2], u32::MAX as nat)
        || !dec_ok(ts[5], u32::MAX as nat) {
        Result::<Order, ParseError>::Err(ParseError::BadInteger)
    } else if dec_val(ts[2]) == 0 {
        Result::<Order, ParseError>::Err(ParseError::ZeroQuantity)
    } else {
        Result::<Order, ParseError>::Ok(
            Order {
                id: dec_val(strip_colons(ts[0])) as u64,
                side: if ts[1] == buy_kw() {
                    Side::Buy
                } else {
                    Side::Sell
                },
                price: dec_val(ts[5]) as u32,
                quantity: dec_val(ts[2]) as u32,
            },
        )
    }
}

/// Whether a token is exactly the `Buy` keyword.
fn is_buy_kw(t: &Vec<u8>) -> (r: bool)
    ensures
        r == (t@ == buy_kw()),
{
    let r = t.len() == 3 && t[0] == 66 && t[1] == 117 && t[2] == 121;
    proof {
        if r {
            assert(t@ =~= buy_kw());
        }
    }
    r
}

/// Whether a token is exactly the `Sell` keyword.
fn is_sell_kw(t: &Vec<u8>) -> (r: bool)
    ensures
        r == (t@ == sell_kw()),
{
    let r = t.len() == 4 && t[0] == 83 && t[1] == 101 && t[2] == 108 && t[3] == 108;
    proof {
        if r {
            assert(t@ =~= sell_kw());
        }
    }
    r
}

/// Decodes one input record. Returns the order exactly when the record has
/// at least six fields, a recognised side keyword, in-range integer id,
/// quantity and price fields, and a nonzero quantity; otherwise says which
/// of these failed, the first in that order.
pub fn parse_order(line: &Vec<u8>) -> (r: Result<Order, ParseError>)
    ensures
        r == parse_spec(line@),
{
    let tokens = tokenize(line);
    proof {
        assert(views_of(tokens@).len() == tokens@.len());
    }
    if tokens.len() < 6 {
        return Err(ParseError::TooFewFields);
    }
    proof {
        assert(views_of(tokens@)[0] == tokens@[0]@);
        assert(views_of(tokens@)[1] == tokens@[1]@);
        assert(views_of(tokens@)[2] == tokens@[2]@);
        assert(views_of(tokens@)[5] == tokens@[5]@);
    }
    let buy = is_buy_kw(&tokens[1]);
    let sell = is_sell_kw(&tokens[1]);
    if !buy && !sell {
        return Err(ParseError::UnknownSide);
    }
    let id_tok = strip_trailing_colons(&tokens[0]);
    let id_opt = parse_u64(&id_tok);
    let qty_opt = parse_u32(&tokens[2]);
    let price_opt = parse_u32(&tokens[5]);
    match (id_opt, qty_opt, price_opt) {
        (Some(id), Some(quantity), Some(price)) => {
            if quantity == 0 {
                Err(ParseError::ZeroQuantity)
            } else {
                Ok(
                    Order {
                        id,
                        side: if buy {
                            Side::Buy
                        } else {
                            Side::Sell
                        },
                        price,
                        quantity,
                    },
                )
            }
        },
        _ => Err(ParseError::BadInteger),
    }
}

/// The shortest decimal digit string denoting `n`, most significant digit
/// first.
pub open spec fn dec_repr(n: nat) -> Seq<u8>
    decreases n,
{
    if n < 10 {
        seq![(48 + n) as u8]
    } else {
        dec_repr(n / 10).push((48 + n % 10) as u8)
    }
}

/// A rendered number is a nonempty digit string that denotes exactly the
/// number rendered: the decoder reads back what the renderer wrote.
pub proof fn lemma_dec_repr_val(n: nat)
    ensures
        dec_repr(n).len() > 0,
        all_digits(dec_repr(n)),
        dec_val(dec_repr(n)) == n,
    decreases n,
{
    if n < 10 {
        assert(dec_repr(n) =~= seq![(48 + n) as u8]);
        assert(dec_repr(n).drop_last() =~= Seq::<u8>::empty());
        assert(((48 + n) as u8) as int == 48 + n);
        assert(dec_repr(n).last() == (48 + n) as u8);
        assert(dec_val(dec_repr(n)) == dec_val(Seq::<u8>::empty()) * 10 + ((48 + n) as u8
            - 48) as nat);
    } else {
        lemma_dec_repr_val(n / 10);
        assert(dec_repr(n) == dec_repr(n / 10).push((48 + n % 10) as u8));
        assert(dec_repr(n).drop_last() =~= dec_repr(n / 10));
        assert(dec_repr(n).last() == (48 + n % 10) as u8);
        assert(dec_val(dec_repr(n)) == dec_val(dec_repr(n / 10)) * 10 + ((48 + n % 10) as u8
            - 48) as nat);
        assert(dec_val(dec_repr(n)) == (n / 10) * 10 + n % 10);
        assert forall|i: int| 0 <= i < dec_repr(n).len() implies is_digit(dec_repr(n)[i]) by {
            if i < dec_repr(n).len() - 1 {
                assert(dec_repr(n)[i] == dec_repr(n / 10)[i]);
            }
        }
    }
}

/// Renders an unsigned 64-bit integer in decimal.
pub fn fmt_u64(n: u64) -> (r: Vec<u8>)
    ensures
        r@ == dec_repr(n as nat),
    decreases n,
{
    if n < 10 {
        let mut r: Vec<u8> = Vec::new();
        r.push(48 + n as u8);
        proof {
            assert(r@ =~= dec_repr(n as nat));
        }
        r
    } else {
        let mut r = fmt_u64(n / 10);
        r.push(48 + (n % 10) as u8);
        r
    }
}

/// Renders an unsigned 32-bit integer in decimal.
pub fn fmt_u32(n: u32) -> (r: Vec<u8>)
    ensures
        r@ == dec_repr(n as nat),
{
    fmt_u64(n as u64)
}

/// The opening of a trade line: `Trade: `.
pub open spec fn lit_trade() -> Seq<u8> {
    seq![84u8, 114u8, 97u8, 100u8, 101u8, 58u8, 32u8]
}

/// The unit separator of a trade line: ` BTC @ `.
pub open spec fn lit_btc_at() -> Seq<u8> {
    seq![32u8, 66u8, 84u8, 67u8, 32u8, 64u8, 32u8]
}

/// The currency separator of a trade line: ` USD between `.
pub open spec fn lit_usd_between() -> Seq<u8> {
    seq![32u8, 85u8, 83u8, 68u8, 32u8, 98u8, 101u8, 116u8, 119u8, 101u8, 101u8, 110u8, 32u8]
}

/// The id separator of a trade line: ` and `.
pub open spec fn lit_and() -> Seq<u8> {
    seq![32u8, 97u8, 110u8, 100u8, 32u8]
}

/// One output line:
/// `Trade: <quantity> BTC @ <price> USD between <buyer_id> and <seller_id>`.
pub open spec fn trade_line_spec(t: Trade) -> Seq<u8> {
    lit_trade() + dec_repr(t.quantity as nat) + lit_btc_at() + dec_repr(t.price as nat)
        + lit_usd_between() + dec_repr(t.buyer_order_id as nat) + lit_and() + dec_repr(
        t.seller_order_id as nat,
    )
}

/// The opening of a trade line, as bytes.
fn lit_trade_vec() -> (r: Vec<u8>)
    ensures
        r@ == lit_trade(),
{
    let mut r: Vec<u8> = Vec::new();
    r.push(84);
    r.push(114);
    r.push(97);
    r.push(100);
    r.push(101);
    r.push(58);
    r.push(32);
    proof {
        assert(r@ =~= lit_trade());
    }
    r
}

/// The unit separator, as bytes.
fn lit_btc_at_vec() -> (r: Vec<u8>)
    ensures
        r@ == lit_btc_at(),
{
    let mut r: Vec<u8> = Vec::new();
    r.push(32);
    r.push(66);
    r.push(84);
    r.push(67);
    r.push(32);
    r.push(64);
    r.push(32);
    proof {
        assert(r@ =~= lit_btc_at());
    }
    r
}

/// The currency separator, as bytes.
fn lit_usd_between_vec() -> (r: Vec<u8>)
    ensures
        r@ == lit_usd_between(),
{
    let mut r: Vec<u8> = Vec::new();
    r.push(32);
    r.push(85);
    r.push(83);
    r.push(68);
    r.push(32);
    r.push(98);
    r.push(101);
    r.push(116);
    r.push(119);
    r.push(101);
    r.push(101);
    r.push(110);
    r.push(32);
    proof {
        assert(r@ =~= lit_usd_between());
    }
    r
}

/// The id separator, as bytes.
fn lit_and_vec() -> (r: Vec<u8>)
    ensures
        r@ == lit_and(),
{
    let mut r: Vec<u8> = Vec::new();
    r.push(32);
    r.push(97);
    r.push(110);
    r.push(100);
    r.push(32);
    proof {
        assert(r@ =~= lit_and());
    }
    r
}

/// The separator after an order id: `: `.
pub open spec fn lit_id_sep() -> Seq<u8> {
    seq![58u8, 32u8]
}

/// A single space.
pub open spec fn lit_space() -> Seq<u8> {
    seq![32u8]
}

/// The closing currency token of an order line: ` USD`.
pub open spec fn lit_usd() -> Seq<u8> {
    seq![32u8, 85u8, 83u8, 68u8]
}

/// One order as a record line:
/// `<id>: <Buy|Sell> <quantity> BTC @ <price> USD`.
pub open spec fn order_line_spec(o: Order) -> Seq<u8> {
    dec_repr(o.id as nat) + lit_id_sep() + (if o.side == Side::Buy {
        buy_kw()
    } else {
        sell_kw()
    }) + lit_space() + dec_repr(o.quantity as nat) + lit_btc_at() + dec_repr(o.price as nat)
        + lit_usd()
}

/// Round trip: a rendered order line decodes to exactly the order that was
/// rendered.
#[verifier::rlimit(60)]
pub proof fn lemma_order_line_round_trip(o: Order)
    requires
        o.quantity > 0,
    ensures
        parse_spec(order_line_spec(o)) == Result::<Order, ParseError>::Ok(o),
{
    let d_id = dec_repr(o.id as nat);
    let kw = if o.side == Side::Buy {
        buy_kw()
    } else {
        sell_kw()
    };
    let d_q = dec_repr(o.quantity as nat);
    let d_p = dec_repr(o.price as nat);
    let sp = seq![32u8];
    let btc = seq![66u8, 84u8, 67u8];
    let at = seq![64u8];
    let usd = seq![85u8, 83u8, 68u8];
    let w1 = d_id.push(58u8);
    lemma_dec_repr_val(o.id as nat);
    lemma_dec_repr_val(o.quantity as nat);
    lemma_dec_repr_val(o.price as nat);

    let s7 = usd;
    let s6 = d_p + (sp + s7);
    let s5 = at + (sp + s6);
    let s4 = btc + (sp + s5);
    let s3 = d_q + (sp + s4);
    let s2 = kw + (sp + s3);
    let s1 = w1 + (sp + s2);
    assert(order_line_spec(o) =~= s1);

    assert forall|i: int| 0 <= i < w1.len() implies !is_ws(w1[i]) by {
        if i < d_id.len() {
            assert(is_digit(d_id[i]));
        }
    }
    assert forall|i: int| 0 <= i < kw.len() implies !is_ws(kw[i]) by {}
    assert forall|i: int| 0 <= i < d_q.len() implies !is_ws(d_q[i]) by {
        assert(is_digit(d_q[i]));
    }
    assert forall|i: int| 0 <= i < d_p.len() implies !is_ws(d_p[i]) by {
        assert(is_digit(d_p[i]));
    }

    lemma_tokens_peel_word(w1, sp + s2);
    lemma_tokens_peel_ws(sp, s2);
    lemma_tokens_peel_word(kw, sp + s3);
    lemma_tokens_peel_ws(sp, s3);
    lemma_tokens_peel_word(d_q, sp + s4);
    lemma_tokens_peel_ws(sp, s4);
    lemma_tokens_peel_word(btc, sp + s5);
    lemma_tokens_peel_ws(sp, s5);
    lemma_tokens_peel_word(at, sp + s6);
    lemma_tokens_peel_ws(sp, s6);
    lemma_tokens_peel_word(d_p, sp + s7);
    lemma_tokens_peel_ws(sp, s7);
    lemma_tokens_peel_word(usd, Seq::<u8>::empty());
    assert(usd + Seq::<u8>::empty() =~= usd);

    let ts = tokens_of(order_line_spec(o));
    assert(ts =~= seq![w1, kw, d_q, btc, at, d_p, usd]);
    assert(ts.len() == 7);
    assert(ts[0] == w1 && ts[1] == kw && ts[2] == d_q && ts[5] == d_p);

    assert(w1.last() == 58u8);
    assert(w1.drop_last() =~= d_id);
    assert(d_id.last() != 58u8);
    assert(strip_colons(w1) == strip_colons(d_id));
    assert(strip_colons(d_id) == d_id);

    assert(buy_kw().len() == 3 && sell_kw().len() == 4);
    assert(dec_ok(strip_colons(ts[0]), u64::MAX as nat));
    assert(dec_ok(ts[2], u32::MAX as nat));
    assert(dec_ok(ts[5], u32::MAX as nat));
    assert(dec_val(ts[2]) == o.quantity);
}

/// Renders an order in the same shape the decoder reads.
pub fn render_order(o: &Order) -> (r: Vec<u8>)
    ensures
        r@ == order_line_spec(*o),
{
    let mut r = fmt_u64(o.id);
    r.push(58);
    r.push(32);
    proof {
        assert(r@ =~= dec_repr(o.id as nat) + lit_id_sep());
    }
    match o.side {
        Side::Buy => {
            r.push(66);
            r.push(117);
            r.push(121);
            proof {
                assert(r@ =~= dec_repr(o.id as nat) + lit_id_sep() + buy_kw());
            }
        },
        Side::Sell => {
            r.push(83);
            r.push(101);
            r.push(108);
            r.push(108);
            proof {
                assert(r@ =~= dec_repr(o.id as nat) + lit_id_sep() + sell_kw());
            }
        },
    }
    r.push(32);
    proof {
        assert(r@ =~= dec_repr(o.id as nat) + lit_id_sep() + (if o.side == Side::Buy {
            buy_kw()
        } else {
            sell_kw()
        }) + lit_space());
    }
    let quantity = fmt_u32(o.quantity);
    append_copies(&mut r, &quantity);
    let sep_unit = lit_btc_at_vec();
    append_copies(&mut r, &sep_unit);
    let price = fmt_u32(o.price);
    append_copies(&mut r, &price);
    r.push(32);
    r.push(85);
    r.push(83);
    r.push(68);
    proof {
        assert(r@ =~= order_line_spec(*o));
    }
    r
}

/// Renders one trade as its output line.
pub fn render_trade(t: &Trade) -> (r: Vec<u8>)
    ensures
        r@ == trade_line_spec(*t),
{
    let mut r = lit_trade_vec();
    let quantity = fmt_u32(t.quantity);
    append_copies(&mut r, &quantity);
    let sep_unit = lit_btc_at_vec();
    append_copies(&mut r, &sep_unit);
    let price = fmt_u32(t.price);
    append_copies(&mut r, &price);
    let sep_currency = lit_usd_between_vec();
    append_copies(&mut r, &sep_currency);
    let buyer = fmt_u64(t.buyer_order_id);
    append_copies(&mut r, &buyer);
    let sep_ids = lit_and_vec();
    append_copies(&mut r, &sep_ids);
    let seller = fmt_u64(t.seller_order_id);
    append_copies(&mut r, &seller);
    r
}

} // verus!
