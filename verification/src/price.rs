//! Prices: exact amounts in cents, of any size.

use vstd::prelude::*;
use vstd::string::{StrSliceExecFns, StringExecFns};
use crate::bignum::{
    big_add, big_decimal, big_div, big_less, big_literal_message, big_literal_value, big_mul,
    big_parse, big_rem,
    is_big_literal, lemma_without_underscores_of_digits, limbs_is_zero, limbs_low, limbs_value,
};
use crate::decimal::{
    all_digits, append_fixed, decimal_text, digits_value, fixed_digits, is_digit,
    lemma_decimal_text_value, lemma_digits_value_zero, lemma_fixed_digits, parse_bounded,
    parse_unsigned, pow10, to_chars, unsigned_body, IntError,
};
use crate::error::{int_error_message, parse_failure, CommandError, ErrorKind, ErrorView};

verus! {

/// The currency symbol that may end a price.
pub const UNIT: char = '\u{20AC}';

/// The character between the whole units and the cents.
pub const SEPARATOR: char = '.';

/// An exact amount of money, counted in cents.
#[derive(Debug)]
pub struct Price {
    limbs: Vec<u32>,
}

impl View for Price {
    type V = nat;

    /// The amount in cents.
    closed spec fn view(&self) -> nat {
        limbs_value(self.limbs@)
    }
}

/// The index of the first separator in the text, or the length of the text
/// where it has none.
pub open spec fn first_separator(s: Seq<char>) -> int
    decreases s.len(),
{
    if s.len() == 0 {
        0
    } else if s[0] == SEPARATOR {
        0
    } else {
        1 + first_separator(s.drop_first())
    }
}

/// The text without the currency symbol at its end, if it has one.
pub open spec fn price_body(s: Seq<char>) -> Seq<char> {
    if s.len() > 0 && s.last() == UNIT {
        s.drop_last()
    } else {
        s
    }
}

/// The part of a price before its first separator.
pub open spec fn whole_part(body: Seq<char>) -> Seq<char> {
    body.take(first_separator(body))
}

/// The part of a price after its first separator; empty without one.
pub open spec fn fraction_part(body: Seq<char>) -> Seq<char> {
    if first_separator(body) < body.len() {
        body.skip(first_separator(body) + 1)
    } else {
        Seq::<char>::empty()
    }
}

/// The message for a price with more than one separator.
pub open spec fn multiple_separators_message() -> Seq<char> {
    "Cannot have multiple decimal separators in price"@
}

/// The message for a price with a fraction of a cent.
pub open spec fn precision_message() -> Seq<char> {
    "Price only has 2 digits of precision"@
}

/// The message for a price of zero.
pub open spec fn zero_price_message() -> Seq<char> {
    "Price must be non-zero"@
}

/// The cents that the fraction of a price denotes. One digit counts tens of
/// cents. From the third character on, the fraction must be a literal of zero.
pub open spec fn fraction_cents(f: Seq<char>) -> Result<nat, ErrorView> {
    if f.len() == 0 {
        Ok(0)
    } else if f.len() == 1 {
        match parse_unsigned(f, u32::MAX as nat) {
            Ok(d) => Ok(d * 10),
            Err(e) => Err(parse_failure(int_error_message(e))),
        }
    } else {
        let excess = f.skip(2);
        if excess.len() > 0 && !is_big_literal(excess) {
            Err(parse_failure(big_literal_message(excess)))
        } else if excess.len() > 0 && big_literal_value(excess) != 0 {
            Err(parse_failure(precision_message()))
        } else {
            match parse_unsigned(f.take(2), u32::MAX as nat) {
                Ok(d) => Ok(d),
                Err(e) => Err(parse_failure(int_error_message(e))),
            }
        }
    }
}

/// Reads a price: whole units, then optionally a separator and a fraction,
/// then optionally the currency symbol. The amount must not be zero.
pub open spec fn parse_price(s: Seq<char>) -> Result<nat, ErrorView> {
    let body = price_body(s);
    let whole = whole_part(body);
    let fraction = fraction_part(body);
    if first_separator(fraction) < fraction.len() {
        Err(parse_failure(multiple_separators_message()))
    } else if !is_big_literal(whole) {
        Err(parse_failure(big_literal_message(whole)))
    } else {
        match fraction_cents(fraction) {
            Err(e) => Err(e),
            Ok(small) => {
                let cents = big_literal_value(whole) * 100 + small;
                if cents == 0 {
                    Err(parse_failure(zero_price_message()))
                } else {
                    Ok(cents)
                }
            },
        }
    }
}

/// The text of an amount: the whole units, the separator, the cents in two
/// digits, the currency symbol.
pub open spec fn price_text(cents: nat) -> Seq<char> {
    decimal_text(cents / 100) + seq![SEPARATOR] + fixed_digits(cents % 100, 2) + seq![UNIT]
}

/// The first separator stands where no separator stands before.
pub proof fn lemma_first_separator(s: Seq<char>, i: int)
    requires
        0 <= i <= s.len(),
        forall|j: int| 0 <= j < i ==> s[j] != SEPARATOR,
        i == s.len() || s[i] == SEPARATOR,
    ensures
        first_separator(s) == i,
    decreases i,
{
    if i > 0 {
        let rest = s.drop_first();
        assert(s[0] != SEPARATOR);
        assert forall|j: int| 0 <= j < i - 1 implies rest[j] != SEPARATOR by {
            assert(rest[j] == s[j + 1]);
        }
        lemma_first_separator(rest, i - 1);
    }
}

/// Reading the text of a positive amount gives the amount back: writing a
/// price that was read and reading it again changes nothing.
pub proof fn law_price_round_trip(cents: nat)
    requires
        cents > 0,
    ensures
        parse_price(price_text(cents)) == Ok::<nat, ErrorView>(cents),
{
    let whole = decimal_text(cents / 100);
    let fraction = fixed_digits(cents % 100, 2);
    let text = price_text(cents);
    let body = whole + seq![SEPARATOR] + fraction;
    lemma_decimal_text_value(cents / 100);
    lemma_fixed_digits(cents % 100, 2);
    assert(pow10(2) == 100) by {
        reveal_with_fuel(pow10, 3);
    }
    assert(text.last() == UNIT);
    assert(price_body(text) =~= body);
    assert forall|j: int| 0 <= j < whole.len() implies body[j] != SEPARATOR by {
        assert(is_digit(whole[j]));
        assert(body[j] == whole[j]);
    }
    assert(body[whole.len() as int] == SEPARATOR);
    lemma_first_separator(body, whole.len() as int);
    assert(whole_part(body) =~= whole);
    assert(fraction_part(body) =~= fraction);
    assert forall|j: int| 0 <= j < fraction.len() implies fraction[j] != SEPARATOR by {
        assert(is_digit(fraction[j]));
    }
    lemma_first_separator(fraction, fraction.len() as int);
    assert(is_digit(whole[0]));
    assert(unsigned_body(whole) == whole);
    assert(is_big_literal(whole)) by {
        assert forall|i: int| 0 <= i < whole.len() implies is_digit(#[trigger] whole[i])
            || whole[i] == '_' by {
            assert(is_digit(whole[i]));
        }
    }
    lemma_without_underscores_of_digits(whole);
    assert(big_literal_value(whole) == cents / 100);
    assert(fraction.skip(2) =~= Seq::<char>::empty());
    assert(fraction.take(2) =~= fraction);
    assert(is_digit(fraction[0]));
    assert(unsigned_body(fraction) == fraction);
    assert(parse_unsigned(fraction, u32::MAX as nat) == Ok::<nat, IntError>(cents % 100));
    assert(fraction_cents(fraction) == Ok::<nat, ErrorView>(cents % 100));
}

/// Writing a price that was read and reading it again gives the same price,
/// so that reading and writing are idempotent from the first writing on.
pub proof fn law_price_idempotent(s: Seq<char>)
    ensures
        parse_price(s) matches Ok(cents) ==> cents > 0 && parse_price(price_text(cents)) == Ok::<
            nat,
            ErrorView,
        >(cents),
{
    if let Ok(cents) = parse_price(s) {
        law_price_round_trip(cents);
    }
}

/// A price is refused where its fraction is made of digits and has a digit
/// other than `0` behind the second.
pub proof fn law_price_excess_precision(s: Seq<char>, i: int)
    requires
        all_digits(fraction_part(price_body(s))),
        2 <= i < fraction_part(price_body(s)).len(),
        fraction_part(price_body(s))[i] != '0',
    ensures
        parse_price(s) is Err,
{
    let fraction = fraction_part(price_body(s));
    let excess = fraction.skip(2);
    assert forall|j: int| 0 <= j < excess.len() implies is_digit(#[trigger] excess[j]) by {
        assert(excess[j] == fraction[j + 2]);
    }
    assert(is_digit(excess[0]));
    assert(unsigned_body(excess) == excess);
    lemma_without_underscores_of_digits(excess);
    if digits_value(excess) == 0 {
        lemma_digits_value_zero(excess);
        assert(excess[i - 2] == '0');
    }
    assert(fraction_cents(fraction) is Err);
}

/// The index of the first separator in `chars[from..to]`, or `to`.
fn find_separator(chars: &Vec<char>, from: usize, to: usize) -> (r: usize)
    requires
        from <= to <= chars.len(),
    ensures
        from <= r <= to,
        r - from == first_separator(chars@.subrange(from as int, to as int)),
{
    let ghost s = chars@.subrange(from as int, to as int);
    let mut i: usize = from;
    while i < to && chars[i] != SEPARATOR
        invariant
            from <= i <= to <= chars.len(),
            s == chars@.subrange(from as int, to as int),
            forall|j: int| 0 <= j < i - from ==> s[j] != SEPARATOR,
        decreases to - i,
    {
        assert(s[i - from] == chars@[i as int]);
        i += 1;
    }
    proof {
        if i < to {
            assert(s[i - from] == chars@[i as int]);
        }
        lemma_first_separator(s, i - from);
    }
    i
}

impl Price {
    /// Reads the cents of a fraction.
    fn fraction_from(text: &str, chars: &Vec<char>, from: usize, to: usize) -> (r: Result<
        u32,
        CommandError,
    >)
        requires
            chars@ == text@,
            from <= to <= chars.len(),
        ensures
            match fraction_cents(chars@.subrange(from as int, to as int)) {
                Ok(c) => r == Ok::<u32, CommandError>(c as u32) && c < 1000,
                Err(e) => r matches Err(err) && err@ == e,
            },
    {
        let ghost f = chars@.subrange(from as int, to as int);
        let len = to - from;
        if len == 0 {
            Ok(0)
        } else if len == 1 {
            let digit = text.substring_char(from, to);
            match parse_bounded(digit, u32::MAX as u64) {
                Ok(d) => {
                    proof {
                        lemma_one_digit(f);
                    }
                    Ok((d * 10) as u32)
                },
                Err(e) => Err(CommandError::from_int_error(e)),
            }
        } else {
            let ghost excess = f.skip(2);
            assert(excess =~= chars@.subrange(from + 2, to as int));
            assert(f.take(2) =~= chars@.subrange(from as int, from + 2));
            if len > 2 {
                let tail = text.substring_char(from + 2, to);
                match big_parse(tail) {
                    Err(message) => {
                        return Err(CommandError::new(ErrorKind::Parse, message));
                    },
                    Ok(limbs) => {
                        if !limbs_is_zero(&limbs) {
                            return Err(
                                CommandError::fixed(
                                    ErrorKind::Parse,
                                    "Price only has 2 digits of precision",
                                ),
                            );
                        }
                    },
                }
            }
            let digits = text.substring_char(from, from + 2);
            match parse_bounded(digits, u32::MAX as u64) {
                Ok(d) => {
                    proof {
                        lemma_two_digits(f.take(2));
                    }
                    Ok(d as u32)
                },
                Err(e) => Err(CommandError::from_int_error(e)),
            }
        }
    }

    /// Reads a price from its text.
    pub fn from_str(s: &str) -> (r: Result<Price, CommandError>)
        ensures
            match parse_price(s@) {
                Ok(cents) => r matches Ok(p) && p@ == cents,
                Err(e) => r matches Err(err) && err@ == e,
            },
    {
        let chars = to_chars(s);
        let n = chars.len();
        let end: usize = if n > 0 && chars[n - 1] == UNIT { n - 1 } else { n };
        let ghost body = price_body(s@);
        assert(body =~= chars@.subrange(0, end as int));
        let dot = find_separator(&chars, 0, end);
        let ghost whole = whole_part(body);
        let ghost fraction = fraction_part(body);
        assert(whole =~= chars@.subrange(0, dot as int));
        let fraction_start: usize = if dot < end { dot + 1 } else { end };
        assert(fraction =~= chars@.subrange(fraction_start as int, end as int));
        let second = find_separator(&chars, fraction_start, end);
        if second < end {
            return Err(
                CommandError::fixed(
                    ErrorKind::Parse,
                    "Cannot have multiple decimal separators in price",
                ),
            );
        }
        let whole_text = s.substring_char(0, dot);
        let units = match big_parse(whole_text) {
            Err(message) => {
                return Err(CommandError::new(ErrorKind::Parse, message));
            },
            Ok(limbs) => limbs,
        };
        let small = match Self::fraction_from(s, &chars, fraction_start, end) {
            Err(e) => {
                return Err(e);
            },
            Ok(c) => c,
        };
        let scaled = big_mul(&units, 100);
        let cents = big_add(&scaled, small);
        if limbs_is_zero(&cents) {
            return Err(CommandError::fixed(ErrorKind::Parse, "Price must be non-zero"));
        }
        Ok(Price { limbs: cents })
    }

    /// The text of the price.
    pub fn to_string(&self) -> (r: String)
        ensures
            r@ == price_text(self@),
    {
        let units = big_div(&self.limbs, 100);
        let rest = big_rem(&self.limbs, 100);
        let cents = limbs_low(&rest);
        let mut out = big_decimal(&units);
        out.append(".");
        append_fixed(&mut out, cents as u64, 2);
        out.append("\u{20AC}");
        proof {
            reveal_strlit(".");
            reveal_strlit("\u{20AC}");
            assert("."@ =~= seq![SEPARATOR]);
            assert("\u{20AC}"@ =~= seq![UNIT]);
            assert(out@ =~= price_text(self@));
        }
        out
    }

    /// The price of `nights` nights at this price a night.
    pub fn times(&self, nights: u64) -> (r: Price)
        ensures
            r@ == self@ * nights,
    {
        Price { limbs: big_mul(&self.limbs, nights) }
    }

    /// Whether this amount is below the other.
    pub fn less_than(&self, other: &Price) -> (r: bool)
        ensures
            r == (self@ < other@),
    {
        big_less(&self.limbs, &other.limbs)
    }

    /// Whether the two amounts are the same.
    pub fn same_as(&self, other: &Price) -> (r: bool)
        ensures
            r == (self@ == other@),
    {
        !big_less(&self.limbs, &other.limbs) && !big_less(&other.limbs, &self.limbs)
    }
}

impl PartialEq for Price {
    /// Whether the two amounts are the same.
    fn eq(&self, other: &Self) -> (r: bool) {
        self.same_as(other)
    }
}

impl vstd::std_specs::cmp::PartialEqSpecImpl for Price {
    open spec fn obeys_eq_spec() -> bool {
        true
    }

    open spec fn eq_spec(&self, other: &Self) -> bool {
        self@ == other@
    }
}

impl Eq for Price {

}

impl PartialOrd for Price {
    /// The order of the two amounts.
    fn partial_cmp(&self, other: &Self) -> (r: Option<std::cmp::Ordering>) {
        if self.less_than(other) {
            Some(std::cmp::Ordering::Less)
        } else if other.less_than(self) {
            Some(std::cmp::Ordering::Greater)
        } else {
            Some(std::cmp::Ordering::Equal)
        }
    }
}

impl vstd::std_specs::cmp::PartialOrdSpecImpl for Price {
    open spec fn obeys_partial_cmp_spec() -> bool {
        true
    }

    open spec fn partial_cmp_spec(&self, other: &Self) -> Option<std::cmp::Ordering> {
        if self@ < other@ {
            Some(std::cmp::Ordering::Less)
        } else if other@ < self@ {
            Some(std::cmp::Ordering::Greater)
        } else {
            Some(std::cmp::Ordering::Equal)
        }
    }
}

impl Clone for Price {
    fn clone(&self) -> (r: Self)
        ensures
            r@ == self@,
    {
        let limbs = self.limbs.clone();
        assert(limbs@ =~= self.limbs@);
        Price { limbs }
    }
}

/// One character that reads as a number is a digit.
proof fn lemma_one_digit(f: Seq<char>)
    requires
        f.len() == 1,
    ensures
        parse_unsigned(f, u32::MAX as nat) matches Ok(d) ==> d < 10,
{
    let body = unsigned_body(f);
    if parse_unsigned(f, u32::MAX as nat) is Ok {
        assert(body == f);
        assert(is_digit(f[0]));
        assert(f.drop_last() =~= Seq::<char>::empty());
        assert(crate::decimal::digits_value(f.drop_last()) == 0);
    }
}

/// Two characters that read as a number denote less than a hundred.
proof fn lemma_two_digits(f: Seq<char>)
    requires
        f.len() == 2,
    ensures
        parse_unsigned(f, u32::MAX as nat) matches Ok(d) ==> d < 100,
{
    let body = unsigned_body(f);
    reveal_with_fuel(crate::decimal::digits_value, 3);
    if parse_unsigned(f, u32::MAX as nat) is Ok {
        if f[0] == '+' {
            assert(body.len() == 1);
            assert(is_digit(body[0]));
            assert(body.drop_last() =~= Seq::<char>::empty());
        } else {
            assert(body == f);
            assert(is_digit(f[0]));
            assert(is_digit(f[1]));
            let head = f.drop_last();
            assert(head.len() == 1);
            assert(head[0] == f[0]);
            assert(head.drop_last() =~= Seq::<char>::empty());
        }
    }
}

} // verus!
