//! Hotel identifiers.

use vstd::prelude::*;
use vstd::string::StringExecFns;
use crate::decimal::{
    append_decimal, append_fixed, decimal_text, fixed_digits, lemma_fixed_digits, parse_bounded,
    parse_unsigned, pow10, unsigned_body,
};
use crate::error::{int_error_message, parse_failure, CommandError, ErrorKind, ErrorView};

verus! {

/// The greatest hotel id: five decimal digits.
pub const MAX_HOTEL_ID: u32 = 99999;

/// The identifier of a hotel: a number from 1 to 99999.
#[derive(Clone, Copy, Debug, PartialEq, Eq, PartialOrd, Ord, Hash)]
pub struct HotelId {
    id: u32,
}

impl View for HotelId {
    type V = u32;

    /// The number of the id.
    closed spec fn view(&self) -> u32 {
        self.id
    }
}

/// Whether `n` is the number of a hotel id.
pub open spec fn valid_hotel_id(n: nat) -> bool {
    1 <= n <= MAX_HOTEL_ID
}

/// The text of a hotel id: its number in five digits, with leading zeros.
pub open spec fn hotel_id_text(n: nat) -> Seq<char> {
    fixed_digits(n, 5)
}

/// The message for a hotel id of zero.
pub open spec fn zero_id_message() -> Seq<char> {
    "number would be zero for non-zero type"@
}

/// The message for a hotel id of more than five digits.
pub open spec fn long_id_message(n: nat) -> Seq<char> {
    "Hotel id "@ + decimal_text(n) + " must not exceed 5"@
}

/// Reads a hotel id: an unsigned decimal number that fits 32 bits, is not zero
/// and has at most five digits without its leading zeros.
pub open spec fn parse_hotel_id(s: Seq<char>) -> Result<nat, ErrorView> {
    match parse_unsigned(s, u32::MAX as nat) {
        Err(e) => Err(parse_failure(int_error_message(e))),
        Ok(n) => if n == 0 {
            Err(parse_failure(zero_id_message()))
        } else if n > MAX_HOTEL_ID {
            Err(parse_failure(long_id_message(n)))
        } else {
            Ok(n)
        },
    }
}

/// The text of a valid hotel id has exactly five digits, and reading it gives
/// the id back.
pub proof fn law_hotel_id_round_trip(n: nat)
    requires
        valid_hotel_id(n),
    ensures
        hotel_id_text(n).len() == 5,
        parse_hotel_id(hotel_id_text(n)) == Ok::<nat, ErrorView>(n),
{
    let t = hotel_id_text(n);
    lemma_fixed_digits(n, 5);
    assert(pow10(5) == 100000) by {
        reveal_with_fuel(pow10, 6);
    }
    assert(n % 100000 == n);
    assert(crate::decimal::is_digit(t[0]));
    assert(unsigned_body(t) == t);
}

impl HotelId {
    #[verifier::type_invariant]
    spec fn in_range(self) -> bool {
        1 <= self.id <= MAX_HOTEL_ID
    }

    /// The hotel id with the number `n`, if there is one.
    pub fn new(n: u32) -> (r: Option<HotelId>)
        ensures
            r is Some <==> valid_hotel_id(n as nat),
            r matches Some(id) ==> id@ == n,
    {
        if 1 <= n && n <= MAX_HOTEL_ID {
            Some(HotelId { id: n })
        } else {
            None
        }
    }

    /// Reads a hotel id from its text.
    pub fn from_str(s: &str) -> (r: Result<HotelId, CommandError>)
        ensures
            match parse_hotel_id(s@) {
                Ok(n) => r matches Ok(id) && id@ == n,
                Err(e) => r matches Err(err) && err@ == e,
            },
    {
        match parse_bounded(s, u32::MAX as u64) {
            Err(e) => Err(CommandError::from_int_error(e)),
            Ok(n) => {
                if n == 0 {
                    Err(CommandError::fixed(ErrorKind::Parse, "number would be zero for non-zero type"))
                } else if n > MAX_HOTEL_ID as u64 {
                    let mut message = String::from_str("Hotel id ");
                    append_decimal(&mut message, n);
                    message.append(" must not exceed 5");
                    Err(CommandError::new(ErrorKind::Parse, message))
                } else {
                    Ok(HotelId { id: n as u32 })
                }
            },
        }
    }

    /// The number of the id.
    pub fn get(&self) -> (r: u32)
        ensures
            r == self@,
            valid_hotel_id(self@ as nat),
    {
        proof {
            use_type_invariant(self);
        }
        self.id
    }

    /// The text of the id: its number in five digits.
    pub fn to_string(&self) -> (r: String)
        ensures
            r@ == hotel_id_text(self@ as nat),
    {
        let mut out = String::new();
        append_fixed(&mut out, self.id as u64, 5);
        assert(out@ =~= hotel_id_text(self@ as nat));
        out
    }
}

} // verus!
