//! The records of the ledger: persons, bookings, rooms and hotels.

use vstd::prelude::*;
use std::collections::HashMap;
use std::ops::Range;
pub use crate::category::Category;
pub use crate::date::Date;
pub use crate::hotel_id::HotelId;
pub use crate::price::Price;

verus! {

/// The id of a booking. Booking ids count up from 1.
pub type BookingId = u64;

/// The id of a customer. Customer ids count up from 1.
pub type CustomerId = u64;

/// The number of a room within its hotel.
pub type RoomId = u64;

/// A person by name. Two persons are the same where both names are, letter
/// for letter.
#[derive(Debug, PartialEq, Eq, Hash)]
pub struct Person {
    pub forename: String,
    pub surname: String,
}

/// What a `Person` is: the characters of the two names.
pub struct PersonView {
    pub forename: Seq<char>,
    pub surname: Seq<char>,
}

impl View for Person {
    type V = PersonView;

    open spec fn view(&self) -> PersonView {
        PersonView { forename: self.forename@, surname: self.surname@ }
    }
}

impl Person {
    /// Whether the two persons have the same names.
    pub fn same_as(&self, other: &Person) -> (r: bool)
        ensures
            r == (self@ == other@),
    {
        self.forename == other.forename && self.surname == other.surname
    }
}

impl Clone for Person {
    fn clone(&self) -> (r: Self)
        ensures
            r@ == self@,
    {
        Person { forename: self.forename.clone(), surname: self.surname.clone() }
    }
}

/// A booking of a room: the nights from `time.start` up to, not including,
/// `time.end`.
#[derive(Debug)]
pub struct Booking {
    pub time: Range<Date>,
    pub customer: CustomerId,
    pub id: BookingId,
}

impl Clone for Booking {
    fn clone(&self) -> (r: Self)
        ensures
            r == *self,
    {
        Booking {
            time: Range { start: self.time.start, end: self.time.end },
            customer: self.customer,
            id: self.id,
        }
    }
}

/// Whether `day` is one of the nights of the booking.
pub open spec fn covers(b: Booking, day: Date) -> bool {
    b.time.start@ <= day@ < b.time.end@
}

/// The occupancy test on one booking: whether it covers the first day of the
/// interval or the day on which the interval ends.
pub open spec fn conflicts(b: Booking, time: Range<Date>) -> bool {
    covers(b, time.start) || covers(b, time.end)
}

/// The occupancy test: whether one of the bookings conflicts with the interval.
pub open spec fn occupied(bookings: Set<Booking>, time: Range<Date>) -> bool {
    exists|b: Booking| bookings.contains(b) && conflicts(b, time)
}

/// A room: its category, its price a night, and its bookings.
pub struct RoomData {
    pub category: Category,
    pub price: Price,
    pub bookings: Vec<Booking>,
}

/// What a room is: its category, its price in cents, and the set of its bookings.
pub struct RoomView {
    pub category: Category,
    pub price: nat,
    pub bookings: Set<Booking>,
}

impl View for RoomData {
    type V = RoomView;

    open spec fn view(&self) -> RoomView {
        RoomView {
            category: self.category,
            price: self.price@,
            bookings: self.bookings@.to_set(),
        }
    }
}

impl RoomData {
    /// The occupancy test of the room for an interval.
    pub fn is_occupied(&self, time: &Range<Date>) -> (r: bool)
        ensures
            r == occupied(self@.bookings, *time),
    {
        let mut i: usize = 0;
        while i < self.bookings.len()
            invariant
                i <= self.bookings.len(),
                forall|j: int| 0 <= j < i ==> !conflicts(#[trigger] self.bookings@[j], *time),
            decreases self.bookings.len() - i,
        {
            let b = &self.bookings[i];
            let covers_start = !time.start.is_before(&b.time.start) && time.start.is_before(
                &b.time.end,
            );
            let covers_end = !time.end.is_before(&b.time.start) && time.end.is_before(&b.time.end);
            if covers_start || covers_end {
                assert(self.bookings@.to_set().contains(self.bookings@[i as int]));
                return true;
            }
            i += 1;
        }
        assert(!occupied(self@.bookings, *time)) by {
            if occupied(self@.bookings, *time) {
                let b = choose|b: Booking| self@.bookings.contains(b) && conflicts(b, *time);
                let j = choose|j: int| 0 <= j < self.bookings@.len() && self.bookings@[j] == b;
                assert(!conflicts(self.bookings@[j], *time));
            }
        }
        false
    }
}

/// A hotel: its city and its rooms by number.
pub struct HotelData {
    pub city: String,
    pub rooms: HashMap<RoomId, RoomData>,
}

/// What a hotel is: the characters of its city and its rooms by number.
pub struct HotelView {
    pub city: Seq<char>,
    pub rooms: Map<RoomId, RoomView>,
}

impl View for HotelData {
    type V = HotelView;

    open spec fn view(&self) -> HotelView {
        HotelView { city: self.city@, rooms: self.rooms@.map_values(|r: RoomData| r@) }
    }
}

} // verus!
