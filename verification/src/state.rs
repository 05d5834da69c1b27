//! The ledger as a mathematical value: hotels with their rooms and bookings,
//! the registry of customers and the counter of booking ids, the operations
//! on them as functions from state to state, and what holds of every state
//! that the operations can reach.

use vstd::prelude::*;
use std::ops::Range;
use crate::category::Category;
use crate::data::{
    conflicts, covers, occupied, Booking, BookingId, CustomerId, HotelView, PersonView, RoomId,
    RoomView,
};
use crate::date::Date;
use crate::decimal::decimal_text;
use crate::error::{conflict, not_authorized, not_found, ErrorView};
use crate::hotel_id::{hotel_id_text, valid_hotel_id};

verus! {

/// The state of the ledger.
pub struct ModelView {
    /// The hotels by the number of their id.
    pub hotels: Map<u32, HotelView>,
    /// The persons that have booked, in the order in which they came: the
    /// customer id of a person is one more than the person's index.
    pub customers: Seq<PersonView>,
    /// The booking id that was handed out last; zero before the first.
    pub last_booking: nat,
}

/// A row of the list of rooms: hotel, room number, category, price in cents.
pub type RoomRow = (u32, RoomId, Category, nat);

/// A row of the list of available rooms: hotel, room number, price in cents.
pub type OfferRow = (u32, RoomId, nat);

/// The message for a hotel id that is taken.
pub open spec fn hotel_in_use_message() -> Seq<char> {
    "Hotel ID is already in use"@
}

/// The message for a room number that is taken.
pub open spec fn room_in_use_message() -> Seq<char> {
    "Room ID is already in use"@
}

/// The message for a room that is added to an unknown hotel.
pub open spec fn no_such_hotel_message(hotel: u32) -> Seq<char> {
    "Hotel with id "@ + hotel_id_text(hotel as nat) + " does not exist"@
}

/// The message for an unknown hotel.
pub open spec fn unknown_hotel_message(hotel: u32) -> Seq<char> {
    "Unknown hotel ID "@ + hotel_id_text(hotel as nat)
}

/// The message for an unknown room that is to be removed.
pub open spec fn unknown_room_message(room: RoomId) -> Seq<char> {
    "Unknown room ID "@ + decimal_text(room as nat)
}

/// The message for an unknown room that is to be booked.
pub open spec fn unknown_room_number_message(room: RoomId) -> Seq<char> {
    "Unknown room number "@ + decimal_text(room as nat)
}

/// The message for an interval in which the room is occupied.
pub open spec fn occupied_message() -> Seq<char> {
    "Room is already occupied during that time frame"@
}

/// The message for a booking where all booking ids are handed out.
pub open spec fn no_booking_ids_message() -> Seq<char> {
    "No booking ids are left"@
}

/// The message for a booking that belongs to another customer.
pub open spec fn not_owner_message(customer: CustomerId) -> Seq<char> {
    "This booking does not belong to customer "@ + decimal_text(customer as nat)
}

/// The message for an unknown booking.
pub open spec fn no_booking_message(booking: BookingId) -> Seq<char> {
    "Could not find booking with id "@ + decimal_text(booking as nat)
}

impl ModelView {
    /// The state without hotels, customers and bookings.
    pub open spec fn empty() -> ModelView {
        ModelView { hotels: Map::empty(), customers: Seq::empty(), last_booking: 0 }
    }

    /// Whether the hotel exists and has the room.
    pub open spec fn has_room(self, hotel: u32, room: RoomId) -> bool {
        self.hotels.contains_key(hotel) && self.hotels[hotel].rooms.contains_key(room)
    }

    /// The room of a hotel.
    pub open spec fn room(self, hotel: u32, room: RoomId) -> RoomView {
        self.hotels[hotel].rooms[room]
    }

    /// Whether `b` is a booking of the room.
    pub open spec fn has_booking(self, hotel: u32, room: RoomId, b: Booking) -> bool {
        self.has_room(hotel, room) && self.room(hotel, room).bookings.contains(b)
    }

    /// Whether the rooms and the bookings are finitely many.
    pub open spec fn is_finite(self) -> bool {
        self.rooms().finite() && self.bookings().finite()
    }

    /// What holds of every state that the operations reach from `empty()`:
    /// the rooms and the bookings are finitely many; hotel ids are valid; no
    /// person is registered twice; the booking ids are positive, unique and
    /// were all handed out; and of two bookings of one room, at least one
    /// passed the occupancy test against the other.
    pub open spec fn inv(self) -> bool {
        &&& self.is_finite()
        &&& forall|h: u32| #[trigger] self.hotels.contains_key(h) ==> valid_hotel_id(h as nat)
        &&& self.customers.no_duplicates()
        &&& self.last_booking <= u64::MAX
        &&& forall|h: u32, r: RoomId, b: Booking| #[trigger]
            self.has_booking(h, r, b) ==> 1 <= b.id <= self.last_booking
        &&& forall|h1: u32, r1: RoomId, b1: Booking, h2: u32, r2: RoomId, b2: Booking|
            #![trigger self.has_booking(h1, r1, b1), self.has_booking(h2, r2, b2)]
            self.has_booking(h1, r1, b1) && self.has_booking(h2, r2, b2) && b1.id == b2.id ==> h1
                == h2 && r1 == r2 && b1 == b2
        &&& forall|h: u32, r: RoomId, a: Booking, b: Booking|
            #![trigger self.has_booking(h, r, a), self.has_booking(h, r, b)]
            self.has_booking(h, r, a) && self.has_booking(h, r, b) && a != b ==> !conflicts(
                a,
                b.time,
            ) || !conflicts(b, a.time)
    }

    /// The state in which the room `room` of the hotel `hotel` is `data`.
    pub open spec fn with_room(self, hotel: u32, room: RoomId, data: RoomView) -> ModelView {
        ModelView {
            hotels: self.hotels.insert(
                hotel,
                HotelView {
                    city: self.hotels[hotel].city,
                    rooms: self.hotels[hotel].rooms.insert(room, data),
                },
            ),
            ..self
        }
    }

    /// Adds a hotel without rooms, unless the id is taken.
    pub open spec fn add_hotel(self, id: u32, city: Seq<char>) -> Result<ModelView, ErrorView> {
        if self.hotels.contains_key(id) {
            Err(conflict(hotel_in_use_message()))
        } else {
            Ok(
                ModelView {
                    hotels: self.hotels.insert(id, HotelView { city, rooms: Map::empty() }),
                    ..self
                },
            )
        }
    }

    /// Adds a room without bookings, where the hotel exists and has no room
    /// of that number.
    pub open spec fn add_room(self, hotel: u32, room: RoomId, category: Category, price: nat)
        -> Result<ModelView, ErrorView> {
        if !self.hotels.contains_key(hotel) {
            Err(not_found(no_such_hotel_message(hotel)))
        } else if self.hotels[hotel].rooms.contains_key(room) {
            Err(conflict(room_in_use_message()))
        } else {
            Ok(self.with_room(hotel, room, RoomView { category, price, bookings: Set::empty() }))
        }
    }

    /// Removes a room with its bookings, where it exists.
    pub open spec fn remove_room(self, hotel: u32, room: RoomId) -> Result<ModelView, ErrorView> {
        if !self.hotels.contains_key(hotel) {
            Err(not_found(unknown_hotel_message(hotel)))
        } else if !self.hotels[hotel].rooms.contains_key(room) {
            Err(not_found(unknown_room_message(room)))
        } else {
            Ok(
                ModelView {
                    hotels: self.hotels.insert(
                        hotel,
                        HotelView {
                            city: self.hotels[hotel].city,
                            rooms: self.hotels[hotel].rooms.remove(room),
                        },
                    ),
                    ..self
                },
            )
        }
    }

    /// Removes a hotel with its rooms and their bookings, where it exists.
    pub open spec fn remove_hotel(self, hotel: u32) -> Result<ModelView, ErrorView> {
        if !self.hotels.contains_key(hotel) {
            Err(not_found(unknown_hotel_message(hotel)))
        } else {
            Ok(ModelView { hotels: self.hotels.remove(hotel), ..self })
        }
    }

    /// The customer id of a person, if the person is registered.
    pub open spec fn customer_id(self, person: PersonView) -> Option<nat> {
        if self.customers.contains(person) {
            Some((self.customers.index_of(person) + 1) as nat)
        } else {
            None
        }
    }

    /// Registers the person unless it is registered, and gives its id.
    pub open spec fn get_customer(self, person: PersonView) -> (ModelView, nat) {
        match self.customer_id(person) {
            Some(id) => (self, id),
            None => (
                ModelView { customers: self.customers.push(person), ..self },
                self.customers.len() + 1,
            ),
        }
    }

    /// Why the room cannot be booked for the interval, if it cannot: the
    /// hotel or the room does not exist, the occupancy test finds a conflict,
    /// or all booking ids are handed out.
    pub open spec fn booking_failure(self, hotel: u32, room: RoomId, time: Range<Date>) -> Option<
        ErrorView,
    > {
        if !self.hotels.contains_key(hotel) {
            Some(not_found(unknown_hotel_message(hotel)))
        } else if !self.hotels[hotel].rooms.contains_key(room) {
            Some(not_found(unknown_room_number_message(room)))
        } else if occupied(self.room(hotel, room).bookings, time) {
            Some(conflict(occupied_message()))
        } else if self.last_booking >= u64::MAX {
            Some(conflict(no_booking_ids_message()))
        } else {
            None
        }
    }

    /// Adds a booking with the next booking id to a room, unless the room
    /// cannot be booked for the interval.
    pub open spec fn book(self, hotel: u32, room: RoomId, time: Range<Date>, customer: CustomerId)
        -> Result<(ModelView, BookingId), ErrorView> {
        match self.booking_failure(hotel, room, time) {
            Some(e) => Err(e),
            None => {
                let id = (self.last_booking + 1) as BookingId;
                let before = self.room(hotel, room);
                let after = RoomView {
                    bookings: before.bookings.insert(Booking { time, customer, id }),
                    ..before
                };
                Ok(
                    (
                        ModelView { last_booking: id as nat, ..self.with_room(hotel, room, after) },
                        id,
                    ),
                )
            },
        }
    }

    /// Whether the booking with the id `id` is the booking `b` of the room
    /// `room` of the hotel `hotel`.
    pub open spec fn is_booking(self, id: BookingId, hotel: u32, room: RoomId, b: Booking) -> bool {
        self.has_booking(hotel, room, b) && b.id == id
    }

    /// Where the booking with the id `id` is, if there is one.
    pub open spec fn find_booking(self, id: BookingId) -> Option<(u32, RoomId, Booking)> {
        if exists|h: u32, r: RoomId, b: Booking| self.is_booking(id, h, r, b) {
            Some(choose|h: u32, r: RoomId, b: Booking| self.is_booking(id, h, r, b))
        } else {
            None
        }
    }

    /// Removes the booking with the id, where there is one and it belongs
    /// to the customer.
    pub open spec fn cancel(self, booking: BookingId, customer: CustomerId) -> Result<
        ModelView,
        ErrorView,
    > {
        match self.find_booking(booking) {
            None => Err(not_found(no_booking_message(booking))),
            Some((h, r, b)) => if b.customer != customer {
                Err(not_authorized(not_owner_message(customer)))
            } else {
                let before = self.room(h, r);
                Ok(self.with_room(h, r, RoomView { bookings: before.bookings.remove(b), ..before }))
            },
        }
    }

    /// The rows of all rooms.
    pub open spec fn rooms(self) -> Set<RoomRow> {
        Set::new(
            |row: RoomRow|
                self.has_room(row.0, row.1) && self.room(row.0, row.1).category == row.2
                    && self.room(row.0, row.1).price == row.3,
        )
    }

    /// All bookings.
    pub open spec fn bookings(self) -> Set<Booking> {
        Set::new(|b: Booking| exists|h: u32, r: RoomId| self.has_booking(h, r, b))
    }

    /// Whether the room is in the city, of the category, and passes the
    /// occupancy test for the interval.
    pub open spec fn is_available(
        self,
        hotel: u32,
        room: RoomId,
        city: Seq<char>,
        category: Category,
        time: Range<Date>,
    ) -> bool {
        &&& self.has_room(hotel, room)
        &&& self.hotels[hotel].city == city
        &&& self.room(hotel, room).category == category
        &&& !occupied(self.room(hotel, room).bookings, time)
    }

    /// The rows of the rooms that are available.
    pub open spec fn available(self, city: Seq<char>, category: Category, time: Range<Date>) -> Set<
        OfferRow,
    > {
        Set::new(
            |row: OfferRow|
                self.is_available(row.0, row.1, city, category, time) && self.room(
                    row.0,
                    row.1,
                ).price == row.2,
        )
    }
}

/// The empty state is valid.
pub proof fn lemma_empty_inv()
    ensures
        ModelView::empty().inv(),
{
    assert(ModelView::empty().rooms() =~= Set::<RoomRow>::empty());
    assert(ModelView::empty().bookings() =~= Set::<Booking>::empty());
}

/// A state has finitely many rooms and bookings where, but for finitely
/// many, they are rooms and bookings of a state that has finitely many.
pub proof fn lemma_finite_after(
    m: ModelView,
    after: ModelView,
    rooms_added: Set<RoomRow>,
    bookings_added: Set<Booking>,
)
    requires
        m.is_finite(),
        rooms_added.finite(),
        bookings_added.finite(),
        forall|row: RoomRow|
            #[trigger] after.rooms().contains(row) ==> m.rooms().contains(row)
                || rooms_added.contains(row),
        forall|h: u32, r: RoomId, b: Booking| #[trigger]
            after.has_booking(h, r, b) ==> m.has_booking(h, r, b) || bookings_added.contains(b),
    ensures
        after.is_finite(),
{
    let rooms = m.rooms().union(rooms_added);
    assert(after.rooms().subset_of(rooms));
    vstd::set_lib::lemma_set_subset_finite(rooms, after.rooms());
    let bookings = m.bookings().union(bookings_added);
    assert forall|b: Booking| after.bookings().contains(b) implies bookings.contains(b) by {
        let (h, r) = choose|h: u32, r: RoomId| after.has_booking(h, r, b);
        if m.has_booking(h, r, b) {
            assert(m.bookings().contains(b));
        }
    }
    assert(after.bookings().subset_of(bookings));
    vstd::set_lib::lemma_set_subset_finite(bookings, after.bookings());
}

/// A state has finitely many rooms available.
pub proof fn lemma_available_finite(
    m: ModelView,
    city: Seq<char>,
    category: Category,
    time: Range<Date>,
)
    requires
        m.is_finite(),
    ensures
        m.available(city, category, time).finite(),
{
    let offer = |row: RoomRow| (row.0, row.1, row.3);
    let offers = m.rooms().map(offer);
    m.rooms().lemma_map_finite(offer);
    let available = m.available(city, category, time);
    assert forall|o: OfferRow| available.contains(o) implies offers.contains(o) by {
        let row = (o.0, o.1, m.room(o.0, o.1).category, o.2);
        assert(m.rooms().contains(row));
        assert(offer(row) == o);
    }
    assert(available.subset_of(offers));
    vstd::set_lib::lemma_set_subset_finite(offers, available);
}

/// Whether the second state has the customers and the counter of the first.
pub open spec fn same_ids(before: ModelView, after: ModelView) -> bool {
    after.customers == before.customers && after.last_booking == before.last_booking
}

/// Adding a hotel keeps a state valid, and the ids as they are.
pub proof fn lemma_add_hotel_inv(m: ModelView, id: u32, city: Seq<char>)
    requires
        m.inv(),
        valid_hotel_id(id as nat),
    ensures
        m.add_hotel(id, city) matches Ok(after) ==> after.inv() && same_ids(m, after),
{
    if let Ok(after) = m.add_hotel(id, city) {
        lemma_finite_after(m, after, Set::empty(), Set::empty());
        assert forall|h: u32, r: RoomId, b: Booking| #[trigger]
            after.has_booking(h, r, b) implies m.has_booking(h, r, b) by {}
    }
}

/// Adding a room keeps a state valid, and the ids as they are.
pub proof fn lemma_add_room_inv(m: ModelView, hotel: u32, room: RoomId, category: Category, price: nat)
    requires
        m.inv(),
    ensures
        m.add_room(hotel, room, category, price) matches Ok(after) ==> after.inv() && same_ids(
            m,
            after,
        ),
{
    if let Ok(after) = m.add_room(hotel, room, category, price) {
        lemma_finite_after(
            m,
            after,
            set![(hotel, room, category, price)],
            Set::empty(),
        );
        assert forall|h: u32, r: RoomId, b: Booking| #[trigger]
            after.has_booking(h, r, b) implies m.has_booking(h, r, b) by {}
    }
}

/// Removing a room keeps a state valid, and the ids as they are.
pub proof fn lemma_remove_room_inv(m: ModelView, hotel: u32, room: RoomId)
    requires
        m.inv(),
    ensures
        m.remove_room(hotel, room) matches Ok(after) ==> after.inv() && same_ids(m, after),
{
    if let Ok(after) = m.remove_room(hotel, room) {
        lemma_finite_after(m, after, Set::empty(), Set::empty());
        assert forall|h: u32, r: RoomId, b: Booking| #[trigger]
            after.has_booking(h, r, b) implies m.has_booking(h, r, b) by {}
    }
}

/// Removing a hotel keeps a state valid, and the ids as they are.
pub proof fn lemma_remove_hotel_inv(m: ModelView, hotel: u32)
    requires
        m.inv(),
    ensures
        m.remove_hotel(hotel) matches Ok(after) ==> after.inv() && same_ids(m, after),
{
    if let Ok(after) = m.remove_hotel(hotel) {
        lemma_finite_after(m, after, Set::empty(), Set::empty());
        assert forall|h: u32, r: RoomId, b: Booking| #[trigger]
            after.has_booking(h, r, b) implies m.has_booking(h, r, b) by {}
    }
}

/// Looking a customer up keeps a state valid. The id that is given is that
/// of the person in the state that results, and every person that was
/// registered keeps its id.
pub proof fn lemma_get_customer_inv(m: ModelView, person: PersonView)
    requires
        m.inv(),
    ensures
        m.get_customer(person).0.inv(),
        m.get_customer(person).0.customer_id(person) == Some(m.get_customer(person).1),
        1 <= m.get_customer(person).1 <= m.get_customer(person).0.customers.len(),
        m.get_customer(person).0.last_booking == m.last_booking,
        forall|other: PersonView|
            m.customers.contains(other) ==> m.get_customer(person).0.customer_id(other)
                == m.customer_id(other),
{
    let (after, id) = m.get_customer(person);
    lemma_finite_after(m, after, Set::empty(), Set::empty());
    if m.customers.contains(person) {
        let i = choose|i: int| 0 <= i < m.customers.len() && m.customers[i] == person;
        assert(m.customers[i] == person);
    } else {
        let s = m.customers.push(person);
        assert(s[m.customers.len() as int] == person);
        assert(s.contains(person));
        assert(s.no_duplicates());
        lemma_index_unique(s, person, m.customers.len() as int);
        assert forall|other: PersonView| m.customers.contains(other) implies after.customer_id(
            other,
        ) == m.customer_id(other) by {
            let i = m.customers.index_of(other);
            assert(s[i] == other);
            lemma_index_unique(s, other, i);
        }
        assert forall|h: u32, r: RoomId, b: Booking| #[trigger]
            after.has_booking(h, r, b) implies m.has_booking(h, r, b) by {}
    }
}

/// In a sequence without duplicates, an item is found where it stands.
pub proof fn lemma_index_unique<A>(s: Seq<A>, x: A, i: int)
    requires
        s.no_duplicates(),
        0 <= i < s.len(),
        s[i] == x,
    ensures
        s.index_of(x) == i,
{
    let j = s.index_of(x);
    assert(0 <= j < s.len() && s[j] == x);
}

/// Booking keeps a state valid and the customers as they are, and hands out
/// the next booking id, which no booking has.
pub proof fn lemma_book_inv(
    m: ModelView,
    hotel: u32,
    room: RoomId,
    time: Range<Date>,
    customer: CustomerId,
)
    requires
        m.inv(),
    ensures
        m.book(hotel, room, time, customer) matches Ok((after, id)) ==> after.inv() && id
            == m.last_booking + 1 && after.last_booking == id && after.customers == m.customers
            && forall|h: u32, r: RoomId, b: Booking| #[trigger] m.has_booking(h, r, b) ==> b.id < id,
{
    if let Ok((after, id)) = m.book(hotel, room, time, customer) {
        lemma_finite_after(
            m,
            after,
            Set::empty(),
            set![Booking { time, customer, id }],
        );
        let new = Booking { time, customer, id };
        assert forall|h: u32, r: RoomId, b: Booking| #[trigger]
            after.has_booking(h, r, b) implies m.has_booking(h, r, b) || (h == hotel && r == room
            && b == new) by {}
        assert forall|h: u32, r: RoomId, a: Booking, b: Booking|
            #![trigger after.has_booking(h, r, a), after.has_booking(h, r, b)]
            after.has_booking(h, r, a) && after.has_booking(h, r, b) && a != b implies !conflicts(
            a,
            b.time,
        ) || !conflicts(b, a.time) by {
            if a == new {
                assert(m.has_booking(h, r, b));
                assert(m.room(hotel, room).bookings.contains(b));
            } else if b == new {
                assert(m.has_booking(h, r, a));
                assert(m.room(hotel, room).bookings.contains(a));
            } else {
                assert(m.has_booking(h, r, a) && m.has_booking(h, r, b));
            }
        }
        assert forall|h1: u32, r1: RoomId, b1: Booking, h2: u32, r2: RoomId, b2: Booking|
            #![trigger after.has_booking(h1, r1, b1), after.has_booking(h2, r2, b2)]
            after.has_booking(h1, r1, b1) && after.has_booking(h2, r2, b2) && b1.id
                == b2.id implies h1 == h2 && r1 == r2 && b1 == b2 by {
            if b1 != new {
                assert(m.has_booking(h1, r1, b1));
            }
            if b2 != new {
                assert(m.has_booking(h2, r2, b2));
            }
        }
    }
}

/// In a valid state there is at most one booking with a given id.
pub proof fn lemma_find_booking(m: ModelView, hotel: u32, room: RoomId, b: Booking)
    requires
        m.inv(),
        m.has_booking(hotel, room, b),
    ensures
        m.find_booking(b.id) == Some((hotel, room, b)),
{
    assert(m.is_booking(b.id, hotel, room, b));
    let (h, r, found) = choose|h: u32, r: RoomId, found: Booking| m.is_booking(b.id, h, r, found);
    assert(m.has_booking(h, r, found) && m.has_booking(hotel, room, b));
}

/// Without a booking of the id, none is found.
pub proof fn lemma_find_no_booking(m: ModelView, id: BookingId)
    requires
        forall|h: u32, r: RoomId, b: Booking| #[trigger] m.has_booking(h, r, b) ==> b.id != id,
    ensures
        m.find_booking(id) is None,
{
    if exists|h: u32, r: RoomId, b: Booking| m.is_booking(id, h, r, b) {
        let (h, r, b) = choose|h: u32, r: RoomId, b: Booking| m.is_booking(id, h, r, b);
        assert(m.has_booking(h, r, b));
    }
}

/// Cancelling keeps a state valid, and the ids as they are: the id of a
/// booking that was cancelled is not given again.
pub proof fn lemma_cancel_inv(m: ModelView, booking: BookingId, customer: CustomerId)
    requires
        m.inv(),
    ensures
        m.cancel(booking, customer) matches Ok(after) ==> after.inv() && same_ids(m, after),
{
    if let Ok(after) = m.cancel(booking, customer) {
        let (h0, r0, b0) = m.find_booking(booking)->0;
        assert(m.is_booking(booking, h0, r0, b0));
        lemma_finite_after(m, after, Set::empty(), Set::empty());
        assert forall|h: u32, r: RoomId, b: Booking| #[trigger]
            after.has_booking(h, r, b) implies m.has_booking(h, r, b) by {}
    }
}

/// A hotel id is taken once it was added; an unknown hotel cannot be
/// removed; and once a hotel is removed its id can be given again.
pub proof fn law_hotel_ids(m: ModelView, id: u32, city: Seq<char>, other_city: Seq<char>)
    ensures
        m.add_hotel(id, city) matches Ok(after) ==> after.add_hotel(id, other_city)
            == Err::<ModelView, ErrorView>(conflict(hotel_in_use_message())),
        !m.hotels.contains_key(id) ==> m.remove_hotel(id) == Err::<ModelView, ErrorView>(
            not_found(unknown_hotel_message(id)),
        ),
        m.remove_hotel(id) matches Ok(after) ==> after.add_hotel(id, city) is Ok,
{
}

/// Two bookings of one room both succeed where each would succeed alone, two
/// booking ids are left, and the second interval begins on or after the day
/// on which the first ends, or ends before the day on which the first begins.
pub proof fn law_disjoint_bookings(
    m: ModelView,
    hotel: u32,
    room: RoomId,
    first: Range<Date>,
    second: Range<Date>,
    customer: CustomerId,
    other_customer: CustomerId,
)
    requires
        m.inv(),
        m.book(hotel, room, first, customer) is Ok,
        m.book(hotel, room, second, other_customer) is Ok,
        m.last_booking + 2 <= u64::MAX,
        first.start@ <= first.end@,
        second.start@ <= second.end@,
        first.end@ <= second.start@ || second.end@ < first.start@,
    ensures
        m.book(hotel, room, first, customer) matches Ok((after, id)) && after.book(
            hotel,
            room,
            second,
            other_customer,
        ) matches Ok((last, other_id)) && other_id == id + 1,
{
    let (after, id) = m.book(hotel, room, first, customer)->Ok_0;
    let new = Booking { time: first, customer, id };
    assert(!conflicts(new, second));
    if occupied(after.room(hotel, room).bookings, second) {
        let b = choose|b: Booking|
            after.room(hotel, room).bookings.contains(b) && conflicts(b, second);
        assert(b == new || m.room(hotel, room).bookings.contains(b));
    }
}

/// A booking is refused where an existing booking of the room covers the
/// first day of the interval or the day on which it ends.
pub proof fn law_conflicting_booking(
    m: ModelView,
    hotel: u32,
    room: RoomId,
    existing: Booking,
    time: Range<Date>,
    customer: CustomerId,
)
    requires
        m.has_booking(hotel, room, existing),
        covers(existing, time.start) || covers(existing, time.end),
    ensures
        m.book(hotel, room, time, customer) == Err::<(ModelView, BookingId), ErrorView>(
            conflict(occupied_message()),
        ),
{
    assert(conflicts(existing, time));
}

/// Cancelling a booking for another customer than its own is refused. For
/// its own customer it succeeds, and no booking of that id is left.
pub proof fn law_cancel(m: ModelView, hotel: u32, room: RoomId, b: Booking, customer: CustomerId)
    requires
        m.inv(),
        m.has_booking(hotel, room, b),
    ensures
        customer != b.customer ==> m.cancel(b.id, customer) == Err::<ModelView, ErrorView>(
            not_authorized(not_owner_message(customer)),
        ),
        m.cancel(b.id, b.customer) matches Ok(after) && forall|other: Booking|
            after.bookings().contains(other) ==> other.id != b.id,
        m.cancel(b.id, b.customer) matches Ok(after) ==> after.cancel(b.id, b.customer)
            == Err::<ModelView, ErrorView>(not_found(no_booking_message(b.id))),
{
    lemma_find_booking(m, hotel, room, b);
    let after = m.cancel(b.id, b.customer)->Ok_0;
    assert forall|h: u32, r: RoomId, other: Booking| #[trigger]
        after.has_booking(h, r, other) implies other.id != b.id by {
        assert(m.has_booking(h, r, other));
        if other.id == b.id {
            assert(m.has_booking(h, r, other) && m.has_booking(hotel, room, b));
        }
    }
    assert forall|other: Booking| after.bookings().contains(other) implies other.id != b.id by {
        let (h, r) = choose|h: u32, r: RoomId| after.has_booking(h, r, other);
        assert(after.has_booking(h, r, other));
    }
    lemma_find_no_booking(after, b.id);
}

/// A person keeps its customer id from one lookup to the next, and a person
/// that is registered after another gets a greater id.
pub proof fn law_customer_ids(m: ModelView, person: PersonView, other: PersonView)
    requires
        m.inv(),
    ensures
        m.get_customer(person).0.get_customer(person) == m.get_customer(person),
        other != person && !m.customers.contains(other) ==> m.get_customer(person).0.get_customer(
            other,
        ).1 > m.get_customer(person).1,
{
    lemma_get_customer_inv(m, person);
    let (after, id) = m.get_customer(person);
    if other != person && !m.customers.contains(other) {
        assert(!after.customers.contains(other)) by {
            if after.customers.contains(other) {
                let i = choose|i: int| 0 <= i < after.customers.len() && after.customers[i] == other;
                if i < m.customers.len() {
                    assert(m.customers[i] == other);
                }
            }
        }
    }
}

} // verus!
