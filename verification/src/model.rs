//! The ledger in memory: the hotels with their rooms and bookings, the
//! registry of customers, and the operations that keep them valid.

use vstd::prelude::*;
use vstd::string::StringExecFns;
use std::collections::HashMap;
use std::ops::Range;
use crate::category::Category;
use crate::data::{
    Booking, BookingId, CustomerId, HotelData, HotelView, Person, RoomData, RoomId, RoomView,
};
use crate::date::Date;
use crate::decimal::{append_decimal, str_eq};
use crate::error::{CommandError, ErrorKind};
use crate::hotel_id::HotelId;
use crate::listing::{lemma_push_no_duplicates, lemma_swap_remove};
use crate::price::Price;
use crate::state::{
    lemma_add_hotel_inv, lemma_add_room_inv, lemma_book_inv, lemma_cancel_inv, lemma_empty_inv,
    lemma_find_booking, lemma_find_no_booking, lemma_get_customer_inv, lemma_index_unique,
    lemma_remove_hotel_inv, lemma_remove_room_inv, ModelView, OfferRow, RoomRow,
};
use vstd::std_specs::hash::{obeys_key_model, spec_keys_iter};
use vstd::std_specs::iter::IteratorSpec;

verus! {

/// The ledger: all hotels, and the customers that have booked.
pub struct Model {
    last_booking_id: u64,
    last_customer_id: u64,
    hotels: HashMap<u32, HotelData>,
    /// The persons in the order of their customer ids, which count from 1.
    /// A list and no hash map: of a map with a key of two strings nothing is
    /// known but that it takes the calls.
    customers: Vec<Person>,
}

impl View for Model {
    type V = ModelView;

    closed spec fn view(&self) -> ModelView {
        ModelView {
            hotels: self.hotels@.map_values(|h: HotelData| h@),
            customers: self.customers@.map_values(|p: Person| p@),
            last_booking: self.last_booking_id as nat,
        }
    }
}

/// The failure that names a hotel after a fixed text.
fn hotel_failure(kind: ErrorKind, text: &str, hotel: &HotelId) -> (r: CommandError)
    ensures
        r@.kind == kind,
        r@.message == text@ + crate::hotel_id::hotel_id_text(hotel@ as nat),
{
    let mut message = String::from_str(text);
    let id = hotel.to_string();
    message.append(id.as_str());
    CommandError::new(kind, message)
}

/// The failure that names a number after a fixed text.
fn number_failure(kind: ErrorKind, text: &str, number: u64) -> (r: CommandError)
    ensures
        r@.kind == kind,
        r@.message == text@ + crate::decimal::decimal_text(number as nat),
{
    let mut message = String::from_str(text);
    append_decimal(&mut message, number);
    CommandError::new(kind, message)
}

/// The rows that a list of rooms stands for.
pub open spec fn room_rows(v: Seq<(HotelId, RoomId, Category, Price)>) -> Seq<RoomRow> {
    v.map_values(|t: (HotelId, RoomId, Category, Price)| (t.0@, t.1, t.2, t.3@))
}

/// The rows that a list of offers stands for.
pub open spec fn offer_rows(v: Seq<(HotelId, RoomId, Price)>) -> Seq<OfferRow> {
    v.map_values(|t: (HotelId, RoomId, Price)| (t.0@, t.1, t.2@))
}

/// Whether `b` is a booking of one of the first `n` of the rooms `keys`.
spec fn booked_in(m: ModelView, keys: Seq<(u32, RoomId)>, n: int, b: Booking) -> bool {
    exists|x: int| 0 <= x < n && m.has_booking(keys[x].0, keys[x].1, b)
}

/// Whether `key` stands among the first `n` of `keys`.
spec fn listed<A>(keys: Seq<A>, n: int, key: A) -> bool {
    exists|x: int| 0 <= x < n && keys[x] == key
}

/// The keys of a map, each once.
fn keys_of<K: Copy, V>(map: &HashMap<K, V>) -> (r: Vec<K>)
    requires
        obeys_key_model::<K>(),
    ensures
        r@.no_duplicates(),
        forall|k: K| r@.contains(k) <==> map@.contains_key(k),
{
    let mut out: Vec<K> = Vec::new();
    let ghost all = spec_keys_iter(map).remaining();
    for k in it: map.keys()
        invariant
            it.seq() == all,
            out@.len() == it.index(),
            forall|j: int| 0 <= j < out@.len() ==> out@[j] == *all[j],
    {
        out.push(*k);
    }
    proof {
        assert(out@ =~= all.unref());
        assert forall|k: K| out@.contains(k) <==> map@.contains_key(k) by {
            assert(out@.to_set().contains(k) <==> map@.dom().contains(k));
        }
        assert forall|i: int, j: int| 0 <= i < out@.len() && 0 <= j < out@.len() && i
            != j implies out@[i] != out@[j] by {
            assert(all[i] != all[j]);
        }
    }
    out
}

impl Model {
    /// Whether the ledger is valid: its state is, the customer counter is the
    /// number of registered persons, and no room lists a booking twice.
    pub closed spec fn wf(&self) -> bool {
        &&& self@.inv()
        &&& self.last_customer_id == self.customers@.len()
        &&& forall|h: u32, r: RoomId|
            #![trigger self.hotels@[h].rooms@[r]]
            self.hotels@.contains_key(h) && self.hotels@[h].rooms@.contains_key(r)
                ==> self.hotels@[h].rooms@[r].bookings@.no_duplicates()
    }

    /// The state of a valid ledger is valid.
    pub proof fn lemma_wf(&self)
        requires
            self.wf(),
        ensures
            self@.inv(),
    {
    }

    /// The empty ledger.
    pub fn new() -> (r: Self)
        ensures
            r.wf(),
            r@ == ModelView::empty(),
    {
        let r = Model {
            last_booking_id: 0,
            last_customer_id: 0,
            hotels: HashMap::new(),
            customers: Vec::new(),
        };
        proof {
            lemma_empty_inv();
            assert(r@.hotels =~= Map::<u32, HotelView>::empty());
            assert(r@.customers =~= Seq::empty());
        }
        r
    }

    /// Adds a hotel without rooms. Fails where the id is taken.
    pub fn add_hotel(&mut self, id: HotelId, city: String) -> (r: Result<(), CommandError>)
        requires
            old(self).wf(),
        ensures
            final(self).wf(),
            match old(self)@.add_hotel(id@, city@) {
                Ok(after) => r is Ok && final(self)@ == after,
                Err(e) => r matches Err(err) && err@ == e && final(self)@ == old(self)@,
            },
    {
        let key = id.get();
        if self.hotels.contains_key(&key) {
            return Err(CommandError::fixed(ErrorKind::Conflict, "Hotel ID is already in use"));
        }
        let data = HotelData { city, rooms: HashMap::new() };
        assert(data@.rooms =~= Map::<RoomId, RoomView>::empty());
        self.hotels.insert(key, data);
        proof {
            let after = old(self)@.add_hotel(id@, city@)->Ok_0;
            assert(self@.hotels =~= after.hotels);
            lemma_add_hotel_inv(old(self)@, id@, city@);
        }
        Ok(())
    }

    /// Adds a room without bookings. Fails where the hotel does not exist or
    /// has a room of that number.
    pub fn add_room(&mut self, hotel_id: HotelId, room_id: RoomId, category: Category, price: Price)
        -> (r: Result<(), CommandError>)
        requires
            old(self).wf(),
        ensures
            final(self).wf(),
            match old(self)@.add_room(hotel_id@, room_id, category, price@) {
                Ok(after) => r is Ok && final(self)@ == after,
                Err(e) => r matches Err(err) && err@ == e && final(self)@ == old(self)@,
            },
    {
        let key = hotel_id.get();
        let taken = match self.hotels.get(&key) {
            None => {
                let mut message = String::from_str("Hotel with id ");
                let id = hotel_id.to_string();
                message.append(id.as_str());
                message.append(" does not exist");
                return Err(CommandError::new(ErrorKind::NotFound, message));
            },
            Some(hotel) => hotel.rooms.contains_key(&room_id),
        };
        if taken {
            return Err(CommandError::fixed(ErrorKind::Conflict, "Room ID is already in use"));
        }
        let mut hotel = self.hotels.remove(&key).unwrap();
        let ghost before = hotel@;
        let room = RoomData { category, price, bookings: Vec::new() };
        assert(room@.bookings =~= Set::<Booking>::empty());
        hotel.rooms.insert(room_id, room);
        assert(hotel@.rooms =~= before.rooms.insert(room_id, room@));
        self.hotels.insert(key, hotel);
        proof {
            let after = old(self)@.add_room(hotel_id@, room_id, category, price@)->Ok_0;
            assert(self@.hotels =~= after.hotels);
            lemma_add_room_inv(old(self)@, hotel_id@, room_id, category, price@);
        }
        Ok(())
    }

    /// Removes a room with its bookings. Fails where the hotel or the room does
    /// not exist.
    pub fn remove_room(&mut self, hotel_id: HotelId, room_id: RoomId) -> (r: Result<
        (),
        CommandError,
    >)
        requires
            old(self).wf(),
        ensures
            final(self).wf(),
            match old(self)@.remove_room(hotel_id@, room_id) {
                Ok(after) => r is Ok && final(self)@ == after,
                Err(e) => r matches Err(err) && err@ == e && final(self)@ == old(self)@,
            },
    {
        let key = hotel_id.get();
        let present = match self.hotels.get(&key) {
            None => {
                return Err(hotel_failure(ErrorKind::NotFound, "Unknown hotel ID ", &hotel_id));
            },
            Some(hotel) => hotel.rooms.contains_key(&room_id),
        };
        if !present {
            return Err(number_failure(ErrorKind::NotFound, "Unknown room ID ", room_id));
        }
        let mut hotel = self.hotels.remove(&key).unwrap();
        let ghost before = hotel@;
        hotel.rooms.remove(&room_id);
        assert(hotel@.rooms =~= before.rooms.remove(room_id));
        self.hotels.insert(key, hotel);
        proof {
            let after = old(self)@.remove_room(hotel_id@, room_id)->Ok_0;
            assert(self@.hotels =~= after.hotels);
            lemma_remove_room_inv(old(self)@, hotel_id@, room_id);
        }
        Ok(())
    }

    /// Removes a hotel with its rooms and their bookings. Fails where the hotel
    /// does not exist.
    pub fn remove_hotel(&mut self, id: HotelId) -> (r: Result<(), CommandError>)
        requires
            old(self).wf(),
        ensures
            final(self).wf(),
            match old(self)@.remove_hotel(id@) {
                Ok(after) => r is Ok && final(self)@ == after,
                Err(e) => r matches Err(err) && err@ == e && final(self)@ == old(self)@,
            },
    {
        let key = id.get();
        if !self.hotels.contains_key(&key) {
            return Err(hotel_failure(ErrorKind::NotFound, "Unknown hotel ID ", &id));
        }
        self.hotels.remove(&key);
        proof {
            let after = old(self)@.remove_hotel(id@)->Ok_0;
            assert(self@.hotels =~= after.hotels);
            lemma_remove_hotel_inv(old(self)@, id@);
        }
        Ok(())
    }

    /// The index at which the person is registered.
    fn find_customer(&self, person: &Person) -> (r: Option<usize>)
        ensures
            match r {
                Some(i) => i < self.customers@.len() && self.customers@[i as int]@ == person@,
                None => !self@.customers.contains(person@),
            },
    {
        let mut i: usize = 0;
        while i < self.customers.len()
            invariant
                i <= self.customers.len(),
                forall|j: int| 0 <= j < i ==> self.customers@[j]@ != person@,
            decreases self.customers.len() - i,
        {
            if self.customers[i].same_as(person) {
                return Some(i);
            }
            i += 1;
        }
        proof {
            if self@.customers.contains(person@) {
                let j = choose|j: int|
                    0 <= j < self@.customers.len() && self@.customers[j] == person@;
                assert(self.customers@[j]@ == person@);
            }
        }
        None
    }

    /// The customer id of the person, who is registered if it was not.
    pub fn get_customer(&mut self, person: Person) -> (r: CustomerId)
        requires
            old(self).wf(),
        ensures
            final(self).wf(),
            final(self)@ == old(self)@.get_customer(person@).0,
            r == old(self)@.get_customer(person@).1,
    {
        proof {
            lemma_get_customer_inv(self@, person@);
        }
        match self.find_customer(&person) {
            Some(i) => {
                proof {
                    assert(self@.customers[i as int] == person@);
                    lemma_index_unique(self@.customers, person@, i as int);
                }
                let registered = self.customers.len();
                assert(i < registered);
                i as u64 + 1
            },
            None => {
                let ghost entry = person@;
                self.customers.push(person);
                assert(self.customers.len() == old(self).customers.len() + 1);
                self.last_customer_id = self.last_customer_id + 1;
                assert(self@.customers =~= old(self)@.customers.push(entry));
                self.last_customer_id
            },
        }
    }

    /// Whether the room can be booked for the interval, and why not if it
    /// cannot. Nothing is changed.
    pub fn check_booking(&self, hotel_id: HotelId, room_id: RoomId, time: &Range<Date>) -> (r: Result<
        (),
        CommandError,
    >)
        requires
            self.wf(),
        ensures
            match self@.booking_failure(hotel_id@, room_id, *time) {
                Some(e) => r matches Err(err) && err@ == e,
                None => r is Ok,
            },
    {
        let key = hotel_id.get();
        let occupied = match self.hotels.get(&key) {
            None => {
                return Err(hotel_failure(ErrorKind::NotFound, "Unknown hotel ID ", &hotel_id));
            },
            Some(hotel) => match hotel.rooms.get(&room_id) {
                None => {
                    return Err(
                        number_failure(ErrorKind::NotFound, "Unknown room number ", room_id),
                    );
                },
                Some(room) => room.is_occupied(time),
            },
        };
        if occupied {
            return Err(
                CommandError::fixed(
                    ErrorKind::Conflict,
                    "Room is already occupied during that time frame",
                ),
            );
        }
        if self.last_booking_id == u64::MAX {
            return Err(CommandError::fixed(ErrorKind::Conflict, "No booking ids are left"));
        }
        Ok(())
    }

    /// Books a room for an interval and gives the id of the booking. Fails
    /// where the hotel or the room does not exist, where the occupancy test
    /// finds a conflict, and where all booking ids are handed out.
    pub fn book(&mut self, hotel_id: HotelId, room_id: RoomId, time: Range<Date>, customer: CustomerId)
        -> (r: Result<BookingId, CommandError>)
        requires
            old(self).wf(),
        ensures
            final(self).wf(),
            match old(self)@.book(hotel_id@, room_id, time, customer) {
                Ok((after, id)) => r == Ok::<BookingId, CommandError>(id) && final(self)@ == after,
                Err(e) => r matches Err(err) && err@ == e && final(self)@ == old(self)@,
            },
    {
        match self.check_booking(hotel_id, room_id, &time) {
            Err(e) => {
                return Err(e);
            },
            Ok(()) => {},
        }
        let key = hotel_id.get();
        let id = self.last_booking_id + 1;
        let ghost time_copy = time;
        let booking = Booking { time, customer, id };
        let mut hotel = self.hotels.remove(&key).unwrap();
        let ghost hotel_before = hotel@;
        let mut room = hotel.rooms.remove(&room_id).unwrap();
        let ghost room_before = room@;
        let ghost list_before = room.bookings@;
        room.bookings.push(booking);
        proof {
            list_before.lemma_push_to_set_commute(booking);
            assert(room@.bookings =~= room_before.bookings.insert(booking));
            assert(old(self)@.has_booking(key, room_id, booking) ==> booking.id
                <= old(self)@.last_booking);
            assert(!list_before.contains(booking)) by {
                if list_before.contains(booking) {
                    assert(list_before.to_set().contains(booking));
                    assert(old(self)@.has_booking(key, room_id, booking));
                }
            }
            assert(room.bookings@.no_duplicates());
        }
        hotel.rooms.insert(room_id, room);
        assert(hotel@.rooms =~= hotel_before.rooms.insert(room_id, room@));
        self.hotels.insert(key, hotel);
        self.last_booking_id = id;
        proof {
            let after = old(self)@.book(hotel_id@, room_id, time_copy, customer)->Ok_0.0;
            assert(self@.hotels =~= after.hotels);
            lemma_book_inv(old(self)@, hotel_id@, room_id, time_copy, customer);
        }
        Ok(id)
    }
    /// The room of a hotel, by their numbers.
    fn room_at(&self, hotel: u32, room: RoomId) -> (r: &RoomData)
        requires
            self@.has_room(hotel, room),
        ensures
            *r == self.hotels@[hotel].rooms@[room],
            r@ == self@.room(hotel, room),
    {
        self.hotels.get(&hotel).unwrap().rooms.get(&room).unwrap()
    }

    /// The numbers of all rooms with those of their hotels, each pair once.
    fn room_keys(&self) -> (r: Vec<(u32, RoomId)>)
        ensures
            r@.no_duplicates(),
            forall|h: u32, room: RoomId| r@.contains((h, room)) <==> self@.has_room(h, room),
    {
        let hotel_keys = keys_of(&self.hotels);
        let mut out: Vec<(u32, RoomId)> = Vec::new();
        let mut i: usize = 0;
        while i < hotel_keys.len()
            invariant
                i <= hotel_keys.len(),
                hotel_keys@.no_duplicates(),
                forall|k: u32| hotel_keys@.contains(k) <==> self.hotels@.contains_key(k),
                out@.no_duplicates(),
                forall|h: u32, room: RoomId|
                    #![trigger out@.contains((h, room))]
                    out@.contains((h, room)) <==> self@.has_room(h, room) && listed(
                        hotel_keys@,
                        i as int,
                        h,
                    ),
            decreases hotel_keys.len() - i,
        {
            let h = hotel_keys[i];
            assert(hotel_keys@.contains(h));
            let hotel = self.hotels.get(&h).unwrap();
            let rooms = keys_of(&hotel.rooms);
            assert(!listed(hotel_keys@, i as int, h));
            let mut j: usize = 0;
            while j < rooms.len()
                invariant
                    j <= rooms.len(),
                    i < hotel_keys.len(),
                    h == hotel_keys@[i as int],
                    self.hotels@.contains_key(h),
                    *hotel == self.hotels@[h],
                    !listed(hotel_keys@, i as int, h),
                    rooms@.no_duplicates(),
                    forall|k: RoomId| rooms@.contains(k) <==> hotel.rooms@.contains_key(k),
                    out@.no_duplicates(),
                    forall|g: u32, room: RoomId|
                        #![trigger out@.contains((g, room))]
                        out@.contains((g, room)) <==> (self@.has_room(g, room) && listed(
                            hotel_keys@,
                            i as int,
                            g,
                        )) || (g == h && listed(rooms@, j as int, room)),
                decreases rooms.len() - j,
            {
                let room = rooms[j];
                let ghost before = out@;
                proof {
                    if before.contains((h, room)) {
                        assert(listed(rooms@, j as int, room));
                        let y = choose|y: int| 0 <= y < j && rooms@[y] == room;
                        assert(rooms@[y] == rooms@[j as int]);
                    }
                    lemma_push_no_duplicates(before, (h, room));
                }
                out.push((h, room));
                proof {
                    assert forall|g: u32, other: RoomId|
                        #![trigger out@.contains((g, other))]
                        out@.contains((g, other)) <==> (self@.has_room(g, other) && listed(
                            hotel_keys@,
                            i as int,
                            g,
                        )) || (g == h && listed(rooms@, j + 1, other)) by {
                        vstd::seq_lib::lemma_seq_contains_after_push(before, (h, room), (g, other));
                        if listed(rooms@, j + 1, other) {
                            let y = choose|y: int| 0 <= y < j + 1 && rooms@[y] == other;
                            if y < j {
                                assert(listed(rooms@, j as int, other));
                            }
                        }
                        if listed(rooms@, j as int, other) {
                            let y = choose|y: int| 0 <= y < j && rooms@[y] == other;
                            assert(0 <= y < j + 1 && rooms@[y] == other);
                        }
                        if (g, other) == (h, room) {
                            assert(rooms@[j as int] == other);
                        }
                    }
                }
                j += 1;
            }
            proof {
                assert forall|g: u32, room: RoomId|
                    #![trigger out@.contains((g, room))]
                    out@.contains((g, room)) <==> self@.has_room(g, room) && listed(
                        hotel_keys@,
                        i + 1,
                        g,
                    ) by {
                    if listed(hotel_keys@, i + 1, g) {
                        let x = choose|x: int| 0 <= x < i + 1 && hotel_keys@[x] == g;
                        if x < i {
                            assert(listed(hotel_keys@, i as int, g));
                        }
                    }
                    if listed(hotel_keys@, i as int, g) {
                        let x = choose|x: int| 0 <= x < i && hotel_keys@[x] == g;
                        assert(0 <= x < i + 1 && hotel_keys@[x] == g);
                    }
                    if g == h {
                        assert(hotel_keys@[i as int] == g);
                        if listed(rooms@, j as int, room) {
                            let y = choose|y: int| 0 <= y < j && rooms@[y] == room;
                            assert(rooms@.contains(room));
                        }
                        if self@.has_room(g, room) {
                            assert(rooms@.contains(room));
                            let y = choose|y: int| 0 <= y < rooms@.len() && rooms@[y] == room;
                            assert(listed(rooms@, j as int, room));
                        }
                    }
                }
            }
            i += 1;
        }
        proof {
            assert forall|h: u32, room: RoomId|
                out@.contains((h, room)) <==> self@.has_room(h, room) by {
                if self@.has_room(h, room) {
                    assert(hotel_keys@.contains(h));
                    let x = choose|x: int| 0 <= x < hotel_keys@.len() && hotel_keys@[x] == h;
                    assert(listed(hotel_keys@, i as int, h));
                }
            }
        }
        out
    }

    /// All rooms with their hotels, categories and prices, in no order.
    pub fn rooms(&self) -> (r: Vec<(HotelId, RoomId, Category, Price)>)
        requires
            self.wf(),
        ensures
            room_rows(r@).no_duplicates(),
            room_rows(r@).to_set() == self@.rooms(),
    {
        let keys = self.room_keys();
        let mut out: Vec<(HotelId, RoomId, Category, Price)> = Vec::new();
        let mut i: usize = 0;
        while i < keys.len()
            invariant
                i <= keys.len(),
                self.wf(),
                forall|h: u32, room: RoomId| keys@.contains((h, room)) <==> self@.has_room(h, room),
                out@.len() == i,
                forall|x: int|
                    0 <= x < i ==> (#[trigger] room_rows(out@)[x]) == (
                        keys@[x].0,
                        keys@[x].1,
                        self@.room(keys@[x].0, keys@[x].1).category,
                        self@.room(keys@[x].0, keys@[x].1).price,
                    ),
            decreases keys.len() - i,
        {
            let (h, room) = keys[i];
            assert(keys@.contains((h, room)));
            let data = self.room_at(h, room);
            assert(self@.has_room(h, room));
            assert(self@.hotels.contains_key(h));
            let id = HotelId::new(h).unwrap();
            let ghost before = room_rows(out@);
            out.push((id, room, data.category, data.price.clone()));
            assert forall|x: int| 0 <= x < i + 1 implies (#[trigger] room_rows(out@)[x]) == (
                keys@[x].0,
                keys@[x].1,
                self@.room(keys@[x].0, keys@[x].1).category,
                self@.room(keys@[x].0, keys@[x].1).price,
            ) by {
                if x < i {
                    assert(room_rows(out@)[x] == before[x]);
                }
            }
            i += 1;
        }
        proof {
            let rows = room_rows(out@);
            assert forall|row: RoomRow| rows.to_set().contains(row) <==> self@.rooms().contains(
                row,
            ) by {
                if rows.to_set().contains(row) {
                    let x = choose|x: int| 0 <= x < rows.len() && rows[x] == row;
                    assert(keys@.contains(keys@[x]));
                }
                if self@.rooms().contains(row) {
                    assert(keys@.contains((row.0, row.1)));
                    let x = choose|x: int| 0 <= x < keys@.len() && keys@[x] == (row.0, row.1);
                    assert(rows[x] == row);
                }
            }
            assert(rows.to_set() =~= self@.rooms());
            assert forall|x: int, y: int|
                0 <= x < rows.len() && 0 <= y < rows.len() && x != y implies rows[x] != rows[y] by {
                assert(keys@[x] != keys@[y]);
            }
        }
        out
    }

    /// The rooms in the city, of the category, that pass the occupancy test
    /// for the interval, with their hotels and prices, in no order.
    pub fn avaiable(&self, city: &str, category: Category, time: &Range<Date>) -> (r: Vec<
        (HotelId, RoomId, Price),
    >)
        requires
            self.wf(),
        ensures
            offer_rows(r@).no_duplicates(),
            offer_rows(r@).to_set() == self@.available(city@, category, *time),
    {
        let keys = self.room_keys();
        let mut out: Vec<(HotelId, RoomId, Price)> = Vec::new();
        let mut i: usize = 0;
        while i < keys.len()
            invariant
                i <= keys.len(),
                self.wf(),
                keys@.no_duplicates(),
                forall|h: u32, room: RoomId| keys@.contains((h, room)) <==> self@.has_room(h, room),
                forall|x: int|
                    0 <= x < out@.len() ==> listed(
                        keys@,
                        i as int,
                        ((#[trigger] offer_rows(out@)[x]).0, offer_rows(out@)[x].1),
                    ) && self@.available(city@, category, *time).contains(offer_rows(out@)[x]),
                forall|row: OfferRow|
                    self@.available(city@, category, *time).contains(row) && listed(
                        keys@,
                        i as int,
                        (row.0, row.1),
                    ) ==> offer_rows(out@).contains(row),
                offer_rows(out@).no_duplicates(),
            decreases keys.len() - i,
        {
            let (h, room) = keys[i];
            assert(keys@.contains((h, room)));
            let data = self.room_at(h, room);
            assert(self@.has_room(h, room));
            assert(self@.hotels.contains_key(h));
            assert(self.hotels@.contains_key(h));
            let hotel = self.hotels.get(&h).unwrap();
            let ghost before = offer_rows(out@);
            let ghost wanted = self@.available(city@, category, *time);
            if str_eq(hotel.city.as_str(), city) && data.category == category && !data.is_occupied(
                time,
            ) {
                let id = HotelId::new(h).unwrap();
                out.push((id, room, data.price.clone()));
                proof {
                    let row = (h, room, data.price@);
                    assert(offer_rows(out@) =~= before.push(row));
                    assert(!before.contains(row)) by {
                        if before.contains(row) {
                            let x = choose|x: int| 0 <= x < before.len() && before[x] == row;
                            assert(listed(keys@, i as int, (before[x].0, before[x].1)));
                            let y = choose|y: int| 0 <= y < i && keys@[y] == (h, room);
                            assert(keys@[y] == keys@[i as int]);
                        }
                    }
                    lemma_push_no_duplicates(before, row);
                    assert(wanted.contains(row));
                }
            }
            proof {
                let rows = offer_rows(out@);
                assert forall|x: int| 0 <= x < rows.len() implies listed(
                    keys@,
                    i + 1,
                    ((#[trigger] rows[x]).0, rows[x].1),
                ) && wanted.contains(rows[x]) by {
                    if x < before.len() {
                        assert(rows[x] == before[x]);
                        let key = (before[x].0, before[x].1);
                        assert(listed(keys@, i as int, key));
                        let y = choose|y: int| 0 <= y < i && keys@[y] == key;
                        assert(0 <= y < i + 1 && keys@[y] == key);
                    } else {
                        assert(0 <= i < i + 1 && keys@[i as int] == (rows[x].0, rows[x].1));
                    }
                }
                assert forall|row: OfferRow|
                    wanted.contains(row) && listed(keys@, i + 1, (row.0, row.1)) implies rows.contains(
                    row,
                ) by {
                    let y = choose|y: int| 0 <= y < i + 1 && keys@[y] == (row.0, row.1);
                    if y < i {
                        assert(listed(keys@, i as int, (row.0, row.1)));
                        assert(before.contains(row));
                        let x = choose|x: int| 0 <= x < before.len() && before[x] == row;
                        assert(rows[x] == row);
                    } else {
                        assert(rows[rows.len() - 1] == row);
                    }
                }
            }
            i += 1;
        }
        proof {
            let rows = offer_rows(out@);
            let wanted = self@.available(city@, category, *time);
            assert forall|row: OfferRow| rows.to_set().contains(row) <==> wanted.contains(row) by {
                if rows.to_set().contains(row) {
                    let x = choose|x: int| 0 <= x < rows.len() && rows[x] == row;
                    assert(wanted.contains(rows[x]));
                }
                if wanted.contains(row) {
                    assert(keys@.contains((row.0, row.1)));
                    let y = choose|y: int| 0 <= y < keys@.len() && keys@[y] == (row.0, row.1);
                    assert(listed(keys@, i as int, (row.0, row.1)));
                }
            }
            assert(rows.to_set() =~= wanted);
        }
        out
    }
    /// All bookings, in no order.
    pub fn bookings(&self) -> (r: Vec<Booking>)
        requires
            self.wf(),
        ensures
            r@.no_duplicates(),
            r@.to_set() == self@.bookings(),
    {
        let keys = self.room_keys();
        let mut out: Vec<Booking> = Vec::new();
        let mut i: usize = 0;
        while i < keys.len()
            invariant
                i <= keys.len(),
                self.wf(),
                keys@.no_duplicates(),
                forall|h: u32, room: RoomId| keys@.contains((h, room)) <==> self@.has_room(h, room),
                out@.no_duplicates(),
                forall|b: Booking|
                    #![trigger out@.contains(b)]
                    out@.contains(b) <==> booked_in(self@, keys@, i as int, b),
            decreases keys.len() - i,
        {
            let (h, room) = keys[i];
            assert(keys@.contains((h, room)));
            let data = self.room_at(h, room);
            assert(self@.has_room(h, room));
            let ghost list = data.bookings@;
            assert(list.no_duplicates());
            let mut j: usize = 0;
            while j < data.bookings.len()
                invariant
                    j <= data.bookings.len(),
                    i < keys.len(),
                    keys@[i as int] == (h, room),
                    self.wf(),
                    keys@.no_duplicates(),
                    self@.has_room(h, room),
                    data@ == self@.room(h, room),
                    list == data.bookings@,
                    list.no_duplicates(),
                    out@.no_duplicates(),
                    forall|b: Booking|
                        #![trigger out@.contains(b)]
                        out@.contains(b) <==> booked_in(self@, keys@, i as int, b) || listed(
                            list,
                            j as int,
                            b,
                        ),
                decreases data.bookings.len() - j,
            {
                let b = data.bookings[j].clone();
                let ghost before = out@;
                proof {
                    assert(list.to_set().contains(list[j as int]));
                    assert(self@.has_booking(h, room, b));
                    if before.contains(b) {
                        if booked_in(self@, keys@, i as int, b) {
                            let x = choose|x: int|
                                0 <= x < i && self@.has_booking(keys@[x].0, keys@[x].1, b);
                            assert(self@.has_booking(keys@[x].0, keys@[x].1, b)
                                && self@.has_booking(h, room, b));
                            assert(keys@[x] == keys@[i as int]);
                        } else {
                            assert(listed(list, j as int, b));
                            let y = choose|y: int| 0 <= y < j && list[y] == b;
                            assert(list[y] == list[j as int]);
                        }
                    }
                    lemma_push_no_duplicates(before, b);
                }
                out.push(b);
                proof {
                    assert forall|c: Booking|
                        #![trigger out@.contains(c)]
                        out@.contains(c) <==> booked_in(self@, keys@, i as int, c) || listed(
                            list,
                            j + 1,
                            c,
                        ) by {
                        vstd::seq_lib::lemma_seq_contains_after_push(before, b, c);
                        if listed(list, j + 1, c) {
                            let y = choose|y: int| 0 <= y < j + 1 && list[y] == c;
                            if y < j {
                                assert(listed(list, j as int, c));
                            }
                        }
                        if listed(list, j as int, c) {
                            let y = choose|y: int| 0 <= y < j && list[y] == c;
                            assert(0 <= y < j + 1 && list[y] == c);
                        }
                        if c == b {
                            assert(list[j as int] == c);
                        }
                    }
                }
                j += 1;
            }
            proof {
                assert forall|b: Booking|
                    #![trigger out@.contains(b)]
                    out@.contains(b) <==> booked_in(self@, keys@, i + 1, b) by {
                    if booked_in(self@, keys@, i + 1, b) {
                        let x = choose|x: int|
                            0 <= x < i + 1 && self@.has_booking(keys@[x].0, keys@[x].1, b);
                        if x < i {
                            assert(booked_in(self@, keys@, i as int, b));
                        } else {
                            assert(list.to_set().contains(b));
                            let y = choose|y: int| 0 <= y < list.len() && list[y] == b;
                            assert(listed(list, j as int, b));
                        }
                    }
                    if booked_in(self@, keys@, i as int, b) {
                        let x = choose|x: int|
                            0 <= x < i && self@.has_booking(keys@[x].0, keys@[x].1, b);
                        assert(0 <= x < i + 1 && self@.has_booking(keys@[x].0, keys@[x].1, b));
                    }
                    if listed(list, j as int, b) {
                        let y = choose|y: int| 0 <= y < j && list[y] == b;
                        assert(list.to_set().contains(list[y]));
                        assert(self@.has_booking(keys@[i as int].0, keys@[i as int].1, b));
                    }
                }
            }
            i += 1;
        }
        proof {
            assert forall|b: Booking| out@.to_set().contains(b) <==> self@.bookings().contains(
                b,
            ) by {
                if out@.contains(b) {
                    let x = choose|x: int|
                        0 <= x < i && self@.has_booking(keys@[x].0, keys@[x].1, b);
                    assert(self@.has_booking(keys@[x].0, keys@[x].1, b));
                }
                if self@.bookings().contains(b) {
                    let (h, room) = choose|h: u32, room: RoomId| self@.has_booking(h, room, b);
                    assert(keys@.contains((h, room)));
                    let x = choose|x: int| 0 <= x < keys@.len() && keys@[x] == (h, room);
                    assert(self@.has_booking(keys@[x].0, keys@[x].1, b));
                    assert(booked_in(self@, keys@, i as int, b));
                }
            }
            assert(out@.to_set() =~= self@.bookings());
        }
        out
    }

    /// Where the booking with the id stands: hotel, room, and index in the
    /// room's list.
    fn locate(&self, id: BookingId) -> (r: Option<(u32, RoomId, usize)>)
        ensures
            match r {
                Some((h, room, k)) => self@.has_room(h, room) && k
                    < self.hotels@[h].rooms@[room].bookings@.len()
                    && self.hotels@[h].rooms@[room].bookings@[k as int].id == id,
                None => forall|h: u32, room: RoomId, b: Booking| #[trigger]
                    self@.has_booking(h, room, b) ==> b.id != id,
            },
    {
        let keys = self.room_keys();
        let mut i: usize = 0;
        while i < keys.len()
            invariant
                i <= keys.len(),
                forall|h: u32, room: RoomId| keys@.contains((h, room)) <==> self@.has_room(h, room),
                forall|x: int, b: Booking|
                    0 <= x < i && #[trigger] self@.has_booking(keys@[x].0, keys@[x].1, b) ==> b.id
                        != id,
            decreases keys.len() - i,
        {
            let (h, room) = keys[i];
            assert(keys@.contains((h, room)));
            let data = self.room_at(h, room);
            assert(self@.has_room(h, room));
            let mut j: usize = 0;
            while j < data.bookings.len()
                invariant
                    j <= data.bookings.len(),
                    self@.has_room(h, room),
                    *data == self.hotels@[h].rooms@[room],
                    forall|y: int| 0 <= y < j ==> data.bookings@[y].id != id,
                decreases data.bookings.len() - j,
            {
                if data.bookings[j].id == id {
                    return Some((h, room, j));
                }
                j += 1;
            }
            proof {
                assert forall|x: int, b: Booking|
                    0 <= x < i + 1 && #[trigger] self@.has_booking(
                        keys@[x].0,
                        keys@[x].1,
                        b,
                    ) implies b.id != id by {
                    if x == i {
                        assert(data.bookings@.to_set().contains(b));
                        let y = choose|y: int|
                            0 <= y < data.bookings@.len() && data.bookings@[y] == b;
                        assert(data.bookings@[y].id != id);
                    }
                }
            }
            i += 1;
        }
        proof {
            assert forall|h: u32, room: RoomId, b: Booking| #[trigger]
                self@.has_booking(h, room, b) implies b.id != id by {
                assert(keys@.contains((h, room)));
                let x = choose|x: int| 0 <= x < keys@.len() && keys@[x] == (h, room);
                assert(self@.has_booking(keys@[x].0, keys@[x].1, b));
            }
        }
        None
    }

    /// Removes the booking with the id. Fails where there is none, and where
    /// it belongs to another customer.
    pub fn cancel(&mut self, booking_id: BookingId, customer: CustomerId) -> (r: Result<
        (),
        CommandError,
    >)
        requires
            old(self).wf(),
        ensures
            final(self).wf(),
            match old(self)@.cancel(booking_id, customer) {
                Ok(after) => r is Ok && final(self)@ == after,
                Err(e) => r matches Err(err) && err@ == e && final(self)@ == old(self)@,
            },
    {
        let (h, room, k) = match self.locate(booking_id) {
            None => {
                proof {
                    lemma_find_no_booking(self@, booking_id);
                }
                return Err(
                    number_failure(
                        ErrorKind::NotFound,
                        "Could not find booking with id ",
                        booking_id,
                    ),
                );
            },
            Some(found) => found,
        };
        let owner = self.room_at(h, room).bookings[k].customer;
        let ghost b = self.hotels@[h].rooms@[room].bookings@[k as int];
        proof {
            assert(self.hotels@[h].rooms@[room].bookings@.to_set().contains(b));
            assert(self@.has_booking(h, room, b));
            lemma_find_booking(self@, h, room, b);
        }
        if owner != customer {
            return Err(
                number_failure(
                    ErrorKind::Authorization,
                    "This booking does not belong to customer ",
                    customer,
                ),
            );
        }
        assert(self@.hotels.contains_key(h));
        let mut hotel = self.hotels.remove(&h).unwrap();
        let ghost hotel_before = hotel@;
        let mut data = hotel.rooms.remove(&room).unwrap();
        let ghost room_before = data@;
        let ghost list_before = data.bookings@;
        data.bookings.swap_remove(k);
        proof {
            lemma_swap_remove(list_before, k as int);
            assert(data@.bookings =~= room_before.bookings.remove(b));
        }
        hotel.rooms.insert(room, data);
        assert(hotel@.rooms =~= hotel_before.rooms.insert(room, data@));
        self.hotels.insert(h, hotel);
        proof {
            let after = old(self)@.cancel(booking_id, customer)->Ok_0;
            assert(self@.hotels =~= after.hotels);
            lemma_cancel_inv(old(self)@, booking_id, customer);
        }
        Ok(())
    }
}

} // verus!
