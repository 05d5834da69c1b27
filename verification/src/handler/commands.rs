//! The commands of the language, each from typed arguments to its output.

use vstd::prelude::*;
use vstd::string::StringExecFns;
use std::ops::Range;
use vstd::slice::slice_subrange;
use crate::category::{category_text, parse_category, Category};
use crate::data::{Booking, BookingId, CustomerId, Person, PersonView, RoomId};
use crate::date::{date_of, date_text, lemma_date_of, nights_between, parse_date, Date};
use crate::decimal::{append_decimal, decimal_text, parse_bounded, parse_unsigned, str_eq};
use crate::error::{
    int_error_message, parse_failure, unknown_command, CommandError, ErrorKind, ErrorView,
};
use crate::hotel_id::{hotel_id_text, parse_hotel_id, HotelId};
use crate::listing::{
    distinct_keys, in_order, is_listing, join, join_in_order, join_lines, key_before, key_less,
    lemma_join_push, lemma_listing_exists, lemma_order_listing, listing, sort_keys, texts_of, Key,
};
use crate::model::{offer_rows, room_rows, Model};
use crate::price::{parse_price, price_text, Price};
use crate::state::{
    lemma_available_finite, lemma_add_hotel_inv, lemma_add_room_inv, lemma_book_inv, lemma_cancel_inv,
    lemma_get_customer_inv, lemma_remove_hotel_inv, lemma_remove_room_inv, ModelView, OfferRow,
    RoomRow,
};

verus! {

/// What a command does: the state that it leaves, and its output or failure.
pub type Outcome = (ModelView, Result<Seq<char>, ErrorView>);

/// The output of a command that has nothing else to say.
pub open spec fn ok_text() -> Seq<char> {
    "OK"@
}

/// The outcome of a change of the state, where the state was `before`.
pub open spec fn outcome_of(change: Result<ModelView, ErrorView>, before: ModelView) -> Outcome {
    match change {
        Ok(after) => (after, Ok(ok_text())),
        Err(e) => (before, Err(e)),
    }
}

/// Whether a model and a result are what the outcome says.
pub open spec fn is_outcome(after: ModelView, r: Result<String, CommandError>, outcome: Outcome)
    -> bool {
    &&& after == outcome.0
    &&& match outcome.1 {
        Ok(text) => r matches Ok(s) && s@ == text,
        Err(e) => r matches Err(err) && err@ == e,
    }
}

/// What rooms are listed by: hotel, then room number.
pub open spec fn room_key() -> spec_fn(RoomRow) -> Key {
    |row: RoomRow| (row.0 as u64, row.1)
}

/// What available rooms are listed by: hotel, then room number.
pub open spec fn offer_key() -> spec_fn(OfferRow) -> Key {
    |row: OfferRow| (row.0 as u64, row.1)
}

/// What bookings are listed by: the booking id.
pub open spec fn booking_key() -> spec_fn(Booking) -> Key {
    |b: Booking| (b.id, 0u64)
}

/// The line of a room: hotel, room number, category, price a night.
pub open spec fn room_line() -> spec_fn(RoomRow) -> Seq<char> {
    |row: RoomRow|
        hotel_id_text(row.0 as nat) + " "@ + decimal_text(row.1 as nat) + " "@ + category_text(
            row.2,
        ) + " "@ + price_text(row.3)
}

/// The line of an available room: hotel, room number, price a night.
pub open spec fn offer_line() -> spec_fn(OfferRow) -> Seq<char> {
    |row: OfferRow|
        hotel_id_text(row.0 as nat) + " "@ + decimal_text(row.1 as nat) + " "@ + price_text(row.2)
}

/// The line of a booking: its id, the customer, the first day, the last day.
pub open spec fn booking_line() -> spec_fn(Booking) -> Seq<char> {
    |b: Booking|
        decimal_text(b.id as nat) + " "@ + decimal_text(b.customer as nat) + " "@ + date_text(
            b.time.start@,
        ) + " "@ + date_text(b.time.end@)
}

/// The list of all rooms, by hotel and room number, a line each.
pub open spec fn rooms_text(m: ModelView) -> Seq<char> {
    join_lines(listing(m.rooms(), room_key()).map_values(room_line()))
}

/// The list of all bookings, by booking id, a line each.
pub open spec fn bookings_text(m: ModelView) -> Seq<char> {
    join_lines(listing(m.bookings(), booking_key()).map_values(booking_line()))
}

/// The list of the available rooms, by hotel and room number, a line each.
pub open spec fn available_text(m: ModelView, city: Seq<char>, category: Category, time: Range<Date>)
    -> Seq<char> {
    join_lines(listing(m.available(city, category, time), offer_key()).map_values(offer_line()))
}

/// Whether the first offer is chosen before the second: by price, then
/// hotel, then room number.
pub open spec fn offer_before(a: OfferRow, b: OfferRow) -> bool {
    a.2 < b.2 || (a.2 == b.2 && key_less(offer_key()(a), offer_key()(b)))
}

/// Whether `row` is the offer that is chosen before all others.
pub open spec fn is_cheapest(row: OfferRow, offers: Set<OfferRow>) -> bool {
    offers.contains(row) && forall|other: OfferRow|
        offers.contains(other) && other != row ==> offer_before(row, other)
}

/// The offer that is chosen before all others, if there is one.
pub open spec fn cheapest(offers: Set<OfferRow>) -> Option<OfferRow> {
    if exists|row: OfferRow| is_cheapest(row, offers) {
        Some(choose|row: OfferRow| is_cheapest(row, offers))
    } else {
        None
    }
}

/// The cheapest available room with the price of the whole stay; nothing
/// where no room is available.
pub open spec fn cheapest_text(m: ModelView, city: Seq<char>, category: Category, time: Range<Date>)
    -> Seq<char> {
    match cheapest(m.available(city, category, time)) {
        None => Seq::<char>::empty(),
        Some(row) => hotel_id_text(row.0 as nat) + " "@ + decimal_text(row.1 as nat) + " "@
            + price_text(row.2 * nights_between(time.start@, time.end@)),
    }
}

/// Booking for a person. Where the room cannot be booked, nothing changes.
/// Else the person gets or keeps its customer id, the room is booked for it,
/// and the output is the booking id and the customer id.
pub open spec fn book_outcome(
    m: ModelView,
    hotel: u32,
    room: RoomId,
    time: Range<Date>,
    person: PersonView,
) -> Outcome {
    match m.booking_failure(hotel, room, time) {
        Some(e) => (m, Err(e)),
        None => {
            let (known, customer) = m.get_customer(person);
            let (after, id) = known.book(hotel, room, time, customer as CustomerId)->Ok_0;
            (after, Ok(decimal_text(id as nat) + " "@ + decimal_text(customer)))
        },
    }
}

/// There is at most one offer that is chosen before all others.
pub proof fn lemma_cheapest(row: OfferRow, offers: Set<OfferRow>)
    requires
        is_cheapest(row, offers),
    ensures
        cheapest(offers) == Some(row),
{
    let chosen = choose|other: OfferRow| is_cheapest(other, offers);
    if chosen != row {
        assert(offer_before(row, chosen) && offer_before(chosen, row));
    }
}

/// Among finitely many offers, one is chosen before all others, unless
/// there is none.
pub proof fn lemma_cheapest_exists(offers: Set<OfferRow>)
    requires
        offers.finite(),
    ensures
        match cheapest(offers) {
            Some(row) => is_cheapest(row, offers),
            None => offers == Set::<OfferRow>::empty(),
        },
    decreases offers.len(),
{
    if offers.len() == 0 {
        offers.lemma_len0_is_empty();
    } else {
        let x = offers.choose();
        let rest = offers.remove(x);
        lemma_cheapest_exists(rest);
        match cheapest(rest) {
            None => {
                assert forall|other: OfferRow|
                    offers.contains(other) && other != x implies offer_before(x, other) by {
                    assert(rest.contains(other));
                }
                assert(is_cheapest(x, offers));
            },
            Some(least) => {
                assert(rest.contains(least));
                if offer_before(x, least) {
                    assert forall|other: OfferRow|
                        offers.contains(other) && other != x implies offer_before(x, other) by {
                        assert(rest.contains(other));
                    }
                    assert(is_cheapest(x, offers));
                } else {
                    assert forall|other: OfferRow|
                        offers.contains(other) && other != least implies offer_before(
                        least,
                        other,
                    ) by {
                        if other != x {
                            assert(rest.contains(other));
                        }
                    }
                    assert(is_cheapest(least, offers));
                }
            },
        }
    }
}

/// In a valid state the lists are what their names say. The list of rooms
/// holds every room once, by hotel and room number; the list of bookings
/// holds every booking once, by booking id; the list of available rooms holds
/// every available room once, by hotel and room number; and the cheapest
/// room is an available room that is chosen before all others, and there is
/// none only where no room is available.
pub proof fn law_lists(m: ModelView, city: Seq<char>, category: Category, time: Range<Date>)
    requires
        m.inv(),
    ensures
        is_listing(listing(m.rooms(), room_key()), m.rooms(), room_key()),
        is_listing(listing(m.bookings(), booking_key()), m.bookings(), booking_key()),
        is_listing(
            listing(m.available(city, category, time), offer_key()),
            m.available(city, category, time),
            offer_key(),
        ),
        match cheapest(m.available(city, category, time)) {
            Some(row) => is_cheapest(row, m.available(city, category, time)),
            None => m.available(city, category, time) == Set::<OfferRow>::empty(),
        },
{
    lemma_available_finite(m, city, category, time);
    assert(distinct_keys(m.rooms(), room_key()));
    lemma_listing_exists(m.rooms(), room_key());
    assert(distinct_keys(m.available(city, category, time), offer_key()));
    lemma_listing_exists(m.available(city, category, time), offer_key());
    assert forall|a: Booking, b: Booking|
        m.bookings().contains(a) && m.bookings().contains(b) && booking_key()(a) == booking_key()(
            b,
        ) implies a == b by {
        let (h1, r1) = choose|h: u32, r: RoomId| m.has_booking(h, r, a);
        let (h2, r2) = choose|h: u32, r: RoomId| m.has_booking(h, r, b);
        assert(m.has_booking(h1, r1, a) && m.has_booking(h2, r2, b));
    }
    lemma_listing_exists(m.bookings(), booking_key());
    lemma_cheapest_exists(m.available(city, category, time));
}

fn ok_string() -> (r: String)
    ensures
        r@ == ok_text(),
{
    String::from_str("OK")
}

/// `add hotel`: adds a hotel without rooms.
pub fn add_hotel(model: &mut Model, id: HotelId, city: String) -> (r: Result<String, CommandError>)
    requires
        old(model).wf(),
    ensures
        final(model).wf(),
        is_outcome(final(model)@, r, outcome_of(old(model)@.add_hotel(id@, city@), old(model)@)),
{
    match model.add_hotel(id, city) {
        Ok(()) => Ok(ok_string()),
        Err(e) => Err(e),
    }
}

/// `add room`: adds a room without bookings to a hotel.
pub fn add_room(model: &mut Model, hotel: HotelId, room: RoomId, category: Category, price: Price)
    -> (r: Result<String, CommandError>)
    requires
        old(model).wf(),
    ensures
        final(model).wf(),
        is_outcome(
            final(model)@,
            r,
            outcome_of(old(model)@.add_room(hotel@, room, category, price@), old(model)@),
        ),
{
    match model.add_room(hotel, room, category, price) {
        Ok(()) => Ok(ok_string()),
        Err(e) => Err(e),
    }
}

/// `remove hotel`: removes a hotel with its rooms and their bookings.
pub fn remove_hotel(model: &mut Model, id: HotelId) -> (r: Result<String, CommandError>)
    requires
        old(model).wf(),
    ensures
        final(model).wf(),
        is_outcome(final(model)@, r, outcome_of(old(model)@.remove_hotel(id@), old(model)@)),
{
    match model.remove_hotel(id) {
        Ok(()) => Ok(ok_string()),
        Err(e) => Err(e),
    }
}

/// `remove room`: removes a room with its bookings.
pub fn remove_room(model: &mut Model, hotel: HotelId, id: RoomId) -> (r: Result<
    String,
    CommandError,
>)
    requires
        old(model).wf(),
    ensures
        final(model).wf(),
        is_outcome(final(model)@, r, outcome_of(old(model)@.remove_room(hotel@, id), old(model)@)),
{
    match model.remove_room(hotel, id) {
        Ok(()) => Ok(ok_string()),
        Err(e) => Err(e),
    }
}

/// `cancel`: removes a booking for the customer that it belongs to.
pub fn cancel(model: &mut Model, booking: BookingId, customer: CustomerId) -> (r: Result<
    String,
    CommandError,
>)
    requires
        old(model).wf(),
    ensures
        final(model).wf(),
        is_outcome(final(model)@, r, outcome_of(old(model)@.cancel(booking, customer), old(model)@)),
{
    match model.cancel(booking, customer) {
        Ok(()) => Ok(ok_string()),
        Err(e) => Err(e),
    }
}

/// `book`: books a room for a person, and tells the booking id and the
/// customer id of the person.
pub fn book(
    model: &mut Model,
    hotel_id: HotelId,
    room_id: RoomId,
    start: Date,
    end: Date,
    forename: String,
    surname: String,
) -> (r: Result<String, CommandError>)
    requires
        old(model).wf(),
    ensures
        final(model).wf(),
        is_outcome(
            final(model)@,
            r,
            book_outcome(
                old(model)@,
                hotel_id@,
                room_id,
                Range { start, end },
                PersonView { forename: forename@, surname: surname@ },
            ),
        ),
{
    let time = Range { start, end };
    match model.check_booking(hotel_id, room_id, &time) {
        Err(e) => {
            return Err(e);
        },
        Ok(()) => {},
    }
    let customer = model.get_customer(Person { forename, surname });
    match model.book(hotel_id, room_id, time, customer) {
        Ok(id) => {
            let mut out = String::new();
            append_decimal(&mut out, id);
            out.append(" ");
            append_decimal(&mut out, customer);
            assert(out@ =~= decimal_text(id as nat) + " "@ + decimal_text(customer as nat));
            Ok(out)
        },
        Err(e) => Err(e),
    }
}

/// The line of a room.
fn room_line_string(row: &(HotelId, RoomId, Category, Price)) -> (r: String)
    ensures
        r@ == room_line()((row.0@, row.1, row.2, row.3@)),
{
    let mut out = row.0.to_string();
    out.append(" ");
    append_decimal(&mut out, row.1);
    out.append(" ");
    let category = row.2.to_string();
    out.append(category.as_str());
    out.append(" ");
    let price = row.3.to_string();
    out.append(price.as_str());
    assert(out@ =~= room_line()((row.0@, row.1, row.2, row.3@)));
    out
}

/// The line of an available room with a price.
fn offer_line_string(hotel: &HotelId, room: RoomId, price: &Price) -> (r: String)
    ensures
        r@ == hotel_id_text(hotel@ as nat) + " "@ + decimal_text(room as nat) + " "@ + price_text(
            price@,
        ),
{
    let mut out = hotel.to_string();
    out.append(" ");
    append_decimal(&mut out, room);
    out.append(" ");
    let text = price.to_string();
    out.append(text.as_str());
    assert(out@ =~= hotel_id_text(hotel@ as nat) + " "@ + decimal_text(room as nat) + " "@
        + price_text(price@));
    out
}

/// The line of a booking.
fn booking_line_string(b: &Booking) -> (r: String)
    ensures
        r@ == booking_line()(*b),
{
    let mut out = String::new();
    append_decimal(&mut out, b.id);
    out.append(" ");
    append_decimal(&mut out, b.customer);
    out.append(" ");
    let start = b.time.start.to_string();
    out.append(start.as_str());
    out.append(" ");
    let end = b.time.end.to_string();
    out.append(end.as_str());
    assert(out@ =~= booking_line()(*b));
    out
}

/// `list rooms`: all rooms by hotel and room number, a line each.
pub fn list_rooms(model: &Model) -> (r: Result<String, CommandError>)
    requires
        model.wf(),
    ensures
        r matches Ok(text) && text@ == rooms_text(model@),
{
    let rooms = model.rooms();
    let ghost rows = room_rows(rooms@);
    let mut keys: Vec<Key> = Vec::new();
    let mut lines: Vec<String> = Vec::new();
    let mut i: usize = 0;
    while i < rooms.len()
        invariant
            i <= rooms.len(),
            rows == room_rows(rooms@),
            keys@.len() == i,
            lines@.len() == i,
            forall|x: int| 0 <= x < i ==> (#[trigger] keys@[x]) == room_key()(rows[x]),
            forall|x: int| 0 <= x < i ==> (#[trigger] lines@[x])@ == room_line()(rows[x]),
        decreases rooms.len() - i,
    {
        let row = &rooms[i];
        keys.push((row.0.get() as u64, row.1));
        lines.push(room_line_string(row));
        i += 1;
    }
    proof {
        assert forall|x: int, y: int|
            0 <= x < keys@.len() && 0 <= y < keys@.len() && x != y implies keys@[x]
            != keys@[y] by {
            if keys@[x] == keys@[y] {
                assert(rows.to_set().contains(rows[x]));
                assert(rows.to_set().contains(rows[y]));
                assert(rows[x] == rows[y]);
            }
        }
    }
    let order = sort_keys(&keys);
    let out = join_in_order(&lines, &order);
    proof {
        lemma_order_listing(rows, keys@, order@, room_key());
        assert(in_order(texts_of(lines@), order@) =~= in_order(rows, order@).map_values(
            room_line(),
        ));
    }
    Ok(out)
}

/// `list bookings`: all bookings by booking id, a line each.
pub fn list_bookings(model: &Model) -> (r: Result<String, CommandError>)
    requires
        model.wf(),
    ensures
        r matches Ok(text) && text@ == bookings_text(model@),
{
    let bookings = model.bookings();
    let ghost rows = bookings@;
    let mut keys: Vec<Key> = Vec::new();
    let mut lines: Vec<String> = Vec::new();
    let mut i: usize = 0;
    while i < bookings.len()
        invariant
            i <= bookings.len(),
            rows == bookings@,
            keys@.len() == i,
            lines@.len() == i,
            forall|x: int| 0 <= x < i ==> (#[trigger] keys@[x]) == booking_key()(rows[x]),
            forall|x: int| 0 <= x < i ==> (#[trigger] lines@[x])@ == booking_line()(rows[x]),
        decreases bookings.len() - i,
    {
        let b = &bookings[i];
        keys.push((b.id, 0));
        lines.push(booking_line_string(b));
        i += 1;
    }
    proof {
        model.lemma_wf();
        assert forall|x: int, y: int|
            0 <= x < keys@.len() && 0 <= y < keys@.len() && x != y implies keys@[x]
            != keys@[y] by {
            if keys@[x] == keys@[y] {
                assert(rows.to_set().contains(rows[x]));
                assert(rows.to_set().contains(rows[y]));
                let (h1, r1) = choose|h: u32, r: RoomId| model@.has_booking(h, r, rows[x]);
                let (h2, r2) = choose|h: u32, r: RoomId| model@.has_booking(h, r, rows[y]);
                assert(model@.has_booking(h1, r1, rows[x]) && model@.has_booking(h2, r2, rows[y]));
                assert(rows[x] == rows[y]);
            }
        }
    }
    let order = sort_keys(&keys);
    let out = join_in_order(&lines, &order);
    proof {
        lemma_order_listing(rows, keys@, order@, booking_key());
        assert(in_order(texts_of(lines@), order@) =~= in_order(rows, order@).map_values(
            booking_line(),
        ));
    }
    Ok(out)
}

/// `find available`: the available rooms by hotel and room number, a line
/// each, with their prices a night.
pub fn find_available(model: &Model, city: String, category: Category, start: Date, end: Date) -> (r:
    Result<String, CommandError>)
    requires
        model.wf(),
    ensures
        r matches Ok(text) && text@ == available_text(
            model@,
            city@,
            category,
            Range { start, end },
        ),
{
    let time = Range { start, end };
    let offers = model.avaiable(city.as_str(), category, &time);
    let ghost rows = offer_rows(offers@);
    let mut keys: Vec<Key> = Vec::new();
    let mut lines: Vec<String> = Vec::new();
    let mut i: usize = 0;
    while i < offers.len()
        invariant
            i <= offers.len(),
            rows == offer_rows(offers@),
            keys@.len() == i,
            lines@.len() == i,
            forall|x: int| 0 <= x < i ==> (#[trigger] keys@[x]) == offer_key()(rows[x]),
            forall|x: int| 0 <= x < i ==> (#[trigger] lines@[x])@ == offer_line()(rows[x]),
        decreases offers.len() - i,
    {
        let row = &offers[i];
        keys.push((row.0.get() as u64, row.1));
        lines.push(offer_line_string(&row.0, row.1, &row.2));
        i += 1;
    }
    proof {
        assert forall|x: int, y: int|
            0 <= x < keys@.len() && 0 <= y < keys@.len() && x != y implies keys@[x]
            != keys@[y] by {
            if keys@[x] == keys@[y] {
                assert(rows.to_set().contains(rows[x]));
                assert(rows.to_set().contains(rows[y]));
                assert(rows[x] == rows[y]);
            }
        }
    }
    let order = sort_keys(&keys);
    let out = join_in_order(&lines, &order);
    proof {
        lemma_order_listing(rows, keys@, order@, offer_key());
        assert(in_order(texts_of(lines@), order@) =~= in_order(rows, order@).map_values(
            offer_line(),
        ));
    }
    Ok(out)
}

/// Whether the first offer is chosen before the second.
fn offer_precedes(a: &(HotelId, RoomId, Price), b: &(HotelId, RoomId, Price)) -> (r: bool)
    ensures
        r == offer_before((a.0@, a.1, a.2@), (b.0@, b.1, b.2@)),
{
    a.2.less_than(&b.2) || (a.2.same_as(&b.2) && key_before(
        (a.0.get() as u64, a.1),
        (b.0.get() as u64, b.1),
    ))
}

/// `find cheapest`: the available room that is lowest by price, hotel and
/// room number, with the price of the whole stay.
pub fn find_cheapest(model: &Model, city: String, category: Category, start: Date, end: Date) -> (r:
    Result<String, CommandError>)
    requires
        model.wf(),
    ensures
        r matches Ok(text) && text@ == cheapest_text(
            model@,
            city@,
            category,
            Range { start, end },
        ),
{
    let time = Range { start, end };
    let offers = model.avaiable(city.as_str(), category, &time);
    let ghost rows = offer_rows(offers@);
    let ghost wanted = model@.available(city@, category, time);
    if offers.len() == 0 {
        proof {
            if exists|row: OfferRow| is_cheapest(row, wanted) {
                let row = choose|row: OfferRow| is_cheapest(row, wanted);
                assert(rows.to_set().contains(row));
            }
        }
        return Ok(String::new());
    }
    let mut best: usize = 0;
    let mut j: usize = 1;
    while j < offers.len()
        invariant
            1 <= j <= offers.len(),
            best < j,
            rows == offer_rows(offers@),
            rows.no_duplicates(),
            rows.to_set() == wanted,
            wanted == model@.available(city@, category, time),
            forall|y: int| 0 <= y < j && y != best ==> offer_before(rows[best as int], #[trigger] rows[y]),
        decreases offers.len() - j,
    {
        proof {
            assert(rows.to_set().contains(rows[j as int]));
            assert(rows.to_set().contains(rows[best as int]));
            assert(rows[j as int] != rows[best as int]);
        }
        if offer_precedes(&offers[j], &offers[best]) {
            best = j;
        }
        j += 1;
    }
    proof {
        assert(rows.to_set().contains(rows[best as int]));
        assert forall|other: OfferRow|
            wanted.contains(other) && other != rows[best as int] implies offer_before(
            rows[best as int],
            other,
        ) by {
            assert(rows.to_set().contains(other));
            let y = choose|y: int| 0 <= y < rows.len() && rows[y] == other;
            assert(offer_before(rows[best as int], rows[y]));
        }
        lemma_cheapest(rows[best as int], wanted);
    }
    let nights = start.nights_until(&end);
    let chosen = &offers[best];
    let total = chosen.2.times(nights);
    Ok(offer_line_string(&chosen.0, chosen.1, &total))
}

/// The texts of the string slices.
pub open spec fn texts(args: Seq<&str>) -> Seq<Seq<char>> {
    args.map_values(|arg: &str| arg@)
}

/// The text of the string slice, if there is one.
pub open spec fn text_of(arg: Option<&str>) -> Option<Seq<char>> {
    match arg {
        Some(s) => Some(s@),
        None => None,
    }
}

/// The first of the arguments, if there is one.
pub open spec fn first_arg(args: Seq<Seq<char>>) -> Option<Seq<char>> {
    if args.len() > 0 {
        Some(args[0])
    } else {
        None
    }
}

/// The message for a command without its target.
pub open spec fn missing_target_message(targets: Seq<Seq<char>>) -> Seq<char> {
    "Missing target, expected one of "@ + join(targets, ", "@)
}

/// The message for a target that the command does not have.
pub open spec fn unknown_target_message(target: Seq<char>, targets: Seq<Seq<char>>) -> Seq<char> {
    "Unknown target "@ + target + ", expected one of "@ + join(targets, ", "@)
}

/// The message for a word that is no command.
pub open spec fn unknown_command_message(command: Seq<char>) -> Seq<char> {
    "Unknown command '"@ + command + "'"@
}

/// The message for a number of arguments that the operation does not take.
pub open spec fn arity_message(expected: nat, got: nat) -> Seq<char> {
    "Expected "@ + decimal_text(expected) + " arguments, got "@ + decimal_text(got)
}

/// The target that a command is given: the argument, where it is one of the
/// targets of the command.
pub open spec fn expected_target(arg: Option<Seq<char>>, targets: Seq<Seq<char>>) -> Result<
    Seq<char>,
    ErrorView,
> {
    match arg {
        None => Err(parse_failure(missing_target_message(targets))),
        Some(target) => if targets.contains(target) {
            Ok(target)
        } else {
            Err(unknown_command(unknown_target_message(target, targets)))
        },
    }
}

/// Reads a room number, a booking id or a customer id.
pub open spec fn parse_number(s: Seq<char>) -> Result<u64, ErrorView> {
    match parse_unsigned(s, u64::MAX as nat) {
        Ok(n) => Ok(n as u64),
        Err(e) => Err(parse_failure(int_error_message(e))),
    }
}

/// `add hotel <id> <city>`.
pub open spec fn run_add_hotel(m: ModelView, args: Seq<Seq<char>>) -> Outcome {
    if args.len() != 2 {
        (m, Err(parse_failure(arity_message(2, args.len()))))
    } else {
        match parse_hotel_id(args[0]) {
            Err(e) => (m, Err(e)),
            Ok(id) => outcome_of(m.add_hotel(id as u32, args[1]), m),
        }
    }
}

/// `add room <hotelId> <roomId> <category> <price>`.
pub open spec fn run_add_room(m: ModelView, args: Seq<Seq<char>>) -> Outcome {
    if args.len() != 4 {
        (m, Err(parse_failure(arity_message(4, args.len()))))
    } else {
        match parse_hotel_id(args[0]) {
            Err(e) => (m, Err(e)),
            Ok(hotel) => match parse_number(args[1]) {
                Err(e) => (m, Err(e)),
                Ok(room) => match parse_category(args[2]) {
                    Err(e) => (m, Err(e)),
                    Ok(category) => match parse_price(args[3]) {
                        Err(e) => (m, Err(e)),
                        Ok(price) => outcome_of(m.add_room(hotel as u32, room, category, price), m),
                    },
                },
            },
        }
    }
}

/// `remove hotel <id>`.
pub open spec fn run_remove_hotel(m: ModelView, args: Seq<Seq<char>>) -> Outcome {
    if args.len() != 1 {
        (m, Err(parse_failure(arity_message(1, args.len()))))
    } else {
        match parse_hotel_id(args[0]) {
            Err(e) => (m, Err(e)),
            Ok(id) => outcome_of(m.remove_hotel(id as u32), m),
        }
    }
}

/// `remove room <hotelId> <roomId>`.
pub open spec fn run_remove_room(m: ModelView, args: Seq<Seq<char>>) -> Outcome {
    if args.len() != 2 {
        (m, Err(parse_failure(arity_message(2, args.len()))))
    } else {
        match parse_hotel_id(args[0]) {
            Err(e) => (m, Err(e)),
            Ok(hotel) => match parse_number(args[1]) {
                Err(e) => (m, Err(e)),
                Ok(room) => outcome_of(m.remove_room(hotel as u32, room), m),
            },
        }
    }
}

/// What a search is given: city, category, first day, last day.
pub open spec fn parse_search(args: Seq<Seq<char>>) -> Result<
    (Seq<char>, Category, Range<Date>),
    ErrorView,
> {
    if args.len() != 4 {
        Err(parse_failure(arity_message(4, args.len())))
    } else {
        match parse_category(args[1]) {
            Err(e) => Err(e),
            Ok(category) => match parse_date(args[2]) {
                Err(e) => Err(e),
                Ok(start) => match parse_date(args[3]) {
                    Err(e) => Err(e),
                    Ok(end) => Ok(
                        (args[0], category, Range { start: date_of(start), end: date_of(end) }),
                    ),
                },
            },
        }
    }
}

/// `find cheapest <city> <category> <start> <end>`.
pub open spec fn run_find_cheapest(m: ModelView, args: Seq<Seq<char>>) -> Outcome {
    match parse_search(args) {
        Err(e) => (m, Err(e)),
        Ok((city, category, time)) => (m, Ok(cheapest_text(m, city, category, time))),
    }
}

/// `find available <city> <category> <start> <end>`.
pub open spec fn run_find_available(m: ModelView, args: Seq<Seq<char>>) -> Outcome {
    match parse_search(args) {
        Err(e) => (m, Err(e)),
        Ok((city, category, time)) => (m, Ok(available_text(m, city, category, time))),
    }
}

/// `list rooms`.
pub open spec fn run_list_rooms(m: ModelView, args: Seq<Seq<char>>) -> Outcome {
    if args.len() != 0 {
        (m, Err(parse_failure(arity_message(0, args.len()))))
    } else {
        (m, Ok(rooms_text(m)))
    }
}

/// `list bookings`.
pub open spec fn run_list_bookings(m: ModelView, args: Seq<Seq<char>>) -> Outcome {
    if args.len() != 0 {
        (m, Err(parse_failure(arity_message(0, args.len()))))
    } else {
        (m, Ok(bookings_text(m)))
    }
}

/// `cancel <bookingId> <customerId>`.
pub open spec fn run_cancel(m: ModelView, args: Seq<Seq<char>>) -> Outcome {
    if args.len() != 2 {
        (m, Err(parse_failure(arity_message(2, args.len()))))
    } else {
        match parse_number(args[0]) {
            Err(e) => (m, Err(e)),
            Ok(booking) => match parse_number(args[1]) {
                Err(e) => (m, Err(e)),
                Ok(customer) => outcome_of(m.cancel(booking, customer), m),
            },
        }
    }
}

/// `book <hotelId> <roomId> <start> <end> <forename> <surname>`.
pub open spec fn run_book(m: ModelView, args: Seq<Seq<char>>) -> Outcome {
    if args.len() != 6 {
        (m, Err(parse_failure(arity_message(6, args.len()))))
    } else {
        match parse_hotel_id(args[0]) {
            Err(e) => (m, Err(e)),
            Ok(hotel) => match parse_number(args[1]) {
                Err(e) => (m, Err(e)),
                Ok(room) => match parse_date(args[2]) {
                    Err(e) => (m, Err(e)),
                    Ok(start) => match parse_date(args[3]) {
                        Err(e) => (m, Err(e)),
                        Ok(end) => book_outcome(
                            m,
                            hotel as u32,
                            room,
                            Range { start: date_of(start), end: date_of(end) },
                            PersonView { forename: args[4], surname: args[5] },
                        ),
                    },
                },
            },
        }
    }
}

/// The targets of `add` and of `remove`.
pub open spec fn add_targets() -> Seq<Seq<char>> {
    seq!["room"@, "hotel"@]
}

/// The targets of `find`.
pub open spec fn find_targets() -> Seq<Seq<char>> {
    seq!["cheapest"@, "available"@]
}

/// The targets of `list`.
pub open spec fn list_targets() -> Seq<Seq<char>> {
    seq!["rooms"@, "bookings"@]
}

/// What a command does to a state: the command word selects the operation,
/// for `add`, `remove`, `find` and `list` together with the target, which is
/// the first argument; the arguments that are left must be as many as the
/// operation takes, and are read from the first to the last.
pub open spec fn run_command(m: ModelView, command: Seq<char>, args: Seq<Seq<char>>) -> Outcome {
    if command == "add"@ {
        match expected_target(first_arg(args), add_targets()) {
            Err(e) => (m, Err(e)),
            Ok(target) => if target == "room"@ {
                run_add_room(m, args.drop_first())
            } else {
                run_add_hotel(m, args.drop_first())
            },
        }
    } else if command == "remove"@ {
        match expected_target(first_arg(args), add_targets()) {
            Err(e) => (m, Err(e)),
            Ok(target) => if target == "room"@ {
                run_remove_room(m, args.drop_first())
            } else {
                run_remove_hotel(m, args.drop_first())
            },
        }
    } else if command == "find"@ {
        match expected_target(first_arg(args), find_targets()) {
            Err(e) => (m, Err(e)),
            Ok(target) => if target == "cheapest"@ {
                run_find_cheapest(m, args.drop_first())
            } else {
                run_find_available(m, args.drop_first())
            },
        }
    } else if command == "list"@ {
        match expected_target(first_arg(args), list_targets()) {
            Err(e) => (m, Err(e)),
            Ok(target) => if target == "rooms"@ {
                run_list_rooms(m, args.drop_first())
            } else {
                run_list_bookings(m, args.drop_first())
            },
        }
    } else if command == "cancel"@ {
        run_cancel(m, args)
    } else if command == "book"@ {
        run_book(m, args)
    } else {
        (m, Err(unknown_command(unknown_command_message(command))))
    }
}

/// Every command leaves a valid state valid, and a command that fails leaves
/// the state as it was.
pub proof fn law_commands_keep_valid(m: ModelView, command: Seq<char>, args: Seq<Seq<char>>)
    requires
        m.inv(),
    ensures
        run_command(m, command, args).0.inv(),
        run_command(m, command, args).1 is Err ==> run_command(m, command, args).0 == m,
{
    assert forall|id: u32, city: Seq<char>|
        crate::hotel_id::valid_hotel_id(id as nat) && (#[trigger] m.add_hotel(
            id,
            city,
        )) is Ok implies m.add_hotel(id, city)->Ok_0.inv() by {
        lemma_add_hotel_inv(m, id, city);
    }
    assert forall|hotel: u32, room: RoomId, category: Category, price: nat|
        (#[trigger] m.add_room(hotel, room, category, price)) is Ok implies m.add_room(
        hotel,
        room,
        category,
        price,
    )->Ok_0.inv() by {
        lemma_add_room_inv(m, hotel, room, category, price);
    }
    assert forall|hotel: u32, room: RoomId| (#[trigger] m.remove_room(hotel, room)) is Ok implies m.remove_room(
        hotel,
        room,
    )->Ok_0.inv() by {
        lemma_remove_room_inv(m, hotel, room);
    }
    assert forall|hotel: u32| (#[trigger] m.remove_hotel(hotel)) is Ok implies m.remove_hotel(
        hotel,
    )->Ok_0.inv() by {
        lemma_remove_hotel_inv(m, hotel);
    }
    assert forall|booking: BookingId, customer: CustomerId|
        (#[trigger] m.cancel(booking, customer)) is Ok implies m.cancel(
        booking,
        customer,
    )->Ok_0.inv() by {
        lemma_cancel_inv(m, booking, customer);
    }
    assert forall|hotel: u32, room: RoomId, time: Range<Date>, person: PersonView|
        (#[trigger] book_outcome(m, hotel, room, time, person)).0.inv() by {
        lemma_get_customer_inv(m, person);
        let (known, customer) = m.get_customer(person);
        lemma_book_inv(known, hotel, room, time, customer as CustomerId);
    }
}

/// The targets with a comma and a space between each two of them.
fn join_targets(targets: &[&str]) -> (r: String)
    ensures
        r@ == join(texts(targets@), ", "@),
{
    let ghost items = texts(targets@);
    let mut out = String::new();
    let mut i: usize = 0;
    while i < targets.len()
        invariant
            i <= targets@.len(),
            items == texts(targets@),
            out@ == join(items.take(i as int), ", "@),
        decreases targets@.len() - i,
    {
        if i > 0 {
            out.append(", ");
        }
        out.append(targets[i]);
        proof {
            lemma_join_push(items.take(i as int), ", "@, items[i as int]);
            assert(items.take(i + 1) =~= items.take(i as int).push(items[i as int]));
            if i == 0 {
                assert(items.take(0) =~= Seq::<Seq<char>>::empty());
                assert(out@ =~= items[0]);
            }
        }
        i += 1;
    }
    assert(items.take(targets@.len() as int) =~= items);
    out
}

/// The target of a command: the argument, where it is one of the targets.
pub fn ensure_target<'a>(arg: Option<&'a str>, targets: &[&str]) -> (r: Result<
    &'a str,
    CommandError,
>)
    ensures
        match expected_target(text_of(arg), texts(targets@)) {
            Ok(target) => r matches Ok(s) && s@ == target && arg == Some(s),
            Err(e) => r matches Err(err) && err@ == e,
        },
{
    let target = match arg {
        None => {
            let mut message = String::from_str("Missing target, expected one of ");
            let list = join_targets(targets);
            message.append(list.as_str());
            return Err(CommandError::new(ErrorKind::Parse, message));
        },
        Some(target) => target,
    };
    let ghost items = texts(targets@);
    let mut i: usize = 0;
    while i < targets.len()
        invariant
            i <= targets@.len(),
            items == texts(targets@),
            arg == Some(target),
            forall|x: int| 0 <= x < i ==> items[x] != target@,
        decreases targets@.len() - i,
    {
        if str_eq(targets[i], target) {
            assert(items[i as int] == target@);
            assert(items.contains(target@));
            return Ok(target);
        }
        i += 1;
    }
    let mut message = String::from_str("Unknown target ");
    message.append(target);
    message.append(", expected one of ");
    let list = join_targets(targets);
    message.append(list.as_str());
    Err(CommandError::new(ErrorKind::UnknownCommand, message))
}

/// The failure for a number of arguments that the operation does not take.
fn arity_failure(expected: u64, got: usize) -> (r: CommandError)
    ensures
        r@ == parse_failure(arity_message(expected as nat, got as nat)),
{
    let mut message = String::from_str("Expected ");
    append_decimal(&mut message, expected);
    message.append(" arguments, got ");
    append_decimal(&mut message, got as u64);
    CommandError::new(ErrorKind::Parse, message)
}

/// Reads a room number, a booking id or a customer id.
fn number_from(s: &str) -> (r: Result<u64, CommandError>)
    ensures
        match parse_number(s@) {
            Ok(n) => r == Ok::<u64, CommandError>(n),
            Err(e) => r matches Err(err) && err@ == e,
        },
{
    match parse_bounded(s, u64::MAX) {
        Ok(n) => Ok(n),
        Err(e) => Err(CommandError::from_int_error(e)),
    }
}

/// Reads a date.
fn date_from(s: &str) -> (r: Result<Date, CommandError>)
    ensures
        match parse_date(s@) {
            Ok(day) => r matches Ok(date) && date == date_of(day),
            Err(e) => r matches Err(err) && err@ == e,
        },
{
    match Date::from_str(s) {
        Ok(date) => {
            proof {
                lemma_date_of(date);
            }
            Ok(date)
        },
        Err(e) => Err(e),
    }
}

fn do_add_hotel(model: &mut Model, args: &[&str]) -> (r: Result<String, CommandError>)
    requires
        old(model).wf(),
    ensures
        final(model).wf(),
        is_outcome(final(model)@, r, run_add_hotel(old(model)@, texts(args@))),
{
    if args.len() != 2 {
        return Err(arity_failure(2, args.len()));
    }
    let id = match HotelId::from_str(args[0]) {
        Ok(id) => id,
        Err(e) => {
            return Err(e);
        },
    };
    add_hotel(model, id, String::from_str(args[1]))
}

fn do_add_room(model: &mut Model, args: &[&str]) -> (r: Result<String, CommandError>)
    requires
        old(model).wf(),
    ensures
        final(model).wf(),
        is_outcome(final(model)@, r, run_add_room(old(model)@, texts(args@))),
{
    if args.len() != 4 {
        return Err(arity_failure(4, args.len()));
    }
    let hotel = match HotelId::from_str(args[0]) {
        Ok(id) => id,
        Err(e) => {
            return Err(e);
        },
    };
    let room = match number_from(args[1]) {
        Ok(n) => n,
        Err(e) => {
            return Err(e);
        },
    };
    let category = match Category::from_str(args[2]) {
        Ok(c) => c,
        Err(e) => {
            return Err(e);
        },
    };
    let price = match Price::from_str(args[3]) {
        Ok(p) => p,
        Err(e) => {
            return Err(e);
        },
    };
    add_room(model, hotel, room, category, price)
}

fn do_remove_hotel(model: &mut Model, args: &[&str]) -> (r: Result<String, CommandError>)
    requires
        old(model).wf(),
    ensures
        final(model).wf(),
        is_outcome(final(model)@, r, run_remove_hotel(old(model)@, texts(args@))),
{
    if args.len() != 1 {
        return Err(arity_failure(1, args.len()));
    }
    let id = match HotelId::from_str(args[0]) {
        Ok(id) => id,
        Err(e) => {
            return Err(e);
        },
    };
    remove_hotel(model, id)
}

fn do_remove_room(model: &mut Model, args: &[&str]) -> (r: Result<String, CommandError>)
    requires
        old(model).wf(),
    ensures
        final(model).wf(),
        is_outcome(final(model)@, r, run_remove_room(old(model)@, texts(args@))),
{
    if args.len() != 2 {
        return Err(arity_failure(2, args.len()));
    }
    let hotel = match HotelId::from_str(args[0]) {
        Ok(id) => id,
        Err(e) => {
            return Err(e);
        },
    };
    let room = match number_from(args[1]) {
        Ok(n) => n,
        Err(e) => {
            return Err(e);
        },
    };
    remove_room(model, hotel, room)
}

/// Reads what a search is given.
fn search_from(args: &[&str]) -> (r: Result<(String, Category, Date, Date), CommandError>)
    ensures
        match parse_search(texts(args@)) {
            Ok((city, category, time)) => r matches Ok(got) && got.0@ == city && got.1 == category
                && got.2 == time.start && got.3 == time.end,
            Err(e) => r matches Err(err) && err@ == e,
        },
{
    if args.len() != 4 {
        return Err(arity_failure(4, args.len()));
    }
    let category = match Category::from_str(args[1]) {
        Ok(c) => c,
        Err(e) => {
            return Err(e);
        },
    };
    let start = match date_from(args[2]) {
        Ok(d) => d,
        Err(e) => {
            return Err(e);
        },
    };
    let end = match date_from(args[3]) {
        Ok(d) => d,
        Err(e) => {
            return Err(e);
        },
    };
    Ok((String::from_str(args[0]), category, start, end))
}

fn do_find_cheapest(model: &Model, args: &[&str]) -> (r: Result<String, CommandError>)
    requires
        model.wf(),
    ensures
        is_outcome(model@, r, run_find_cheapest(model@, texts(args@))),
{
    match search_from(args) {
        Ok((city, category, start, end)) => find_cheapest(model, city, category, start, end),
        Err(e) => Err(e),
    }
}

fn do_find_available(model: &Model, args: &[&str]) -> (r: Result<String, CommandError>)
    requires
        model.wf(),
    ensures
        is_outcome(model@, r, run_find_available(model@, texts(args@))),
{
    match search_from(args) {
        Ok((city, category, start, end)) => find_available(model, city, category, start, end),
        Err(e) => Err(e),
    }
}

fn do_list_rooms(model: &Model, args: &[&str]) -> (r: Result<String, CommandError>)
    requires
        model.wf(),
    ensures
        is_outcome(model@, r, run_list_rooms(model@, texts(args@))),
{
    if args.len() != 0 {
        return Err(arity_failure(0, args.len()));
    }
    list_rooms(model)
}

fn do_list_bookings(model: &Model, args: &[&str]) -> (r: Result<String, CommandError>)
    requires
        model.wf(),
    ensures
        is_outcome(model@, r, run_list_bookings(model@, texts(args@))),
{
    if args.len() != 0 {
        return Err(arity_failure(0, args.len()));
    }
    list_bookings(model)
}

fn do_cancel(model: &mut Model, args: &[&str]) -> (r: Result<String, CommandError>)
    requires
        old(model).wf(),
    ensures
        final(model).wf(),
        is_outcome(final(model)@, r, run_cancel(old(model)@, texts(args@))),
{
    if args.len() != 2 {
        return Err(arity_failure(2, args.len()));
    }
    let booking = match number_from(args[0]) {
        Ok(n) => n,
        Err(e) => {
            return Err(e);
        },
    };
    let customer = match number_from(args[1]) {
        Ok(n) => n,
        Err(e) => {
            return Err(e);
        },
    };
    cancel(model, booking, customer)
}

fn do_book(model: &mut Model, args: &[&str]) -> (r: Result<String, CommandError>)
    requires
        old(model).wf(),
    ensures
        final(model).wf(),
        is_outcome(final(model)@, r, run_book(old(model)@, texts(args@))),
{
    if args.len() != 6 {
        return Err(arity_failure(6, args.len()));
    }
    let hotel = match HotelId::from_str(args[0]) {
        Ok(id) => id,
        Err(e) => {
            return Err(e);
        },
    };
    let room = match number_from(args[1]) {
        Ok(n) => n,
        Err(e) => {
            return Err(e);
        },
    };
    let start = match date_from(args[2]) {
        Ok(d) => d,
        Err(e) => {
            return Err(e);
        },
    };
    let end = match date_from(args[3]) {
        Ok(d) => d,
        Err(e) => {
            return Err(e);
        },
    };
    book(model, hotel, room, start, end, String::from_str(args[4]), String::from_str(args[5]))
}

/// The first of the arguments, if there is one.
fn first_of<'a>(args: &[&'a str]) -> (r: Option<&'a str>)
    ensures
        text_of(r) == first_arg(texts(args@)),
        r matches Some(s) ==> args@.len() > 0 && s == args@[0],
        r is None ==> args@.len() == 0,
{
    if args.len() > 0 {
        Some(args[0])
    } else {
        None
    }
}

/// Runs one command on the model.
pub fn handle(command: &str, model: &mut Model, args: Vec<&str>) -> (r: Result<String, CommandError>)
    requires
        old(model).wf(),
    ensures
        final(model).wf(),
        is_outcome(final(model)@, r, run_command(old(model)@, command@, texts(args@))),
{
    let all = args.as_slice();
    let ghost given = texts(args@);
    if str_eq(command, "add") {
        let targets = vec!["room", "hotel"];
        assert(texts(targets@) =~= add_targets());
        let target = match ensure_target(first_of(all), targets.as_slice()) {
            Ok(t) => t,
            Err(e) => {
                return Err(e);
            },
        };
        let rest = slice_subrange(all, 1, all.len());
        assert(texts(rest@) =~= given.drop_first());
        if str_eq(target, "room") {
            do_add_room(model, rest)
        } else {
            do_add_hotel(model, rest)
        }
    } else if str_eq(command, "remove") {
        let targets = vec!["room", "hotel"];
        assert(texts(targets@) =~= add_targets());
        let target = match ensure_target(first_of(all), targets.as_slice()) {
            Ok(t) => t,
            Err(e) => {
                return Err(e);
            },
        };
        let rest = slice_subrange(all, 1, all.len());
        assert(texts(rest@) =~= given.drop_first());
        if str_eq(target, "room") {
            do_remove_room(model, rest)
        } else {
            do_remove_hotel(model, rest)
        }
    } else if str_eq(command, "find") {
        let targets = vec!["cheapest", "available"];
        assert(texts(targets@) =~= find_targets());
        let target = match ensure_target(first_of(all), targets.as_slice()) {
            Ok(t) => t,
            Err(e) => {
                return Err(e);
            },
        };
        let rest = slice_subrange(all, 1, all.len());
        assert(texts(rest@) =~= given.drop_first());
        if str_eq(target, "cheapest") {
            do_find_cheapest(model, rest)
        } else {
            do_find_available(model, rest)
        }
    } else if str_eq(command, "list") {
        let targets = vec!["rooms", "bookings"];
        assert(texts(targets@) =~= list_targets());
        let target = match ensure_target(first_of(all), targets.as_slice()) {
            Ok(t) => t,
            Err(e) => {
                return Err(e);
            },
        };
        let rest = slice_subrange(all, 1, all.len());
        assert(texts(rest@) =~= given.drop_first());
        if str_eq(target, "rooms") {
            do_list_rooms(model, rest)
        } else {
            do_list_bookings(model, rest)
        }
    } else if str_eq(command, "cancel") {
        do_cancel(model, all)
    } else if str_eq(command, "book") {
        do_book(model, all)
    } else {
        let mut message = String::from_str("Unknown command '");
        message.append(command);
        message.append("'");
        Err(CommandError::new(ErrorKind::UnknownCommand, message))
    }
}

} // verus!
