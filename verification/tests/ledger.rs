use hotel_ledger::category::Category;
use hotel_ledger::data::Person;
use hotel_ledger::date::Date;
use hotel_ledger::error::ErrorKind;
use hotel_ledger::hotel_id::HotelId;
use hotel_ledger::model::Model;
use hotel_ledger::price::Price;
use std::ops::Range;

fn hotel(n: u32) -> HotelId {
    HotelId::new(n).unwrap()
}

fn price(text: &str) -> Price {
    Price::from_str(text).unwrap()
}

fn days(start: &str, end: &str) -> Range<Date> {
    Date::from_str(start).unwrap()..Date::from_str(end).unwrap()
}

fn person(forename: &str, surname: &str) -> Person {
    Person { forename: forename.to_string(), surname: surname.to_string() }
}

fn one_room() -> Model {
    let mut model = Model::new();
    model.add_hotel(hotel(1), "Berlin".to_string()).unwrap();
    model.add_room(hotel(1), 101, Category::Single, price("50.00€")).unwrap();
    model
}

fn booking_ids(model: &Model) -> Vec<u64> {
    let mut ids: Vec<u64> = model.bookings().iter().map(|b| b.id).collect();
    ids.sort();
    ids
}

#[test]
fn a_new_ledger_is_empty() {
    let model = Model::new();
    assert!(model.rooms().is_empty());
    assert!(model.bookings().is_empty());
    assert!(model.avaiable("Berlin", Category::Single, &days("2024-01-01", "2024-01-02")).is_empty());
}

#[test]
fn a_hotel_id_is_given_once() {
    let mut model = Model::new();
    assert!(model.add_hotel(hotel(1), "Berlin".to_string()).is_ok());
    let err = model.add_hotel(hotel(1), "Paris".to_string()).unwrap_err();
    assert_eq!(err.kind(), ErrorKind::Conflict);
    assert_eq!(err.message(), "Hotel ID is already in use");
    assert!(model.add_hotel(hotel(2), "Berlin".to_string()).is_ok());
}

#[test]
fn an_unknown_hotel_cannot_be_removed() {
    let mut model = Model::new();
    let err = model.remove_hotel(hotel(7)).unwrap_err();
    assert_eq!(err.kind(), ErrorKind::NotFound);
    assert_eq!(err.message(), "Unknown hotel ID 00007");
}

#[test]
fn a_removed_hotel_id_can_be_given_again() {
    let mut model = Model::new();
    model.add_hotel(hotel(1), "Berlin".to_string()).unwrap();
    model.remove_hotel(hotel(1)).unwrap();
    assert!(model.add_hotel(hotel(1), "Paris".to_string()).is_ok());
}

#[test]
fn removing_a_hotel_discards_rooms_and_bookings() {
    let mut model = one_room();
    model.book(hotel(1), 101, days("2024-01-01", "2024-01-03"), 1).unwrap();
    model.remove_hotel(hotel(1)).unwrap();
    assert!(model.rooms().is_empty());
    assert!(model.bookings().is_empty());
    model.add_hotel(hotel(1), "Berlin".to_string()).unwrap();
    assert!(model.rooms().is_empty());
}

#[test]
fn a_room_needs_its_hotel_and_a_free_number() {
    let mut model = Model::new();
    let err = model.add_room(hotel(3), 1, Category::Suite, price("1")).unwrap_err();
    assert_eq!(err.kind(), ErrorKind::NotFound);
    assert_eq!(err.message(), "Hotel with id 00003 does not exist");
    model.add_hotel(hotel(3), "Rome".to_string()).unwrap();
    model.add_room(hotel(3), 1, Category::Suite, price("1")).unwrap();
    let err = model.add_room(hotel(3), 1, Category::Single, price("2")).unwrap_err();
    assert_eq!(err.kind(), ErrorKind::Conflict);
    assert_eq!(err.message(), "Room ID is already in use");
    model.add_hotel(hotel(4), "Rome".to_string()).unwrap();
    assert!(model.add_room(hotel(4), 1, Category::Single, price("2")).is_ok());
    let rooms = model.rooms();
    assert_eq!(rooms.len(), 2);
}

#[test]
fn removing_a_room() {
    let mut model = one_room();
    let err = model.remove_room(hotel(2), 101).unwrap_err();
    assert_eq!((err.kind(), err.message()), (ErrorKind::NotFound, "Unknown hotel ID 00002"));
    let err = model.remove_room(hotel(1), 102).unwrap_err();
    assert_eq!((err.kind(), err.message()), (ErrorKind::NotFound, "Unknown room ID 102"));
    model.remove_room(hotel(1), 101).unwrap();
    assert!(model.rooms().is_empty());
    assert!(model.remove_room(hotel(1), 101).is_err());
    assert!(model.add_room(hotel(1), 101, Category::Double, price("3")).is_ok());
}

#[test]
fn rooms_are_listed_with_their_data() {
    let mut model = one_room();
    model.add_room(hotel(1), 7, Category::Suite, price("120.5")).unwrap();
    let mut rows: Vec<(u32, u64, Category, String)> = model
        .rooms()
        .iter()
        .map(|row| (row.0.get(), row.1, row.2, row.3.to_string()))
        .collect();
    rows.sort_by_key(|row| (row.0, row.1));
    assert_eq!(
        rows,
        vec![
            (1, 7, Category::Suite, "120.50€".to_string()),
            (1, 101, Category::Single, "50.00€".to_string()),
        ]
    );
}

#[test]
fn booking_needs_hotel_and_room() {
    let mut model = one_room();
    let err = model.book(hotel(2), 101, days("2024-01-01", "2024-01-03"), 1).unwrap_err();
    assert_eq!((err.kind(), err.message()), (ErrorKind::NotFound, "Unknown hotel ID 00002"));
    let err = model.book(hotel(1), 5, days("2024-01-01", "2024-01-03"), 1).unwrap_err();
    assert_eq!((err.kind(), err.message()), (ErrorKind::NotFound, "Unknown room number 5"));
    assert!(model.bookings().is_empty());
}

#[test]
fn a_booking_can_be_checked_before_it_is_made() {
    let mut model = one_room();
    assert!(model.check_booking(hotel(1), 101, &days("2024-01-10", "2024-01-20")).is_ok());
    assert!(model.bookings().is_empty());
    let err = model.check_booking(hotel(2), 101, &days("2024-01-10", "2024-01-20")).unwrap_err();
    assert_eq!((err.kind(), err.message()), (ErrorKind::NotFound, "Unknown hotel ID 00002"));
    let err = model.check_booking(hotel(1), 5, &days("2024-01-10", "2024-01-20")).unwrap_err();
    assert_eq!((err.kind(), err.message()), (ErrorKind::NotFound, "Unknown room number 5"));
    model.book(hotel(1), 101, days("2024-01-10", "2024-01-20"), 1).unwrap();
    let err = model.check_booking(hotel(1), 101, &days("2024-01-15", "2024-01-25")).unwrap_err();
    assert_eq!(err.kind(), ErrorKind::Conflict);
    assert_eq!(err.message(), "Room is already occupied during that time frame");
    assert!(model.check_booking(hotel(1), 101, &days("2024-01-20", "2024-01-25")).is_ok());
    assert_eq!(model.bookings().len(), 1);
}

#[test]
fn booking_ids_count_up_from_one() {
    let mut model = one_room();
    model.add_room(hotel(1), 102, Category::Single, price("50.00€")).unwrap();
    assert_eq!(model.book(hotel(1), 101, days("2024-01-01", "2024-01-03"), 4).unwrap(), 1);
    assert_eq!(model.book(hotel(1), 102, days("2024-01-01", "2024-01-03"), 4).unwrap(), 2);
    assert_eq!(model.book(hotel(1), 101, days("2024-01-03", "2024-01-04"), 9).unwrap(), 3);
    assert_eq!(booking_ids(&model), vec![1, 2, 3]);
}

#[test]
fn booking_ids_are_not_reused() {
    let mut model = one_room();
    assert_eq!(model.book(hotel(1), 101, days("2024-01-01", "2024-01-03"), 1).unwrap(), 1);
    model.cancel(1, 1).unwrap();
    assert_eq!(model.book(hotel(1), 101, days("2024-01-01", "2024-01-03"), 1).unwrap(), 2);
    assert!(model.book(hotel(1), 101, days("2024-01-01", "2024-01-03"), 1).is_err());
    assert_eq!(model.book(hotel(1), 101, days("2024-02-01", "2024-02-03"), 1).unwrap(), 3);
    assert_eq!(booking_ids(&model), vec![2, 3]);
}

#[test]
fn two_intervals_apart_are_both_booked() {
    let mut model = one_room();
    assert!(model.book(hotel(1), 101, days("2024-01-01", "2024-01-03"), 1).is_ok());
    assert!(model.book(hotel(1), 101, days("2024-01-03", "2024-01-05"), 2).is_ok());
    assert!(model.book(hotel(1), 101, days("2024-03-01", "2024-03-05"), 2).is_ok());
    assert!(model.book(hotel(1), 101, days("2024-02-01", "2024-02-05"), 2).is_ok());
    assert_eq!(model.bookings().len(), 4);
}

#[test]
fn an_interval_that_starts_or_ends_in_a_booking_is_refused() {
    let mut model = one_room();
    model.book(hotel(1), 101, days("2024-01-10", "2024-01-20"), 1).unwrap();
    for (start, end) in [
        ("2024-01-10", "2024-01-20"),
        ("2024-01-12", "2024-01-14"),
        ("2024-01-15", "2024-01-25"),
        ("2024-01-19", "2024-01-25"),
        ("2024-01-05", "2024-01-15"),
        ("2024-01-05", "2024-01-19"),
        ("2024-01-10", "2024-01-11"),
    ] {
        let err = model.book(hotel(1), 101, days(start, end), 2).unwrap_err();
        assert_eq!(err.kind(), ErrorKind::Conflict);
        assert_eq!(err.message(), "Room is already occupied during that time frame");
    }
    assert_eq!(model.bookings().len(), 1);
}

#[test]
fn the_occupancy_test_looks_at_the_two_ends_only() {
    let mut model = one_room();
    model.book(hotel(1), 101, days("2024-01-10", "2024-01-20"), 1).unwrap();
    // An interval around the booking has neither end in it, and is accepted.
    assert!(model.book(hotel(1), 101, days("2024-01-05", "2024-01-25"), 2).is_ok());
    let mut model = one_room();
    model.book(hotel(1), 101, days("2024-01-10", "2024-01-20"), 1).unwrap();
    // An interval that ends on the first day of the booking has its end in it.
    assert!(model.book(hotel(1), 101, days("2024-01-05", "2024-01-10"), 2).is_err());
    // An interval that begins on the day on which the booking ends has not.
    assert!(model.book(hotel(1), 101, days("2024-01-20", "2024-01-25"), 2).is_ok());
    assert!(model.book(hotel(1), 101, days("2024-01-05", "2024-01-09"), 2).is_ok());
}

#[test]
fn rooms_are_booked_apart() {
    let mut model = one_room();
    model.add_room(hotel(1), 102, Category::Single, price("60")).unwrap();
    assert!(model.book(hotel(1), 101, days("2024-01-01", "2024-01-03"), 1).is_ok());
    assert!(model.book(hotel(1), 102, days("2024-01-01", "2024-01-03"), 1).is_ok());
}

#[test]
fn cancelling_for_another_customer_is_refused() {
    let mut model = one_room();
    let id = model.book(hotel(1), 101, days("2024-01-01", "2024-01-03"), 5).unwrap();
    let err = model.cancel(id, 6).unwrap_err();
    assert_eq!(err.kind(), ErrorKind::Authorization);
    assert_eq!(err.message(), "This booking does not belong to customer 6");
    let bookings = model.bookings();
    assert_eq!(bookings.len(), 1);
    assert_eq!((bookings[0].id, bookings[0].customer), (id, 5));
    assert_eq!(bookings[0].time, days("2024-01-01", "2024-01-03"));
}

#[test]
fn cancelling_removes_the_booking() {
    let mut model = one_room();
    let first = model.book(hotel(1), 101, days("2024-01-01", "2024-01-03"), 5).unwrap();
    let second = model.book(hotel(1), 101, days("2024-01-03", "2024-01-05"), 5).unwrap();
    let third = model.book(hotel(1), 101, days("2024-01-05", "2024-01-07"), 6).unwrap();
    model.cancel(first, 5).unwrap();
    assert_eq!(booking_ids(&model), vec![second, third]);
    let err = model.cancel(first, 5).unwrap_err();
    assert_eq!(err.kind(), ErrorKind::NotFound);
    assert_eq!(err.message(), "Could not find booking with id 1");
    model.cancel(third, 6).unwrap();
    model.cancel(second, 5).unwrap();
    assert!(model.bookings().is_empty());
    assert!(model.book(hotel(1), 101, days("2024-01-01", "2024-01-07"), 5).is_ok());
}

#[test]
fn cancelling_an_unknown_booking_is_refused() {
    let mut model = one_room();
    let err = model.cancel(1, 1).unwrap_err();
    assert_eq!((err.kind(), err.message()), (ErrorKind::NotFound, "Could not find booking with id 1"));
}

#[test]
fn a_person_keeps_its_customer_id() {
    let mut model = Model::new();
    let ada = model.get_customer(person("Ada", "Lovelace"));
    assert_eq!(ada, 1);
    assert_eq!(model.get_customer(person("Ada", "Lovelace")), ada);
    let alan = model.get_customer(person("Alan", "Turing"));
    assert_eq!(alan, 2);
    assert!(alan > ada);
    assert_eq!(model.get_customer(person("Ada", "Lovelace")), ada);
    assert_eq!(model.get_customer(person("Alan", "Turing")), alan);
    assert_eq!(model.get_customer(person("ada", "Lovelace")), 3);
    assert_eq!(model.get_customer(person("Lovelace", "Ada")), 4);
}

#[test]
fn available_rooms_match_city_and_category() {
    let mut model = one_room();
    model.add_room(hotel(1), 102, Category::Double, price("80")).unwrap();
    model.add_hotel(hotel(2), "Paris".to_string()).unwrap();
    model.add_room(hotel(2), 1, Category::Single, price("70")).unwrap();
    model.add_hotel(hotel(3), "Berlin".to_string()).unwrap();
    model.add_room(hotel(3), 9, Category::Single, price("40")).unwrap();
    let time = days("2024-01-01", "2024-01-03");
    let mut found: Vec<(u32, u64, String)> = model
        .avaiable("Berlin", Category::Single, &time)
        .iter()
        .map(|row| (row.0.get(), row.1, row.2.to_string()))
        .collect();
    found.sort();
    assert_eq!(found, vec![(1, 101, "50.00€".to_string()), (3, 9, "40.00€".to_string())]);
    assert!(model.avaiable("berlin", Category::Single, &time).is_empty());
    assert!(model.avaiable("Ber", Category::Single, &time).is_empty());
    assert_eq!(model.avaiable("Paris", Category::Single, &time).len(), 1);
    assert!(model.avaiable("Paris", Category::Suite, &time).is_empty());
}

#[test]
fn occupied_rooms_are_not_available() {
    let mut model = one_room();
    model.book(hotel(1), 101, days("2024-01-10", "2024-01-20"), 1).unwrap();
    assert!(model.avaiable("Berlin", Category::Single, &days("2024-01-12", "2024-01-14")).is_empty());
    assert!(model.avaiable("Berlin", Category::Single, &days("2024-01-05", "2024-01-10")).is_empty());
    assert_eq!(model.avaiable("Berlin", Category::Single, &days("2024-01-20", "2024-01-22")).len(), 1);
    assert_eq!(model.avaiable("Berlin", Category::Single, &days("2024-01-05", "2024-01-25")).len(), 1);
}
