use hotel_ledger::error::ErrorKind;
use hotel_ledger::handler::commands::{ensure_target, handle};
use hotel_ledger::handler::{split_whitespace, CommandHandler, CommandResult};
use hotel_ledger::model::Model;

fn interpreter() -> CommandHandler {
    CommandHandler::new(Model::new())
}

fn run(handler: &mut CommandHandler, line: &str) -> CommandResult {
    handler.handle_command(line.to_string())
}

fn output(handler: &mut CommandHandler, line: &str) -> String {
    let result = run(handler, line);
    assert!(!result.is_error, "{}", result.command_output);
    assert!(!result.is_quitting);
    result.command_output
}

fn failure(handler: &mut CommandHandler, line: &str) -> String {
    let result = run(handler, line);
    assert!(result.is_error);
    assert!(!result.is_quitting);
    assert!(result.command_output.starts_with("Error: "));
    result.command_output
}

#[test]
fn scenario_of_a_booking() {
    let mut handler = interpreter();
    assert_eq!(output(&mut handler, "add hotel 1 Berlin"), "OK");
    assert_eq!(output(&mut handler, "add room 1 101 Single 50.00€"), "OK");
    assert_eq!(
        output(&mut handler, "find available Berlin Single 2024-01-01 2024-01-03"),
        "00001 101 50.00€"
    );
    assert_eq!(output(&mut handler, "book 1 101 2024-01-01 2024-01-03 Ada Lovelace"), "1 1");
    assert_eq!(output(&mut handler, "find available Berlin Single 2024-01-01 2024-01-03"), "");
    assert_eq!(output(&mut handler, "find cheapest Berlin Single 2024-01-01 2024-01-05"), "");
}

#[test]
fn scenario_of_a_cancellation() {
    let mut handler = interpreter();
    output(&mut handler, "add hotel 1 Berlin");
    output(&mut handler, "add room 1 101 Single 50.00€");
    output(&mut handler, "book 1 101 2024-01-01 2024-01-03 Ada Lovelace");
    assert_eq!(output(&mut handler, "cancel 1 1"), "OK");
    assert_eq!(failure(&mut handler, "cancel 1 1"), "Error: Could not find booking with id 1");
    assert_eq!(output(&mut handler, "list bookings"), "");
}

#[test]
fn cancelling_with_the_wrong_customer_keeps_the_booking() {
    let mut handler = interpreter();
    output(&mut handler, "add hotel 1 Berlin");
    output(&mut handler, "add room 1 101 Single 50.00€");
    output(&mut handler, "book 1 101 2024-01-01 2024-01-03 Ada Lovelace");
    assert_eq!(
        failure(&mut handler, "cancel 1 2"),
        "Error: This booking does not belong to customer 2"
    );
    assert_eq!(output(&mut handler, "list bookings"), "1 1 2024-01-01 2024-01-03");
}

#[test]
fn rooms_are_listed_by_hotel_and_number() {
    let mut handler = interpreter();
    output(&mut handler, "add hotel 20 Paris");
    output(&mut handler, "add hotel 3 Berlin");
    output(&mut handler, "add room 20 5 Suite 300");
    output(&mut handler, "add room 3 12 Double 80.5");
    output(&mut handler, "add room 3 2 Single 49.99€");
    output(&mut handler, "add room 20 1 Single 1.000");
    assert_eq!(
        output(&mut handler, "list rooms"),
        "00003 2 Single 49.99€\n00003 12 Double 80.50€\n00020 1 Single 1.00€\n00020 5 Suite 300.00€"
    );
    output(&mut handler, "remove room 3 12");
    output(&mut handler, "remove hotel 20");
    assert_eq!(output(&mut handler, "list rooms"), "00003 2 Single 49.99€");
    output(&mut handler, "remove room 3 2");
    assert_eq!(output(&mut handler, "list rooms"), "");
}

#[test]
fn bookings_are_listed_by_id() {
    let mut handler = interpreter();
    output(&mut handler, "add hotel 1 Berlin");
    output(&mut handler, "add hotel 2 Paris");
    output(&mut handler, "add room 1 1 Single 10");
    output(&mut handler, "add room 2 1 Single 10");
    output(&mut handler, "add room 2 2 Single 10");
    assert_eq!(output(&mut handler, "book 2 2 2024-05-01 2024-05-03 Ada Lovelace"), "1 1");
    assert_eq!(output(&mut handler, "book 1 1 2024-05-01 2024-05-03 Alan Turing"), "2 2");
    assert_eq!(output(&mut handler, "book 2 1 2024-06-01 2024-06-08 Ada Lovelace"), "3 1");
    assert_eq!(output(&mut handler, "book 2 2 2024-05-03 2024-05-04 Grace Hopper"), "4 3");
    assert_eq!(
        output(&mut handler, "list bookings"),
        "1 1 2024-05-01 2024-05-03\n2 2 2024-05-01 2024-05-03\n3 1 2024-06-01 2024-06-08\n4 3 2024-05-03 2024-05-04"
    );
    output(&mut handler, "cancel 2 2");
    assert_eq!(
        output(&mut handler, "list bookings"),
        "1 1 2024-05-01 2024-05-03\n3 1 2024-06-01 2024-06-08\n4 3 2024-05-03 2024-05-04"
    );
}

#[test]
fn the_same_names_get_the_same_customer_id() {
    let mut handler = interpreter();
    output(&mut handler, "add hotel 1 Berlin");
    output(&mut handler, "add room 1 1 Single 10");
    assert_eq!(output(&mut handler, "book 1 1 2024-05-01 2024-05-03 Ada Lovelace"), "1 1");
    assert_eq!(output(&mut handler, "book 1 1 2024-05-03 2024-05-05 Ada Lovelace"), "2 1");
    assert_eq!(output(&mut handler, "book 1 1 2024-05-05 2024-05-07 Ada Byron"), "3 2");
    assert_eq!(output(&mut handler, "book 1 1 2024-05-07 2024-05-09 Ada Lovelace"), "4 1");
}

#[test]
fn a_booking_that_fails_registers_no_customer() {
    let mut handler = interpreter();
    output(&mut handler, "add hotel 1 Berlin");
    output(&mut handler, "add room 1 1 Single 10");
    assert_eq!(
        failure(&mut handler, "book 1 2 2024-05-01 2024-05-03 Ada Lovelace"),
        "Error: Unknown room number 2"
    );
    assert_eq!(output(&mut handler, "book 1 1 2024-05-01 2024-05-03 Alan Turing"), "1 1");
    assert_eq!(
        failure(&mut handler, "book 1 1 2024-05-02 2024-05-04 Grace Hopper"),
        "Error: Room is already occupied during that time frame"
    );
    assert_eq!(output(&mut handler, "book 1 1 2024-05-03 2024-05-04 Ada Lovelace"), "2 2");
    assert_eq!(output(&mut handler, "book 1 1 2024-05-04 2024-05-05 Grace Hopper"), "3 3");
    assert_eq!(
        failure(&mut handler, "book 1 1 2024-05-04 2024-05-05 Alan Turing"),
        "Error: Room is already occupied during that time frame"
    );
    assert_eq!(output(&mut handler, "book 1 1 2024-05-05 2024-05-06 Alan Turing"), "4 1");
}

#[test]
fn a_booking_in_an_unknown_hotel_leaves_no_trace() {
    let mut handler = interpreter();
    output(&mut handler, "add hotel 1 Berlin");
    output(&mut handler, "add room 1 101 Single 50.00€");
    assert_eq!(
        failure(&mut handler, "book 9 101 2024-01-01 2024-01-03 Bob Smith"),
        "Error: Unknown hotel ID 00009"
    );
    assert_eq!(output(&mut handler, "list bookings"), "");
    assert_eq!(output(&mut handler, "list rooms"), "00001 101 Single 50.00€");
    assert_eq!(output(&mut handler, "book 1 101 2024-01-01 2024-01-03 Ada Lovelace"), "1 1");
    assert_eq!(output(&mut handler, "book 1 101 2024-01-03 2024-01-04 Bob Smith"), "2 2");
}

#[test]
fn every_character_is_white_space_or_part_of_a_word() {
    let spaces = [
        0x09u32, 0x0A, 0x0B, 0x0C, 0x0D, 0x20, 0x85, 0xA0, 0x1680, 0x2000, 0x2001, 0x2002, 0x2003,
        0x2004, 0x2005, 0x2006, 0x2007, 0x2008, 0x2009, 0x200A, 0x2028, 0x2029, 0x202F, 0x205F,
        0x3000,
    ];
    let mut line = String::new();
    for n in 0..=0x10FFFFu32 {
        let c = match char::from_u32(n) {
            Some(c) => c,
            None => continue,
        };
        line.clear();
        line.push('a');
        line.push(c);
        line.push('b');
        let words = split_whitespace(&line);
        if spaces.contains(&n) {
            assert_eq!(words, vec!["a", "b"], "U+{:04X}", n);
        } else {
            assert_eq!(words.len(), 1, "U+{:04X}", n);
            assert_eq!(words[0], line);
        }
    }
}

#[test]
fn the_cheapest_room_is_chosen_by_price_hotel_and_room() {
    let mut handler = interpreter();
    output(&mut handler, "add hotel 2 Berlin");
    output(&mut handler, "add hotel 1 Berlin");
    output(&mut handler, "add hotel 3 Paris");
    output(&mut handler, "add room 2 7 Single 50.00€");
    output(&mut handler, "add room 2 3 Single 50.00€");
    output(&mut handler, "add room 1 9 Single 50.01€");
    output(&mut handler, "add room 1 8 Double 5.00€");
    output(&mut handler, "add room 3 1 Single 1.00€");
    assert_eq!(
        output(&mut handler, "find cheapest Berlin Single 2024-01-01 2024-01-05"),
        "00002 3 200.00€"
    );
    output(&mut handler, "add room 1 10 Single 50");
    assert_eq!(
        output(&mut handler, "find cheapest Berlin Single 2024-01-01 2024-01-02"),
        "00001 10 50.00€"
    );
    output(&mut handler, "add room 1 4 Single 9.99");
    output(&mut handler, "add room 2 1 Single 10.00");
    assert_eq!(
        output(&mut handler, "find cheapest Berlin Single 2024-02-01 2024-03-01"),
        "00001 4 289.71€"
    );
    assert_eq!(output(&mut handler, "find cheapest Berlin Suite 2024-02-01 2024-03-01"), "");
    assert_eq!(output(&mut handler, "find cheapest Hamburg Single 2024-02-01 2024-03-01"), "");
}

#[test]
fn the_price_of_a_stay_is_price_times_nights() {
    let mut handler = interpreter();
    output(&mut handler, "add hotel 1 Berlin");
    output(&mut handler, "add room 1 1 Suite 123.45€");
    assert_eq!(
        output(&mut handler, "find cheapest Berlin Suite 2024-01-01 2025-01-01"),
        "00001 1 45182.70€"
    );
    assert_eq!(
        output(&mut handler, "find cheapest Berlin Suite 2024-01-01 2024-01-01"),
        "00001 1 0.00€"
    );
    assert_eq!(
        output(&mut handler, "find cheapest Berlin Suite 2024-01-02 2024-01-01"),
        "00001 1 2277250555899444146871.75€"
    );
}

#[test]
fn available_rooms_are_listed_by_hotel_and_number() {
    let mut handler = interpreter();
    output(&mut handler, "add hotel 2 Berlin");
    output(&mut handler, "add hotel 1 Berlin");
    output(&mut handler, "add room 2 7 Single 50.00€");
    output(&mut handler, "add room 2 3 Single 70.00€");
    output(&mut handler, "add room 1 9 Single 90.00€");
    output(&mut handler, "add room 1 10 Suite 10.00€");
    output(&mut handler, "book 2 3 2024-01-01 2024-01-10 Ada Lovelace");
    assert_eq!(
        output(&mut handler, "find available Berlin Single 2024-01-09 2024-01-12"),
        "00001 9 90.00€\n00002 7 50.00€"
    );
    assert_eq!(
        output(&mut handler, "find available Berlin Single 2024-01-10 2024-01-12"),
        "00001 9 90.00€\n00002 3 70.00€\n00002 7 50.00€"
    );
}

#[test]
fn quit_ends_the_session() {
    let mut handler = interpreter();
    let result = run(&mut handler, "quit");
    assert_eq!(result.command_output, "");
    assert!(!result.is_error);
    assert!(result.is_quitting);
    let result = run(&mut handler, "  quit  ");
    assert!(result.is_quitting);
    assert_eq!(failure(&mut handler, "quit now"), "Error: Unexpected argument now");
    assert_eq!(output(&mut handler, "list rooms"), "");
}

#[test]
fn an_empty_line_is_an_error() {
    let mut handler = interpreter();
    assert_eq!(failure(&mut handler, ""), "Error: Please enter a command");
    assert_eq!(failure(&mut handler, "   \t "), "Error: Please enter a command");
}

#[test]
fn unknown_commands_and_targets_are_errors() {
    let mut handler = interpreter();
    assert_eq!(failure(&mut handler, "help"), "Error: Unknown command 'help'");
    assert_eq!(failure(&mut handler, "Add hotel 1 Berlin"), "Error: Unknown command 'Add'");
    assert_eq!(failure(&mut handler, "add"), "Error: Missing target, expected one of room, hotel");
    assert_eq!(
        failure(&mut handler, "remove"),
        "Error: Missing target, expected one of room, hotel"
    );
    assert_eq!(
        failure(&mut handler, "find"),
        "Error: Missing target, expected one of cheapest, available"
    );
    assert_eq!(
        failure(&mut handler, "list"),
        "Error: Missing target, expected one of rooms, bookings"
    );
    assert_eq!(
        failure(&mut handler, "add city Berlin"),
        "Error: Unknown target city, expected one of room, hotel"
    );
    assert_eq!(
        failure(&mut handler, "list hotels"),
        "Error: Unknown target hotels, expected one of rooms, bookings"
    );
}

#[test]
fn the_number_of_arguments_is_checked() {
    let mut handler = interpreter();
    assert_eq!(failure(&mut handler, "add hotel 1"), "Error: Expected 2 arguments, got 1");
    assert_eq!(
        failure(&mut handler, "add hotel 1 New York"),
        "Error: Expected 2 arguments, got 3"
    );
    assert_eq!(failure(&mut handler, "add room 1 101 Single"), "Error: Expected 4 arguments, got 3");
    assert_eq!(failure(&mut handler, "remove hotel"), "Error: Expected 1 arguments, got 0");
    assert_eq!(failure(&mut handler, "remove room 1"), "Error: Expected 2 arguments, got 1");
    assert_eq!(failure(&mut handler, "list rooms all"), "Error: Expected 0 arguments, got 1");
    assert_eq!(failure(&mut handler, "list bookings 1 2"), "Error: Expected 0 arguments, got 2");
    assert_eq!(failure(&mut handler, "find cheapest Berlin"), "Error: Expected 4 arguments, got 1");
    assert_eq!(failure(&mut handler, "find available"), "Error: Expected 4 arguments, got 0");
    assert_eq!(failure(&mut handler, "cancel 1"), "Error: Expected 2 arguments, got 1");
    assert_eq!(failure(&mut handler, "book 1 101"), "Error: Expected 6 arguments, got 2");
    assert_eq!(failure(&mut handler, "add hotel x y z"), "Error: Expected 2 arguments, got 3");
}

#[test]
fn arguments_are_read_before_anything_changes() {
    let mut handler = interpreter();
    assert_eq!(failure(&mut handler, "add hotel 0 Berlin"), "Error: number would be zero for non-zero type");
    assert_eq!(failure(&mut handler, "add hotel 123456 Berlin"), "Error: Hotel id 123456 must not exceed 5");
    output(&mut handler, "add hotel 1 Berlin");
    assert_eq!(failure(&mut handler, "add room 1 x Single 5"), "Error: invalid digit found in string");
    assert_eq!(failure(&mut handler, "add room 1 1 single 5"), "Error: Unknown category 'single'");
    assert_eq!(failure(&mut handler, "add room 1 1 Single 0"), "Error: Price must be non-zero");
    assert_eq!(failure(&mut handler, "add room 1 1 Single 1.005"), "Error: Price only has 2 digits of precision");
    assert_eq!(failure(&mut handler, "add room x 1 single 0"), "Error: invalid digit found in string");
    assert_eq!(output(&mut handler, "list rooms"), "");
    output(&mut handler, "add room 1 1 Single 5");
    assert_eq!(
        failure(&mut handler, "book 1 1 2024-01-01 2024-02-30 Ada Lovelace"),
        "Error: Invalid date '2024-02-30'"
    );
    assert_eq!(
        failure(&mut handler, "find available Berlin Single 01.01.2024 2024-01-03"),
        "Error: Invalid date '01.01.2024'"
    );
    assert_eq!(failure(&mut handler, "cancel one 1"), "Error: invalid digit found in string");
    assert_eq!(output(&mut handler, "book 1 1 2024-01-01 2024-01-03 Ada Lovelace"), "1 1");
}

#[test]
fn failures_of_the_ledger_are_reported() {
    let mut handler = interpreter();
    output(&mut handler, "add hotel 1 Berlin");
    assert_eq!(failure(&mut handler, "add hotel 1 Paris"), "Error: Hotel ID is already in use");
    assert_eq!(failure(&mut handler, "add hotel 00001 Paris"), "Error: Hotel ID is already in use");
    assert_eq!(failure(&mut handler, "remove hotel 2"), "Error: Unknown hotel ID 00002");
    assert_eq!(
        failure(&mut handler, "add room 2 1 Single 5"),
        "Error: Hotel with id 00002 does not exist"
    );
    output(&mut handler, "add room 1 1 Single 5");
    assert_eq!(failure(&mut handler, "add room 1 1 Suite 7"), "Error: Room ID is already in use");
    assert_eq!(failure(&mut handler, "remove room 1 2"), "Error: Unknown room ID 2");
    assert_eq!(
        failure(&mut handler, "book 9 1 2024-01-01 2024-01-03 Ada Lovelace"),
        "Error: Unknown hotel ID 00009"
    );
    assert_eq!(output(&mut handler, "remove hotel 1"), "OK");
    assert_eq!(output(&mut handler, "add hotel 1 Paris"), "OK");
}

#[test]
fn words_are_split_at_white_space() {
    assert_eq!(split_whitespace("add hotel 1 Berlin"), vec!["add", "hotel", "1", "Berlin"]);
    assert_eq!(split_whitespace("  add\thotel \n 1\u{a0}Berlin\r\n"), vec!["add", "hotel", "1", "Berlin"]);
    assert_eq!(split_whitespace("one"), vec!["one"]);
    assert_eq!(split_whitespace("a  b"), vec!["a", "b"]);
    assert_eq!(split_whitespace("50.00€ é\u{3000}ü"), vec!["50.00€", "é", "ü"]);
    assert!(split_whitespace("").is_empty());
    assert!(split_whitespace(" \t\n").is_empty());
    let mut handler = interpreter();
    assert_eq!(output(&mut handler, "\tadd   hotel\t7  Köln  "), "OK");
    assert_eq!(output(&mut handler, "add room 7 1 Single 5€"), "OK");
    assert_eq!(
        output(&mut handler, "find available Köln Single 2024-01-01 2024-01-03"),
        "00007 1 5.00€"
    );
}

#[test]
fn a_target_is_one_of_the_expected() {
    assert_eq!(ensure_target(Some("room"), &["room", "hotel"]).unwrap(), "room");
    assert_eq!(ensure_target(Some("hotel"), &["room", "hotel"]).unwrap(), "hotel");
    let err = ensure_target(None, &["room", "hotel"]).unwrap_err();
    assert_eq!(err.kind(), ErrorKind::Parse);
    assert_eq!(err.message(), "Missing target, expected one of room, hotel");
    let err = ensure_target(Some("rooms"), &["room", "hotel"]).unwrap_err();
    assert_eq!(err.kind(), ErrorKind::UnknownCommand);
    assert_eq!(err.message(), "Unknown target rooms, expected one of room, hotel");
    let err = ensure_target(Some("x"), &[]).unwrap_err();
    assert_eq!(err.message(), "Unknown target x, expected one of ");
    let err = ensure_target(None, &["only"]).unwrap_err();
    assert_eq!(err.message(), "Missing target, expected one of only");
}

#[test]
fn commands_run_on_a_ledger() {
    let mut model = Model::new();
    assert_eq!(handle("add", &mut model, vec!["hotel", "5", "Wien"]).unwrap(), "OK");
    assert_eq!(handle("add", &mut model, vec!["room", "5", "1", "Double", "99.9"]).unwrap(), "OK");
    assert_eq!(handle("list", &mut model, vec!["rooms"]).unwrap(), "00005 1 Double 99.90€");
    let err = handle("quit", &mut model, vec![]).unwrap_err();
    assert_eq!(err.kind(), ErrorKind::UnknownCommand);
    assert_eq!(err.message(), "Unknown command 'quit'");
    let err = handle("book", &mut model, vec![]).unwrap_err();
    assert_eq!(err.kind(), ErrorKind::Parse);
    assert_eq!(model.rooms().len(), 1);
}
