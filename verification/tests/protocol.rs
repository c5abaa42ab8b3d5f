use seat_allocator::layout::SeatKey;
use seat_allocator::layout::Section;
use seat_allocator::protocol::mark_predefined_seats_as_booked;
use seat_allocator::protocol::match_section;
use seat_allocator::protocol::parse_section;
use seat_allocator::protocol::section_match;
use seat_allocator::protocol::section_string_to_enum;
use seat_allocator::protocol::str_eq;
use seat_allocator::store::SeatStatus;
use seat_allocator::store::SeatStore;

fn key(section: Section, row: u32, number: u32) -> SeatKey {
    SeatKey { section, row, number }
}

#[test]
fn parses_every_section_name() {
    assert_eq!(parse_section("A1"), Some(Section::A1));
    assert_eq!(parse_section("B2"), Some(Section::B2));
    assert_eq!(parse_section("C3"), Some(Section::C3));
    assert_eq!(parse_section("D"), Some(Section::D));
    assert_eq!(parse_section("E"), Some(Section::E));
    assert_eq!(parse_section("F"), Some(Section::F));
    assert_eq!(parse_section(""), None);
    assert_eq!(parse_section("G"), None);
    assert_eq!(parse_section("a1"), None);
}

#[test]
fn unknown_names_default_to_first_economy_section() {
    assert_eq!(section_string_to_enum("B3"), Section::B3);
    assert_eq!(section_string_to_enum("Z9"), Section::D);
}

#[test]
fn classes_offer_their_sections() {
    assert_eq!(section_match("FirstClass"), vec!["A1", "B1", "C1"]);
    assert_eq!(
        section_match("BusinessClass"),
        vec!["A2", "B2", "C2", "A3", "B3", "C3"]
    );
    assert_eq!(section_match("EconomyClass"), vec!["D", "E", "F"]);
    assert_eq!(section_match("NoSuchClass"), vec!["EconomyClass"]);
}

#[test]
fn ordinals_select_sections_within_a_class() {
    assert_eq!(match_section("FirstClass", "2"), "B1");
    assert_eq!(match_section("BusinessClass", "4"), "A3");
    assert_eq!(match_section("EconomyClass", "3"), "F");
    assert_eq!(match_section("FirstClass", "9"), "A1");
    assert_eq!(match_section("NoSuchClass", "1"), "D");
}

#[test]
fn string_equality_is_by_characters() {
    assert!(str_eq("A1", "A1"));
    assert!(!str_eq("A1", "A2"));
    assert!(!str_eq("A1", "A11"));
    assert!(str_eq("", ""));
}

#[test]
fn predefined_bookings_mark_only_listed_seats() {
    let mut store = SeatStore::build();
    let list: Vec<(&str, u32, u32)> = vec![
        ("A1", 1, 4),
        ("A1", 1, 5),
        ("B1", 2, 1),
        ("??", 1, 1),
        ("C1", 9, 9),
    ];
    mark_predefined_seats_as_booked(&mut store, &list);
    assert_eq!(store.get_status(key(Section::A1, 1, 4)), Ok(SeatStatus::Booked));
    assert_eq!(store.get_status(key(Section::A1, 1, 5)), Ok(SeatStatus::Booked));
    assert_eq!(store.get_status(key(Section::B1, 2, 1)), Ok(SeatStatus::Booked));
    assert_eq!(store.get_status(key(Section::A1, 1, 3)), Ok(SeatStatus::Free));
    assert_eq!(store.count_free_total(), 267);
}
