use seat_allocator::finder::Scope;
use seat_allocator::finder::Suggestion;
use seat_allocator::finder::suggest;
use seat_allocator::layout::Category;
use seat_allocator::layout::SeatKey;
use seat_allocator::layout::Section;
use seat_allocator::layout::category_of;
use seat_allocator::layout::rows_of;
use seat_allocator::layout::seats_per_row;
use seat_allocator::store::SeatStatus;
use seat_allocator::store::SeatStore;

fn key(section: Section, row: u32, number: u32) -> SeatKey {
    SeatKey { section, row, number }
}

fn book_section(store: &mut SeatStore, section: Section) {
    for row in 1..=rows_of(section) {
        for number in 1..=seats_per_row(section) {
            store
                .set_status(key(section, row, number), SeatStatus::Booked)
                .unwrap();
        }
    }
}

fn assert_all_exact(sugs: &Vec<Suggestion>, amount: usize) {
    for s in sugs {
        assert_eq!(s.seats.len(), amount);
    }
}

#[test]
fn same_row_run_in_fresh_top_tier_section() {
    // Scenario: a top-tier section of 2 rows x 5 seats, all free; asking for
    // 3 seats in that section yields one run of 3 consecutive seats in row 1.
    let store = SeatStore::build();
    let sugs = suggest(&store, 3, Scope::Sect(Section::A1));
    assert_eq!(sugs.len(), 1);
    assert_eq!(
        sugs[0].seats,
        vec![key(Section::A1, 1, 1), key(Section::A1, 1, 2), key(Section::A1, 1, 3)]
    );
    assert_eq!(sugs[0].total_price, 450);
}

#[test]
fn broken_row_falls_through_to_next_row() {
    // Scenario: row 1 fully booked except seat 5, row 2 fully free; the
    // same-row phase fails on row 1 (run length 1) and succeeds on row 2.
    let mut store = SeatStore::build();
    for number in 1..=4 {
        store
            .set_status(key(Section::A1, 1, number), SeatStatus::Booked)
            .unwrap();
    }
    let sugs = suggest(&store, 3, Scope::Sect(Section::A1));
    assert_eq!(sugs.len(), 1);
    assert_eq!(
        sugs[0].seats,
        vec![key(Section::A1, 2, 1), key(Section::A1, 2, 2), key(Section::A1, 2, 3)]
    );
}

#[test]
fn category_cascade_reaches_lower_tier() {
    // Scenario: the entire top tier is booked and the mid tier has
    // availability; a top-tier request cascades to the mid tier.
    let mut store = SeatStore::build();
    book_section(&mut store, Section::A1);
    book_section(&mut store, Section::B1);
    book_section(&mut store, Section::C1);
    let sugs = suggest(&store, 2, Scope::Cat(Category::VIP));
    assert!(sugs.len() >= 1);
    assert_all_exact(&sugs, 2);
    for s in &sugs {
        for k in &s.seats {
            assert_eq!(category_of(k.section), Category::Business);
        }
    }
}

#[test]
fn oversized_request_returns_empty() {
    // Scenario: the request exceeds the seats of the whole venue; the answer
    // is the empty suggestion list in every scope.
    let store = SeatStore::build();
    assert_eq!(suggest(&store, 1000, Scope::Anywhere).len(), 0);
    assert_eq!(suggest(&store, 1000, Scope::Cat(Category::VIP)).len(), 0);
    assert_eq!(suggest(&store, 1000, Scope::Sect(Section::F)).len(), 0);
}

#[test]
fn zero_request_returns_empty() {
    let store = SeatStore::build();
    assert_eq!(suggest(&store, 0, Scope::Anywhere).len(), 0);
    assert_eq!(suggest(&store, 0, Scope::Cat(Category::Economy)).len(), 0);
}

#[test]
fn suggestions_are_exact_and_disjoint() {
    let store = SeatStore::build();
    let sugs = suggest(&store, 4, Scope::Cat(Category::Business));
    assert_eq!(sugs.len(), 3);
    assert_all_exact(&sugs, 4);
    let mut seen: Vec<SeatKey> = Vec::new();
    for s in &sugs {
        for k in &s.seats {
            assert!(!seen.contains(k));
            seen.push(*k);
        }
    }
}

#[test]
fn scattered_seats_come_from_combination_phase() {
    // Book the even seats of both rows of A1: no two free seats are adjacent,
    // so the same-row phase cannot serve a pair and the combination phase
    // hands out the free seats in (row, number) order.
    let mut store = SeatStore::build();
    for row in 1..=2 {
        for number in [2, 4] {
            store
                .set_status(key(Section::A1, row, number), SeatStatus::Booked)
                .unwrap();
        }
    }
    let sugs = suggest(&store, 2, Scope::Sect(Section::A1));
    assert_eq!(sugs.len(), 3);
    assert_all_exact(&sugs, 2);
    assert_eq!(
        sugs[0].seats,
        vec![key(Section::A1, 1, 1), key(Section::A1, 1, 3)]
    );
    assert_eq!(
        sugs[1].seats,
        vec![key(Section::A1, 1, 5), key(Section::A1, 2, 1)]
    );
    assert_eq!(
        sugs[2].seats,
        vec![key(Section::A1, 2, 3), key(Section::A1, 2, 5)]
    );
}

#[test]
fn category_ranks_sections_by_free_count() {
    // B1 has the most free seats, so the same-row phase visits it first and
    // the first suggestion comes from it.
    let mut store = SeatStore::build();
    store.set_status(key(Section::A1, 1, 1), SeatStatus::Booked).unwrap();
    store.set_status(key(Section::C1, 1, 1), SeatStatus::Booked).unwrap();
    store.set_status(key(Section::C1, 1, 2), SeatStatus::Booked).unwrap();
    let sugs = suggest(&store, 2, Scope::Cat(Category::VIP));
    assert_eq!(sugs.len(), 3);
    assert_eq!(sugs[0].seats[0].section, Section::B1);
    assert_eq!(sugs[1].seats[0].section, Section::A1);
    assert_eq!(sugs[2].seats[0].section, Section::C1);
}

#[test]
fn first_producing_phase_is_exclusive() {
    // One section of the category still has a same-row pair; every returned
    // suggestion then comes from the same-row phase, i.e. lies in one row.
    let mut store = SeatStore::build();
    // Leave only a scattered pattern in D and E, and a clean row in F.
    for section in [Section::D, Section::E] {
        for row in 1..=4 {
            for number in [2, 4, 6, 8] {
                store
                    .set_status(key(section, row, number), SeatStatus::Booked)
                    .unwrap();
            }
        }
    }
    let sugs = suggest(&store, 2, Scope::Cat(Category::Economy));
    assert!(sugs.len() >= 1);
    for s in &sugs {
        assert_eq!(s.seats.len(), 2);
        assert_eq!(s.seats[0].section, Section::F);
        assert_eq!(s.seats[0].row, s.seats[1].row);
        assert_eq!(s.seats[0].number + 1, s.seats[1].number);
    }
}

#[test]
fn anywhere_spans_sections_when_no_section_suffices() {
    // Leave exactly one free seat in each VIP section and book everything
    // else: only the cross-section fallback can serve a request for 3.
    let mut store = SeatStore::build();
    for section in Section::all_sections() {
        book_section(&mut store, section);
    }
    store.set_status(key(Section::A1, 1, 1), SeatStatus::Free).unwrap();
    store.set_status(key(Section::B1, 2, 2), SeatStatus::Free).unwrap();
    store.set_status(key(Section::C1, 1, 3), SeatStatus::Free).unwrap();
    let sugs = suggest(&store, 3, Scope::Anywhere);
    assert_eq!(sugs.len(), 1);
    assert_eq!(
        sugs[0].seats,
        vec![key(Section::A1, 1, 1), key(Section::B1, 2, 2), key(Section::C1, 1, 3)]
    );
    assert_eq!(sugs[0].total_price, 450);
    // A single-section scope cannot be satisfied in the same state.
    assert_eq!(suggest(&store, 3, Scope::Sect(Section::A1)).len(), 0);
}

#[test]
fn suggest_does_not_mutate_the_store() {
    let store = SeatStore::build();
    let before = store.snapshot();
    let _ = suggest(&store, 3, Scope::Cat(Category::VIP));
    let _ = suggest(&store, 5, Scope::Anywhere);
    assert_eq!(store.snapshot(), before);
}

#[test]
fn combination_in_tier_beats_cascade_to_lower_tier() {
    // Every VIP section keeps only scattered single seats (no same-row pair),
    // yet enough of them: the combination phase serves the request from the
    // VIP tier and the cascade to the business tier never happens.
    let mut store = SeatStore::build();
    for section in [Section::A1, Section::B1, Section::C1] {
        for row in 1..=2 {
            for number in [2, 4] {
                store
                    .set_status(key(section, row, number), SeatStatus::Booked)
                    .unwrap();
            }
        }
    }
    let sugs = suggest(&store, 2, Scope::Cat(Category::VIP));
    assert_eq!(sugs.len(), 3);
    for s in &sugs {
        assert_eq!(s.seats.len(), 2);
        for k in &s.seats {
            assert_eq!(category_of(k.section), Category::VIP);
        }
        assert_eq!(s.total_price, 300);
    }
    // Declaration order among equally free sections: the first chunks come
    // from the first section.
    assert_eq!(sugs[0].seats[0], key(Section::A1, 1, 1));
    assert_eq!(sugs[0].seats[1], key(Section::A1, 1, 3));
}
