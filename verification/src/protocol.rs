//! The text protocol helpers: mapping the wire names of seat classes and
//! sections onto the catalog, and bulk-booking a predefined seat list given by
//! wire names. Everything here is pure computation on strings and the store.

use vstd::prelude::*;

use crate::layout::Section;
use crate::layout::SeatKey;
use crate::store::SeatStatus;
use crate::store::SeatStore;
use crate::store::has_key;
use crate::store::update_status;
use crate::store::wf_seats;

verus! {

/// The section a wire name denotes, if any.
pub open spec fn spec_parse_section(s: Seq<char>) -> Option<Section> {
    if s == "A1"@ {
        Some(Section::A1)
    } else if s == "B1"@ {
        Some(Section::B1)
    } else if s == "C1"@ {
        Some(Section::C1)
    } else if s == "A2"@ {
        Some(Section::A2)
    } else if s == "B2"@ {
        Some(Section::B2)
    } else if s == "C2"@ {
        Some(Section::C2)
    } else if s == "A3"@ {
        Some(Section::A3)
    } else if s == "B3"@ {
        Some(Section::B3)
    } else if s == "C3"@ {
        Some(Section::C3)
    } else if s == "D"@ {
        Some(Section::D)
    } else if s == "E"@ {
        Some(Section::E)
    } else if s == "F"@ {
        Some(Section::F)
    } else {
        None
    }
}

/// The section a wire name denotes, with the first economy section as the
/// fallback for anything unknown.
pub open spec fn spec_section_string_to_enum(s: Seq<char>) -> Section {
    match spec_parse_section(s) {
        Some(sec) => sec,
        None => Section::D,
    }
}

/// Character-for-character string equality.
pub fn str_eq(a: &str, b: &str) -> (r: bool)
    ensures
        r == (a@ == b@),
{
    let na = a.unicode_len();
    let nb = b.unicode_len();
    if na != nb {
        return false;
    }
    let mut i: usize = 0;
    while i < na
        invariant
            na == a@.len(),
            na == b@.len(),
            i <= na,
            forall|j: int| 0 <= j < i ==> a@[j] == b@[j],
        decreases na - i,
    {
        if a.get_char(i) != b.get_char(i) {
            return false;
        }
        i += 1;
    }
    proof {
        assert(a@ =~= b@);
    }
    true
}

/// Parses a wire section name.
pub fn parse_section(s: &str) -> (r: Option<Section>)
    ensures
        r == spec_parse_section(s@),
{
    if str_eq(s, "A1") {
        Some(Section::A1)
    } else if str_eq(s, "B1") {
        Some(Section::B1)
    } else if str_eq(s, "C1") {
        Some(Section::C1)
    } else if str_eq(s, "A2") {
        Some(Section::A2)
    } else if str_eq(s, "B2") {
        Some(Section::B2)
    } else if str_eq(s, "C2") {
        Some(Section::C2)
    } else if str_eq(s, "A3") {
        Some(Section::A3)
    } else if str_eq(s, "B3") {
        Some(Section::B3)
    } else if str_eq(s, "C3") {
        Some(Section::C3)
    } else if str_eq(s, "D") {
        Some(Section::D)
    } else if str_eq(s, "E") {
        Some(Section::E)
    } else if str_eq(s, "F") {
        Some(Section::F)
    } else {
        None
    }
}

/// Converts a wire section name to the catalog section, defaulting to the
/// first economy section for anything unknown.
pub fn section_string_to_enum(s: &str) -> (r: Section)
    ensures
        r == spec_section_string_to_enum(s@),
{
    match parse_section(s) {
        Some(sec) => sec,
        None => Section::D,
    }
}

/// The wire section names a seat-class name offers, first class through
/// economy; anything unknown falls back to the economy class name itself.
pub open spec fn spec_section_match(class: Seq<char>) -> Seq<Seq<char>> {
    if class == "FirstClass"@ {
        seq!["A1"@, "B1"@, "C1"@]
    } else if class == "BusinessClass"@ {
        seq!["A2"@, "B2"@, "C2"@, "A3"@, "B3"@, "C3"@]
    } else if class == "EconomyClass"@ {
        seq!["D"@, "E"@, "F"@]
    } else {
        seq!["EconomyClass"@]
    }
}

/// The wire section names offered for a seat-class name.
pub fn section_match(class: &str) -> (r: Vec<&'static str>)
    ensures
        r@.map_values(|x: &'static str| x@) == spec_section_match(class@),
{
    let mut v: Vec<&'static str> = Vec::new();
    if str_eq(class, "FirstClass") {
        v.push("A1");
        v.push("B1");
        v.push("C1");
    } else if str_eq(class, "BusinessClass") {
        v.push("A2");
        v.push("B2");
        v.push("C2");
        v.push("A3");
        v.push("B3");
        v.push("C3");
    } else if str_eq(class, "EconomyClass") {
        v.push("D");
        v.push("E");
        v.push("F");
    } else {
        v.push("EconomyClass");
    }
    proof {
        assert(v@.map_values(|x: &'static str| x@) =~= spec_section_match(class@));
    }
    v
}

/// The wire section name a (class name, ordinal) pair selects.
pub open spec fn spec_match_section(class: Seq<char>, section: Seq<char>) -> Seq<char> {
    if class == "FirstClass"@ {
        if section == "1"@ {
            "A1"@
        } else if section == "2"@ {
            "B1"@
        } else if section == "3"@ {
            "C1"@
        } else {
            "A1"@
        }
    } else if class == "BusinessClass"@ {
        if section == "1"@ {
            "A2"@
        } else if section == "2"@ {
            "B2"@
        } else if section == "3"@ {
            "C2"@
        } else if section == "4"@ {
            "A3"@
        } else if section == "5"@ {
            "B3"@
        } else if section == "6"@ {
            "C3"@
        } else {
            "A2"@
        }
    } else if class == "EconomyClass"@ {
        if section == "1"@ {
            "D"@
        } else if section == "2"@ {
            "E"@
        } else if section == "3"@ {
            "F"@
        } else {
            "D"@
        }
    } else {
        "D"@
    }
}

/// Maps a seat-class name and a section ordinal to the wire section name.
pub fn match_section(class: &str, section: &str) -> (r: &'static str)
    ensures
        r@ == spec_match_section(class@, section@),
{
    if str_eq(class, "FirstClass") {
        if str_eq(section, "1") {
            "A1"
        } else if str_eq(section, "2") {
            "B1"
        } else if str_eq(section, "3") {
            "C1"
        } else {
            "A1"
        }
    } else if str_eq(class, "BusinessClass") {
        if str_eq(section, "1") {
            "A2"
        } else if str_eq(section, "2") {
            "B2"
        } else if str_eq(section, "3") {
            "C2"
        } else if str_eq(section, "4") {
            "A3"
        } else if str_eq(section, "5") {
            "B3"
        } else if str_eq(section, "6") {
            "C3"
        } else {
            "A2"
        }
    } else if str_eq(class, "EconomyClass") {
        if str_eq(section, "1") {
            "D"
        } else if str_eq(section, "2") {
            "E"
        } else if str_eq(section, "3") {
            "F"
        } else {
            "D"
        }
    } else {
        "D"
    }
}

/// Whether one predefined entry denotes the seat keyed `k`.
pub open spec fn entry_books(e: (&str, u32, u32), k: SeatKey) -> bool {
    spec_parse_section(e.0@) == Some(k.section) && e.1 == k.row && e.2 == k.number
}

/// Whether any entry of the list denotes the seat keyed `k`.
pub open spec fn books(entries: Seq<(&str, u32, u32)>, k: SeatKey) -> bool {
    exists|e: int| 0 <= e < entries.len() && entry_books(#[trigger] entries[e], k)
}

/// Marks every listed seat as booked: each entry whose section name parses and
/// whose key exists in the store is set to `Booked`; entries with unknown
/// names or absent keys are skipped; no other seat changes.
pub fn mark_predefined_seats_as_booked(store: &mut SeatStore, predefined: &Vec<(&str, u32, u32)>)
    requires
        old(store).wf(),
    ensures
        final(store).wf(),
        final(store)@.len() == old(store)@.len(),
        forall|i: int|
            0 <= i < old(store)@.len() ==> (#[trigger] final(store)@[i]).key == old(store)@[i].key
                && final(store)@[i].price == old(store)@[i].price && final(store)@[i].visibility
                == old(store)@[i].visibility && final(store)@[i].status == (if books(
                predefined@,
                old(store)@[i].key,
            ) {
                SeatStatus::Booked
            } else {
                old(store)@[i].status
            }),
{
    let ghost st0 = store@;
    let mut e: usize = 0;
    while e < predefined.len()
        invariant
            store.wf(),
            wf_seats(st0),
            e <= predefined@.len(),
            store@.len() == st0.len(),
            forall|i: int|
                0 <= i < st0.len() ==> (#[trigger] store@[i]).key == st0[i].key && store@[i].price
                    == st0[i].price && store@[i].visibility == st0[i].visibility
                    && store@[i].status == (if books(predefined@.take(e as int), st0[i].key) {
                    SeatStatus::Booked
                } else {
                    st0[i].status
                }),
        decreases predefined@.len() - e,
    {
        let (name, row, number) = predefined[e];
        let ghost prev = store@;
        match parse_section(name) {
            Some(sec) => {
                let key = SeatKey { section: sec, row, number };
                let res = store.set_status(key, SeatStatus::Booked);
                proof {
                    assert(predefined@.take(e as int + 1) =~= predefined@.take(e as int).push(
                        predefined@[e as int],
                    ));
                    assert(entry_books(predefined@[e as int], key));
                    assert forall|i: int| 0 <= i < st0.len() implies (#[trigger] store@[i]).key
                        == st0[i].key && store@[i].price == st0[i].price && store@[i].visibility
                        == st0[i].visibility && store@[i].status == (if books(
                        predefined@.take(e as int + 1),
                        st0[i].key,
                    ) {
                        SeatStatus::Booked
                    } else {
                        st0[i].status
                    }) by {
                        if has_key(prev, key) {
                            assert(store@ == update_status(prev, key, SeatStatus::Booked));
                        } else {
                            assert(store@ == prev);
                        }
                        if books(predefined@.take(e as int + 1), st0[i].key) {
                            if !books(predefined@.take(e as int), st0[i].key) {
                                // Only the new entry can explain the booking.
                                let w = choose|w: int|
                                    0 <= w < predefined@.take(e as int + 1).len() && entry_books(
                                        #[trigger] predefined@.take(e as int + 1)[w],
                                        st0[i].key,
                                    );
                                assert(w == e as int);
                                assert(st0[i].key == key);
                                assert(has_key(prev, key)) by {
                                    assert(prev[i].key == key);
                                }
                            }
                        } else {
                            assert(!books(predefined@.take(e as int), st0[i].key)) by {
                                if books(predefined@.take(e as int), st0[i].key) {
                                    let w = choose|w: int|
                                        0 <= w < predefined@.take(e as int).len() && entry_books(
                                            #[trigger] predefined@.take(e as int)[w],
                                            st0[i].key,
                                        );
                                    assert(predefined@.take(e as int + 1)[w]
                                        == predefined@.take(e as int)[w]);
                                }
                            }
                            assert(st0[i].key != key) by {
                                if st0[i].key == key {
                                    assert(entry_books(
                                        predefined@.take(e as int + 1)[e as int],
                                        st0[i].key,
                                    ));
                                }
                            }
                        }
                    }
                }
            },
            None => {
                proof {
                    assert(predefined@.take(e as int + 1) =~= predefined@.take(e as int).push(
                        predefined@[e as int],
                    ));
                    assert forall|i: int| 0 <= i < st0.len() implies books(
                        predefined@.take(e as int + 1),
                        st0[i].key,
                    ) == books(predefined@.take(e as int), st0[i].key) by {
                        if books(predefined@.take(e as int + 1), st0[i].key) {
                            let w = choose|w: int|
                                0 <= w < predefined@.take(e as int + 1).len() && entry_books(
                                    #[trigger] predefined@.take(e as int + 1)[w],
                                    st0[i].key,
                                );
                            if w < e as int {
                                assert(predefined@.take(e as int)[w] == predefined@.take(
                                    e as int + 1,
                                )[w]);
                            } else {
                                assert(entry_books(predefined@[e as int], st0[i].key));
                            }
                        }
                        if books(predefined@.take(e as int), st0[i].key) {
                            let w = choose|w: int|
                                0 <= w < predefined@.take(e as int).len() && entry_books(
                                    #[trigger] predefined@.take(e as int)[w],
                                    st0[i].key,
                                );
                            assert(predefined@.take(e as int + 1)[w] == predefined@.take(
                                e as int,
                            )[w]);
                        }
                    }
                }
            },
        }
        e += 1;
    }
    proof {
        assert(predefined@.take(predefined@.len() as int) =~= predefined@);
    }
}

} // verus!
