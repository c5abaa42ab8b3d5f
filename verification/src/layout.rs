//! The static venue layout: sections, the category each section belongs to,
//! and the fixed geometry (rows, seats per row), visibility and price of each
//! section. Everything here is pure data with no state.

use vstd::prelude::*;

verus! {

/// A pricing/quality tier. Each category owns a fixed list of sections and a
/// single pointer to the next lower tier, which is the fallback chain used by
/// the seat finder.
#[derive(Clone, Copy, PartialEq, Eq, Structural, Debug, Hash)]
pub enum Category {
    VIP,
    Business,
    Economy,
}

/// One physical block of seats in the venue. Every section belongs to exactly
/// one category.
#[derive(Clone, Copy, PartialEq, Eq, Structural, Debug, Hash)]
pub enum Section {
    A1,
    B1,
    C1,
    A2,
    B2,
    C2,
    A3,
    B3,
    C3,
    D,
    E,
    F,
}

/// The key of one seat: its section, row and number within the row. Rows and
/// numbers start at 1. A key identifies a seat for the whole process lifetime.
#[derive(Clone, Copy, PartialEq, Eq, Structural, Debug, Hash)]
pub struct SeatKey {
    pub section: Section,
    pub row: u32,
    pub number: u32,
}

/// The catalog position of a section: its index in declaration order. This is
/// the ascending tie-break order used throughout the allocation rules.
pub open spec fn sec_idx(s: Section) -> int {
    match s {
        Section::A1 => 0,
        Section::B1 => 1,
        Section::C1 => 2,
        Section::A2 => 3,
        Section::B2 => 4,
        Section::C2 => 5,
        Section::A3 => 6,
        Section::B3 => 7,
        Section::C3 => 8,
        Section::D => 9,
        Section::E => 10,
        Section::F => 11,
    }
}

/// The section at a given catalog position.
pub open spec fn section_at(i: int) -> Section {
    if i == 0 {
        Section::A1
    } else if i == 1 {
        Section::B1
    } else if i == 2 {
        Section::C1
    } else if i == 3 {
        Section::A2
    } else if i == 4 {
        Section::B2
    } else if i == 5 {
        Section::C2
    } else if i == 6 {
        Section::A3
    } else if i == 7 {
        Section::B3
    } else if i == 8 {
        Section::C3
    } else if i == 9 {
        Section::D
    } else if i == 10 {
        Section::E
    } else {
        Section::F
    }
}

pub open spec fn spec_rows_of(s: Section) -> u32 {
    match s {
        Section::A1 | Section::B1 | Section::C1 => 2,
        _ => 4,
    }
}

pub open spec fn spec_seats_per_row(s: Section) -> u32 {
    match s {
        Section::A1 | Section::B1 | Section::C1 => 5,
        Section::D | Section::E | Section::F => 8,
        _ => 6,
    }
}

pub open spec fn spec_visibility_of(s: Section) -> u32 {
    match s {
        Section::A1 | Section::B1 | Section::C1 => 100,
        Section::A2 | Section::B2 | Section::C2 => 90,
        Section::A3 | Section::B3 | Section::C3 => 80,
        _ => 70,
    }
}

pub open spec fn spec_price_of(s: Section) -> u32 {
    match s {
        Section::A1 | Section::B1 | Section::C1 => 150,
        Section::A2 | Section::B2 | Section::C2 => 90,
        Section::A3 | Section::B3 | Section::C3 => 80,
        _ => 30,
    }
}

pub open spec fn spec_category_of(s: Section) -> Category {
    match s {
        Section::A1 | Section::B1 | Section::C1 => Category::VIP,
        Section::D | Section::E | Section::F => Category::Economy,
        _ => Category::Business,
    }
}

/// How many rows the given section has.
#[verifier::when_used_as_spec(spec_rows_of)]
pub fn rows_of(s: Section) -> (r: u32)
    ensures
        r == spec_rows_of(s),
{
    match s {
        Section::A1 | Section::B1 | Section::C1 => 2,
        _ => 4,
    }
}

/// How many seats each row of the given section has.
#[verifier::when_used_as_spec(spec_seats_per_row)]
pub fn seats_per_row(s: Section) -> (r: u32)
    ensures
        r == spec_seats_per_row(s),
{
    match s {
        Section::A1 | Section::B1 | Section::C1 => 5,
        Section::D | Section::E | Section::F => 8,
        _ => 6,
    }
}

/// The stage visibility rating shared by every seat of the given section.
#[verifier::when_used_as_spec(spec_visibility_of)]
pub fn visibility_of(s: Section) -> (r: u32)
    ensures
        r == spec_visibility_of(s),
{
    match s {
        Section::A1 | Section::B1 | Section::C1 => 100,
        Section::A2 | Section::B2 | Section::C2 => 90,
        Section::A3 | Section::B3 | Section::C3 => 80,
        _ => 70,
    }
}

/// The price shared by every seat of the given section.
#[verifier::when_used_as_spec(spec_price_of)]
pub fn price_of(s: Section) -> (r: u32)
    ensures
        r == spec_price_of(s),
{
    match s {
        Section::A1 | Section::B1 | Section::C1 => 150,
        Section::A2 | Section::B2 | Section::C2 => 90,
        Section::A3 | Section::B3 | Section::C3 => 80,
        _ => 30,
    }
}

/// The category that owns the given section.
#[verifier::when_used_as_spec(spec_category_of)]
pub fn category_of(s: Section) -> (r: Category)
    ensures
        r == spec_category_of(s),
{
    match s {
        Section::A1 | Section::B1 | Section::C1 => Category::VIP,
        Section::D | Section::E | Section::F => Category::Economy,
        _ => Category::Business,
    }
}

pub open spec fn spec_sections(c: Category) -> Seq<Section> {
    match c {
        Category::VIP => seq![Section::A1, Section::B1, Section::C1],
        Category::Business => seq![
            Section::A2,
            Section::B2,
            Section::C2,
            Section::A3,
            Section::B3,
            Section::C3,
        ],
        Category::Economy => seq![Section::D, Section::E, Section::F],
    }
}

pub open spec fn spec_lower_category(c: Category) -> Option<Category> {
    match c {
        Category::VIP => Some(Category::Business),
        Category::Business => Some(Category::Economy),
        Category::Economy => None,
    }
}

pub open spec fn spec_all_sections() -> Seq<Section> {
    seq![
        Section::A1,
        Section::B1,
        Section::C1,
        Section::A2,
        Section::B2,
        Section::C2,
        Section::A3,
        Section::B3,
        Section::C3,
        Section::D,
        Section::E,
        Section::F,
    ]
}

impl Category {
    /// The sections owned by this category, in declaration order.
    pub fn sections(&self) -> (r: Vec<Section>)
        ensures
            r@ == spec_sections(*self),
    {
        let mut v: Vec<Section> = Vec::new();
        match self {
            Category::VIP => {
                v.push(Section::A1);
                v.push(Section::B1);
                v.push(Section::C1);
            },
            Category::Business => {
                v.push(Section::A2);
                v.push(Section::B2);
                v.push(Section::C2);
                v.push(Section::A3);
                v.push(Section::B3);
                v.push(Section::C3);
            },
            Category::Economy => {
                v.push(Section::D);
                v.push(Section::E);
                v.push(Section::F);
            },
        }
        proof {
            assert(v@ =~= spec_sections(*self));
        }
        v
    }

    /// The next lower tier in the fallback chain, if any.
    pub fn lower_category(&self) -> (r: Option<Category>)
        ensures
            r == spec_lower_category(*self),
    {
        match self {
            Category::VIP => Some(Category::Business),
            Category::Business => Some(Category::Economy),
            Category::Economy => None,
        }
    }
}

impl Section {
    /// Every section of the venue, in catalog (declaration) order.
    pub fn all_sections() -> (r: Vec<Section>)
        ensures
            r@ == spec_all_sections(),
    {
        let mut v: Vec<Section> = Vec::new();
        v.push(Section::A1);
        v.push(Section::B1);
        v.push(Section::C1);
        v.push(Section::A2);
        v.push(Section::B2);
        v.push(Section::C2);
        v.push(Section::A3);
        v.push(Section::B3);
        v.push(Section::C3);
        v.push(Section::D);
        v.push(Section::E);
        v.push(Section::F);
        proof {
            assert(v@ =~= spec_all_sections());
        }
        v
    }
}


/// The position of a category in the fallback chain: lower tiers rank higher.
pub open spec fn cat_rank(c: Category) -> int {
    match c {
        Category::VIP => 0,
        Category::Business => 1,
        Category::Economy => 2,
    }
}

/// The fallback chain starting at `c`: the category itself, then each next
/// lower tier in turn.
pub open spec fn chain_of(c: Category) -> Seq<Category> {
    match c {
        Category::VIP => seq![Category::VIP, Category::Business, Category::Economy],
        Category::Business => seq![Category::Business, Category::Economy],
        Category::Economy => seq![Category::Economy],
    }
}

/// Every section of every category in the fallback chain of `c`, chain order
/// first, declaration order within a category.
pub open spec fn chain_sections(c: Category) -> Seq<Section> {
    match c {
        Category::VIP => spec_sections(Category::VIP) + spec_sections(Category::Business)
            + spec_sections(Category::Economy),
        Category::Business => spec_sections(Category::Business) + spec_sections(Category::Economy),
        Category::Economy => spec_sections(Category::Economy),
    }
}

/// A section of a chained category lies in the chain's section list.
pub proof fn lemma_section_in_chain(c: Category, d: Category, j: int)
    requires
        chain_of(c).contains(d),
        0 <= j < spec_sections(d).len(),
    ensures
        chain_sections(c).contains(spec_sections(d)[j]),
{
    let x = spec_sections(d)[j];
    match c {
        Category::VIP => {
            match d {
                Category::VIP => {
                    assert(chain_sections(c)[j] == x);
                },
                Category::Business => {
                    assert(chain_sections(c)[3 + j] == x);
                },
                Category::Economy => {
                    assert(chain_sections(c)[9 + j] == x);
                },
            }
        },
        Category::Business => {
            match d {
                Category::VIP => {
                    assert(false);
                },
                Category::Business => {
                    assert(chain_sections(c)[j] == x);
                },
                Category::Economy => {
                    assert(chain_sections(c)[6 + j] == x);
                },
            }
        },
        Category::Economy => {
            match d {
                Category::Economy => {
                    assert(chain_sections(c)[j] == x);
                },
                _ => {
                    assert(false);
                },
            }
        },
    }
}

impl Category {
    /// The fallback chain starting at this category.
    pub fn chain(&self) -> (r: Vec<Category>)
        ensures
            r@ == chain_of(*self),
    {
        let mut v: Vec<Category> = Vec::new();
        match self {
            Category::VIP => {
                v.push(Category::VIP);
                v.push(Category::Business);
                v.push(Category::Economy);
            },
            Category::Business => {
                v.push(Category::Business);
                v.push(Category::Economy);
            },
            Category::Economy => {
                v.push(Category::Economy);
            },
        }
        proof {
            assert(v@ =~= chain_of(*self));
        }
        v
    }
}

/// A key is valid when its row and number lie within its section's geometry.
pub open spec fn valid_key(k: SeatKey) -> bool {
    &&& 1 <= k.row <= spec_rows_of(k.section)
    &&& 1 <= k.number <= spec_seats_per_row(k.section)
}

/// Strict lexicographic order on keys: section in catalog order, then row,
/// then number. This is the ascending tie-break order of the allocation rules.
pub open spec fn key_lt(a: SeatKey, b: SeatKey) -> bool {
    ||| sec_idx(a.section) < sec_idx(b.section)
    ||| (a.section == b.section && a.row < b.row)
    ||| (a.section == b.section && a.row == b.row && a.number < b.number)
}

/// `sec_idx` and `section_at` are mutually inverse, so distinct sections have
/// distinct catalog positions.
pub proof fn lemma_sec_idx_bijective()
    ensures
        forall|s: Section| section_at(#[trigger] sec_idx(s)) == s,
        forall|i: int| 0 <= i < 12 ==> sec_idx(#[trigger] section_at(i)) == i,
{
}

} // verus!
