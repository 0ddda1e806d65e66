use crate::shape::{Angle, LayoutError};
use crate::tree::{Arc, Marks, Vowels};
use vstd::prelude::*;

verus! {

/// The part of the word circle that belongs to one letter, by the
/// directions of its two ends and of its bisector.
#[derive(Debug, Clone, Copy, PartialEq, Eq)]
pub struct Sector {
    pub start: Angle,
    pub middle: Angle,
    pub end: Angle,
}

/// The sector of the `index`-th of `count` letters.
///
/// The letters share half of the circle in equal sectors, and between two
/// sectors lies a gap as wide as a sector. With `count` letters a sector is
/// wide the `2 * count`-th part of a turn, and the bisector of the first
/// points to the top. The directions are written as parts of `4 * count`.
pub open spec fn sector_of(index: int, count: int) -> Result<Sector, LayoutError> {
    if count <= 0 {
        Err(LayoutError::DivisionDegenerate)
    } else {
        Ok(
            Sector {
                start: Angle { num: (4 * index - count - 1) as i128, den: (4 * count) as u128 },
                middle: Angle { num: (4 * index - count) as i128, den: (4 * count) as u128 },
                end: Angle { num: (4 * index - count + 1) as i128, den: (4 * count) as u128 },
            },
        )
    }
}

/// Gives the `index`-th of `count` letters its sector of the word circle.
///
/// A word without letters has no sectors.
pub fn sector(index: usize, count: usize) -> (r: Result<Sector, LayoutError>)
    ensures
        r == sector_of(index as int, count as int),
{
    if count == 0 {
        return Err(LayoutError::DivisionDegenerate);
    }
    let middle: i128 = 4 * (index as i128) - (count as i128);
    let den: u128 = 4 * (count as u128);
    Ok(
        Sector {
            start: Angle { num: middle - 1, den },
            middle: Angle { num: middle, den },
            end: Angle { num: middle + 1, den },
        },
    )
}

/// The sectors of a word of `count` letters, in reading order.
pub fn word_sectors(count: usize) -> (sectors: Vec<Sector>)
    ensures
        sectors@.len() == count,
        forall|i: int| 0 <= i < count ==> sector_of(i, count as int) == Ok::<Sector, LayoutError>(
            #[trigger] sectors@[i],
        ),
{
    let mut sectors: Vec<Sector> = Vec::new();
    let mut i: usize = 0;
    while i < count
        invariant
            i <= count,
            sectors@.len() == i,
            forall|k: int| 0 <= k < i ==> sector_of(k, count as int) == Ok::<Sector, LayoutError>(
                #[trigger] sectors@[k],
            ),
        decreases count - i,
    {
        match sector(i, count) {
            Ok(s) => sectors.push(s),
            Err(_) => {},
        }
        i += 1;
    }
    sectors
}

/// Whether the arc that joins one sector to the next goes the long way
/// round: it does where a single letter has the whole circle.
pub fn connector_is_large(count: usize) -> (large: bool)
    ensures
        large == (count == 1),
{
    count == 1
}

/// A sector is the `2 * count`-th part of a turn wide and its bisector
/// halves it; the bisector of the first sector points to the top.
pub proof fn lemma_sector_shape(index: int, count: int)
    requires
        0 <= index <= usize::MAX,
        0 < count <= usize::MAX,
    ensures
        sector_of(index, count) matches Ok(s) && s.start.den == s.end.den && s.middle.den
            == s.end.den && 2 * count * (s.end.num - s.start.num) == s.end.den && 2 * s.middle.num
            == s.start.num + s.end.num,
        sector_of(0, count) matches Ok(first) && 4 * first.middle.num == -first.middle.den,
{
    let s = sector_of(index, count)->Ok_0;
    assert(s.end.num - s.start.num == 2);
}

/// The gap between a sector and the next is as wide as a sector, and so is
/// the gap that closes the circle behind the last sector: the sectors do not
/// overlap and cover half of the circle.
pub proof fn lemma_sector_gaps(index: int, count: int)
    requires
        0 <= index < usize::MAX,
        0 < count <= usize::MAX,
    ensures
        sector_of(index, count) matches Ok(here) && sector_of(index + 1, count) matches Ok(next)
            && next.start.num - here.end.num == here.end.num - here.start.num,
        sector_of(0, count) matches Ok(first) && sector_of(count - 1, count) matches Ok(last)
            && first.start.num + first.start.den - last.end.num == last.end.num - last.start.num,
{
}

/// Where the glyph of a vowel sits on the bisector of its place.
#[derive(Debug, Clone, Copy, PartialEq, Eq)]
pub enum Seat {
    Inner,
    Middle,
    Outer,
}

/// The line that the glyph of a vowel carries.
#[derive(Debug, Clone, Copy, PartialEq, Eq)]
pub enum Stem {
    /// No line.
    Bare,
    /// A line from the glyph inward to the centre of the word.
    Inward,
    /// A line from the glyph outward beyond the word circle.
    Outward,
}

impl Vowels {
    pub open spec fn spec_seat(&self) -> Seat {
        match self {
            Vowels::A => Seat::Outer,
            Vowels::E | Vowels::I | Vowels::U => Seat::Middle,
            Vowels::O => Seat::Inner,
        }
    }

    /// Where the glyph sits: outward for A, inward for O, and on the middle
    /// of its place for the others.
    #[verifier::when_used_as_spec(spec_seat)]
    pub fn seat(&self) -> (seat: Seat)
        ensures
            seat == self.spec_seat(),
    {
        match self {
            Vowels::A => Seat::Outer,
            Vowels::E | Vowels::I | Vowels::U => Seat::Middle,
            Vowels::O => Seat::Inner,
        }
    }

    pub open spec fn spec_stem(&self) -> Stem {
        match self {
            Vowels::I => Stem::Inward,
            Vowels::U => Stem::Outward,
            _ => Stem::Bare,
        }
    }

    /// The line of the glyph: inward for I, outward for U, none for the
    /// others.
    #[verifier::when_used_as_spec(spec_stem)]
    pub fn stem(&self) -> (stem: Stem)
        ensures
            stem == self.spec_stem(),
    {
        match self {
            Vowels::I => Stem::Inward,
            Vowels::U => Stem::Outward,
            _ => Stem::Bare,
        }
    }
}

impl Arc {
    pub open spec fn spec_keeps_word_line(&self) -> bool {
        *self == Arc::Above || *self == Arc::On
    }

    /// Whether the word circle runs on unbroken through the sector of a
    /// consonant of this class.
    #[verifier::when_used_as_spec(spec_keeps_word_line)]
    pub fn keeps_word_line(&self) -> (keeps: bool)
        ensures
            keeps == self.spec_keeps_word_line(),
    {
        match self {
            Arc::Above | Arc::On => true,
            _ => false,
        }
    }
}

/// How the marks of a consonant are set round its anchor circle.
///
/// The part of the circle that is free for marks is divided into `gaps`
/// equal gaps, and the `k`-th mark, for `k` from 1 to `count`, stands `k`
/// gaps from where the free part begins.
#[derive(Debug, Clone, Copy, PartialEq, Eq)]
pub struct MarkPlan {
    pub is_line: bool,
    pub count: u32,
    pub gaps: u32,
}

impl Marks {
    /// The plan for these marks: one gap more than there are marks, and
    /// one more again where the centre is to be kept free and the number of
    /// marks is odd.
    pub open spec fn plan(&self, avoid_centre: bool) -> MarkPlan {
        MarkPlan {
            is_line: self is Line,
            count: self.count() as u32,
            gaps: if avoid_centre && self.count() % 2 == 1 {
                (self.count() + 2) as u32
            } else {
                (self.count() + 1) as u32
            },
        }
    }
}

/// Plans the marks of a consonant. `avoid_centre` says that a diacritic
/// holds the middle of the free part, where then no mark may stand.
pub fn plan_marks(marks: &Marks, avoid_centre: bool) -> (plan: MarkPlan)
    ensures
        plan == marks.plan(avoid_centre),
{
    let (num, is_line): (i32, bool) = match marks {
        Marks::Line(n) => (*n, true),
        Marks::Dot(n) => (*n, false),
    };
    let count: u32 = if num > 0 {
        num as u32
    } else {
        0
    };
    let gaps: u32 = if avoid_centre && count % 2 == 1 {
        count + 2
    } else {
        count + 1
    };
    MarkPlan { is_line, count, gaps }
}

/// Every mark stands strictly inside the free part of the circle, and no
/// mark stands in its middle where the centre is to be kept free.
pub proof fn lemma_marks_keep_clear(marks: Marks, avoid_centre: bool, k: int)
    requires
        1 <= k <= marks.count(),
    ensures
        0 < k < marks.plan(avoid_centre).gaps,
        avoid_centre ==> 2 * k != marks.plan(avoid_centre).gaps,
{
}

/// Where the centre need not be kept free, an odd number of marks has its
/// middle mark in the middle of the free part, and the marks lie evenly
/// about it.
pub proof fn lemma_marks_even(marks: Marks, k: int)
    requires
        1 <= k <= marks.count(),
    ensures
        1 <= marks.count() + 1 - k <= marks.count(),
        k + (marks.count() + 1 - k) == marks.plan(false).gaps,
{
}

} // verus!
