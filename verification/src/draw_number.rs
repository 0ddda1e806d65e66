use crate::shape::Thickness;
use crate::tree::{Digit, Number, NumberView};
use vstd::prelude::*;

verus! {

/// One ring of a numeral, as it is to be drawn.
///
/// A numeral of `d` digits divides its radius into `d + 1` equal steps. A
/// ring reaches from `rank` steps to `rank + 1` steps from the centre. Its
/// ornaments, the inner circle first where it has one and then its lines,
/// stand at `divisions` equal steps round the ring, the first at the top.
#[derive(Debug, Clone, Copy, PartialEq, Eq)]
pub struct Ring {
    pub rank: usize,
    pub stroke: Thickness,
    pub has_circle: bool,
    pub lines: u8,
    pub divisions: u16,
    pub is_clockwise: bool,
}

/// The ring of the `index`-th of the digits `digits`, the most significant
/// of which is the outermost.
///
/// The boundary of a ring is extra thick behind the decimal point. The
/// rings turn anticlockwise and clockwise by turns, the outermost
/// anticlockwise. A digit without circle and lines has no ornaments, and
/// its ring is not divided.
pub open spec fn ring_of(digits: Seq<Digit>, index: int) -> Ring {
    let digit = digits[index];
    Ring {
        rank: (digits.len() - index) as usize,
        stroke: if digit.follows_dot {
            Thickness::ExtraThick
        } else {
            Thickness::Normal
        },
        has_circle: digit.has_circle,
        lines: digit.num_lines,
        divisions: if digit.has_circle {
            (digit.num_lines + 1) as u16
        } else {
            digit.num_lines as u16
        },
        is_clockwise: index % 2 == 1,
    }
}

/// Plans the rings of a numeral, the outermost first.
pub fn number_rings(number: &Number) -> (rings: Vec<Ring>)
    ensures
        rings@.len() == number@.digits.len(),
        forall|i: int| 0 <= i < rings@.len() ==> #[trigger] rings@[i] == ring_of(number@.digits, i),
{
    let count = number.digits.len();
    let mut rings: Vec<Ring> = Vec::new();
    let mut is_clockwise = false;
    let mut i: usize = 0;
    while i < count
        invariant
            count == number@.digits.len(),
            i <= count,
            is_clockwise == (i % 2 == 1),
            rings@.len() == i,
            forall|k: int| 0 <= k < i ==> #[trigger] rings@[k] == ring_of(number@.digits, k),
        decreases count - i,
    {
        let digit = number.digits[i];
        let stroke = if digit.follows_dot {
            Thickness::ExtraThick
        } else {
            Thickness::Normal
        };
        let divisions: u16 = if digit.has_circle {
            digit.num_lines as u16 + 1
        } else {
            digit.num_lines as u16
        };
        rings.push(
            Ring {
                rank: count - i,
                stroke,
                has_circle: digit.has_circle,
                lines: digit.num_lines,
                divisions,
                is_clockwise,
            },
        );
        is_clockwise = !is_clockwise;
        i += 1;
    }
    rings
}

/// The glyph at the centre of a numeral. It fills the innermost step of the
/// radius.
///
/// Without a stroke the circle is filled. The line is a diameter of the
/// circle, drawn with the stroke of the circle.
#[derive(Debug, Clone, Copy, PartialEq, Eq)]
pub struct CentreGlyph {
    pub stroke: Option<Thickness>,
    pub has_line: bool,
    pub is_clockwise: bool,
}

/// The centre glyph of a numeral: filled for a positive whole number,
/// a circle of normal stroke for a negative one, a circle of thin stroke
/// for a fraction, and with a diameter line for every negative number.
pub open spec fn centre_of(is_whole: bool, is_positive: bool, is_clockwise: bool) -> CentreGlyph {
    CentreGlyph {
        stroke: if !is_whole {
            Some(Thickness::Thin)
        } else if !is_positive {
            Some(Thickness::Normal)
        } else {
            None
        },
        has_line: !is_positive,
        is_clockwise,
    }
}

/// Chooses the glyph at the centre of a numeral by its sign and by whether
/// it is a whole number.
pub fn get_centre(is_whole: &bool, is_positive: &bool, is_clockwise: bool) -> (glyph: CentreGlyph)
    ensures
        glyph == centre_of(*is_whole, *is_positive, is_clockwise),
{
    match (*is_whole, *is_positive) {
        (true, true) => CentreGlyph { stroke: None, has_line: false, is_clockwise },
        (true, false) => CentreGlyph {
            stroke: Some(Thickness::Normal),
            has_line: true,
            is_clockwise,
        },
        (false, true) => CentreGlyph {
            stroke: Some(Thickness::Thin),
            has_line: false,
            is_clockwise,
        },
        (false, false) => CentreGlyph { stroke: Some(Thickness::Thin), has_line: true, is_clockwise },
    }
}

/// The centre glyph of the numeral `number`, which goes on with the turns
/// of the rings round it.
pub open spec fn number_centre_of(number: NumberView) -> CentreGlyph {
    centre_of(number.is_whole, number.is_positive, number.digits.len() % 2 == 1)
}

/// Plans the glyph at the centre of a numeral.
pub fn number_centre(number: &Number) -> (glyph: CentreGlyph)
    ensures
        glyph == number_centre_of(number@),
{
    get_centre(&number.is_whole, &number.is_positive, number.digits.len() % 2 == 1)
}

/// The rings of a numeral lie one inside the other without a gap, from the
/// full radius down to the centre glyph, and neighbours turn against each
/// other, the centre glyph against the innermost ring.
pub proof fn lemma_rings_nest(number: NumberView, index: int)
    requires
        0 <= index < number.digits.len() <= usize::MAX,
    ensures
        ring_of(number.digits, 0).rank + 1 == number.digits.len() + 1,
        index + 1 < number.digits.len() ==> {
            &&& ring_of(number.digits, index + 1).rank + 1 == ring_of(number.digits, index).rank
            &&& ring_of(number.digits, index + 1).is_clockwise != ring_of(
                number.digits,
                index,
            ).is_clockwise
        },
        index + 1 == number.digits.len() ==> {
            &&& ring_of(number.digits, index).rank == 1
            &&& number_centre_of(number).is_clockwise != ring_of(number.digits, index).is_clockwise
        },
{
}

/// A ring has as many ornaments as it has divisions, and the ring of a well
/// formed digit has five at most.
pub proof fn lemma_ring_ornaments(digits: Seq<Digit>, index: int)
    requires
        0 <= index < digits.len(),
    ensures
        ring_of(digits, index).divisions == ring_of(digits, index).lines + if ring_of(
            digits,
            index,
        ).has_circle {
            1int
        } else {
            0int
        },
        digits[index].well_formed() ==> ring_of(digits, index).divisions <= 5,
        ring_of(digits, index).divisions == 0 <==> digits[index].value() == 0,
{
}

} // verus!
