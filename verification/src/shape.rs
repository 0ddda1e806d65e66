use vstd::prelude::*;

verus! {

/// The stroke widths that a drawing uses.
#[derive(Debug, Clone, Copy, PartialEq, Eq)]
pub enum Thickness {
    Thin,
    Normal,
    Thick,
    ExtraThick,
}

impl Thickness {
    /// The width of the stroke in hundredths of the radius that the drawing
    /// is scaled by. Each width is twice the one before it.
    pub open spec fn spec_hundredths(&self) -> u32 {
        match self {
            Thickness::Thin => 1,
            Thickness::Normal => 2,
            Thickness::Thick => 4,
            Thickness::ExtraThick => 8,
        }
    }

    #[verifier::when_used_as_spec(spec_hundredths)]
    pub fn hundredths(&self) -> (width: u32)
        ensures
            width == self.spec_hundredths(),
    {
        match self {
            Thickness::Thin => 1,
            Thickness::Normal => 2,
            Thickness::Thick => 4,
            Thickness::ExtraThick => 8,
        }
    }
}

/// The style class of a group that turns: by its direction.
pub fn direction_class(is_clockwise: bool) -> (class: String)
    ensures
        class@ == if is_clockwise {
            "clockwise_number"@
        } else {
            "anti_clockwise_number"@
        },
{
    let direction = if is_clockwise {
        "clockwise_number"
    } else {
        "anti_clockwise_number"
    };
    String::from_str(direction)
}

/// The style classes of a group that turns and belongs to the class
/// `class` besides: the class of its direction, a blank, and `class`.
pub fn direction_class_with(is_clockwise: bool, class: &str) -> (classes: String)
    ensures
        classes@ == if is_clockwise {
            "clockwise_number"@
        } else {
            "anti_clockwise_number"@
        } + " "@ + class@,
{
    direction_class(is_clockwise).concat(" ").concat(class)
}

/// Why a tree could not be laid out.
#[derive(Debug, Clone, Copy, PartialEq, Eq)]
pub enum LayoutError {
    /// The circle was to be divided into no parts at all.
    DivisionDegenerate,
}

/// An angle as an exact part of a full turn: `num / den` turns, counted
/// counter-clockwise from the positive x axis.
#[derive(Debug, Clone, Copy, PartialEq, Eq)]
pub struct Angle {
    pub num: i128,
    pub den: u128,
}

/// The direction of the `index`-th of `count` equal steps round the circle,
/// the first of which points to the top, a quarter turn before the x axis.
pub open spec fn slot_of(index: int, count: int) -> Result<Angle, LayoutError> {
    if count <= 0 {
        Err(LayoutError::DivisionDegenerate)
    } else {
        Ok(Angle { num: (4 * index - count) as i128, den: (4 * count) as u128 })
    }
}

impl Angle {
    /// Divides the circle into `count` equal steps and gives the direction
    /// of the `index`-th, the first of which points to the top.
    ///
    /// A circle cannot be divided into no steps.
    pub fn slot(index: usize, count: usize) -> (r: Result<Angle, LayoutError>)
        ensures
            r == slot_of(index as int, count as int),
    {
        if count == 0 {
            return Err(LayoutError::DivisionDegenerate);
        }
        let num: i128 = 4 * (index as i128) - (count as i128);
        let den: u128 = 4 * (count as u128);
        Ok(Angle { num, den })
    }
}

/// The first step points to the top, and each step is one `count`-th of a
/// turn further than the one before it.
pub proof fn lemma_slots_even(index: int, count: int)
    requires
        0 <= index < usize::MAX,
        0 < count <= usize::MAX,
    ensures
        slot_of(0, count) matches Ok(first) && 4 * first.num == -first.den,
        slot_of(index, count) matches Ok(here) && slot_of(index + 1, count) matches Ok(next)
            && here.den == next.den && (next.num - here.num) * count == here.den,
{
    assert((4 * (index + 1) - count - (4 * index - count)) * count == 4 * count)
        by (nonlinear_arith);
}

} // verus!
