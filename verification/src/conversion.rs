use vstd::prelude::*;

verus! {

/// A finished drawing: the markup of one vector image.
pub struct Svg(String);

impl View for Svg {
    type V = Seq<char>;

    closed spec fn view(&self) -> Seq<char> {
        self.0@
    }
}

impl Svg {
    /// Takes `markup` as the text of a drawing.
    pub fn new(markup: String) -> (image: Svg)
        ensures
            image@ == markup@,
    {
        Svg(markup)
    }

    /// Hands out the markup.
    pub fn svg(self) -> (markup: String)
        ensures
            markup@ == self@,
    {
        self.0
    }
}

/// The markup to show for what came of a text: the drawing itself, or a
/// paragraph that holds the reason why there is none.
pub fn get_image(drawn: Result<Svg, String>) -> (markup: String)
    ensures
        markup@ == match drawn {
            Ok(image) => image@,
            Err(reason) => "<p>"@ + reason@ + "</p>"@,
        },
{
    match drawn {
        Ok(image) => image.svg(),
        Err(reason) => String::from_str("<p>").concat(reason.as_str()).concat("</p>"),
    }
}

} // verus!
