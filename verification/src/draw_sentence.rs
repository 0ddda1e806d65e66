use crate::sentence::{drawable, Sentence, TokenView, WordTypes};
use crate::shape::{slot_of, Angle, LayoutError};
use vstd::prelude::*;

verus! {

/// How the tokens of a sentence are packed into its ring.
#[derive(Debug, Clone, Copy, PartialEq, Eq)]
pub enum Packing {
    /// At most one token: it sits in the centre of the sentence.
    Centre,
    /// Two tokens: they touch in the centre.
    Pair,
    /// Three tokens or more: they sit on a ring, each touching its
    /// neighbours.
    Ring,
}

/// How `num_words` tokens are packed.
pub open spec fn packing_of(num_words: int) -> Packing {
    if num_words <= 1 {
        Packing::Centre
    } else if num_words == 2 {
        Packing::Pair
    } else {
        Packing::Ring
    }
}

/// Chooses how `num_words` tokens are packed.
pub fn get_packing(num_words: usize) -> (packing: Packing)
    ensures
        packing == packing_of(num_words as int),
{
    match num_words {
        0 | 1 => Packing::Centre,
        2 => Packing::Pair,
        _ => Packing::Ring,
    }
}

/// The place of the `index`-th token of `tokens`: punctuation has none, and
/// the tokens that are drawn stand at equal steps round the sentence, the
/// first at the top, in reading order.
pub open spec fn place_of(tokens: Seq<TokenView>, index: int) -> Option<Angle> {
    if tokens[index] is Punctuation {
        None
    } else {
        match slot_of(drawable(tokens.take(index)) as int, drawable(tokens) as int) {
            Ok(angle) => Some(angle),
            Err(_) => None,
        }
    }
}

/// Gives each token of the sentence its place on the ring of the sentence.
pub fn placements(sentence: &Sentence) -> (places: Vec<Option<Angle>>)
    ensures
        places@.len() == sentence@.len(),
        forall|i: int| 0 <= i < places@.len() ==> #[trigger] places@[i] == place_of(sentence@, i),
{
    let num_words = sentence.get_num_words();
    let mut places: Vec<Option<Angle>> = Vec::new();
    let mut slot: usize = 0;
    let mut i: usize = 0;
    while i < sentence.words.len()
        invariant
            i <= sentence.words@.len(),
            sentence@.len() == sentence.words@.len(),
            num_words == drawable(sentence@),
            slot <= i,
            slot == drawable(sentence@.take(i as int)),
            places@.len() == i,
            forall|k: int| 0 <= k < i ==> #[trigger] places@[k] == place_of(sentence@, k),
        decreases sentence.words@.len() - i,
    {
        assert(sentence@.take(i + 1).drop_last() == sentence@.take(i as int));
        assert(sentence@[i as int] == sentence.words@[i as int]@);
        match sentence.words[i] {
            WordTypes::Punctuation => {
                places.push(None);
            },
            _ => {
                let place = match Angle::slot(slot, num_words) {
                    Ok(angle) => Some(angle),
                    Err(_) => None,
                };
                places.push(place);
                slot += 1;
            },
        }
        i += 1;
    }
    places
}

/// The count of the tokens that are drawn grows along the sentence.
pub proof fn lemma_drawable_grows(tokens: Seq<TokenView>, index: int)
    requires
        0 <= index <= tokens.len(),
    ensures
        drawable(tokens.take(index)) <= drawable(tokens),
        index < tokens.len() && !(tokens[index] is Punctuation) ==> drawable(tokens.take(index))
            < drawable(tokens),
    decreases tokens.len() - index,
{
    if index == tokens.len() {
        assert(tokens.take(index) == tokens);
    } else {
        assert(tokens.take(index + 1).drop_last() == tokens.take(index));
        lemma_drawable_grows(tokens, index + 1);
    }
}

/// Every token that is drawn has a place, and punctuation has none.
pub proof fn lemma_drawn_tokens_have_places(tokens: Seq<TokenView>, index: int)
    requires
        0 <= index < tokens.len(),
    ensures
        place_of(tokens, index) is Some <==> !(tokens[index] is Punctuation),
{
    lemma_drawable_grows(tokens, index);
}

} // verus!
