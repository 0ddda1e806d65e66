use crate::tree::{
    is_digit, is_letter, number_of, word_letters, Letter, Number, NumberView, ParseError, Word,
};
use vstd::prelude::*;

verus! {

/// One token of a sentence.
#[derive(Debug, Clone, PartialEq, Eq)]
pub enum WordTypes {
    PlainWord(Word),
    Number(Number),
    /// Punctuation has no glyphs yet: it takes no place in a drawing.
    Punctuation,
}

/// What a token holds, with its letters or digits as sequences.
pub enum TokenView {
    PlainWord(Seq<Letter>),
    Number(NumberView),
    Punctuation,
}

impl View for WordTypes {
    type V = TokenView;

    open spec fn view(&self) -> TokenView {
        match self {
            WordTypes::PlainWord(w) => TokenView::PlainWord(w@),
            WordTypes::Number(n) => TokenView::Number(n@),
            WordTypes::Punctuation => TokenView::Punctuation,
        }
    }
}

/// A sentence: its tokens in reading order.
#[derive(Debug, Clone, PartialEq, Eq)]
pub struct Sentence {
    pub words: Vec<WordTypes>,
}

impl View for Sentence {
    type V = Seq<TokenView>;

    open spec fn view(&self) -> Seq<TokenView> {
        Seq::new(self.words@.len(), |i: int| self.words@[i]@)
    }
}

/// The classes of characters that a text is made of.
#[derive(Debug, Clone, Copy, PartialEq, Eq)]
pub enum CharClass {
    /// A letter of the alphabet.
    Letter,
    /// A digit, a decimal point or a minus sign.
    Numeric,
    /// A punctuation mark that is no part of a numeral.
    Punctuation,
    /// White space, which separates tokens.
    Space,
    /// Anything else.
    Invalid,
}

/// Whether `c` may stand in a numeral: a digit, the decimal point or the
/// minus sign.
pub open spec fn is_numeric(c: char) -> bool {
    is_digit(c) || c == '.' || c == '-'
}

/// Whether `c` is a punctuation mark that is no part of a numeral: a
/// comma, a semicolon, a colon, a question or exclamation mark, or a single
/// or double quote.
pub open spec fn is_mark(c: char) -> bool {
    c == ',' || c == ';' || c == ':' || c == '?' || c == '!' || c == '\'' || c == '"'
}

/// Whether `c` is white space: a blank, a tab, a line feed or a carriage
/// return.
pub open spec fn is_space(c: char) -> bool {
    c == ' ' || c == '\t' || c == '\n' || c == '\r'
}

/// The class of the character `c`.
pub open spec fn class_of(c: char) -> CharClass {
    if is_letter(c) {
        CharClass::Letter
    } else if is_numeric(c) {
        CharClass::Numeric
    } else if is_mark(c) {
        CharClass::Punctuation
    } else if is_space(c) {
        CharClass::Space
    } else {
        CharClass::Invalid
    }
}

/// Tells the class of a character.
pub fn classify(c: char) -> (class: CharClass)
    ensures
        class == class_of(c),
{
    if 'a' <= c && c <= 'z' {
        CharClass::Letter
    } else if ('0' <= c && c <= '9') || c == '.' || c == '-' {
        CharClass::Numeric
    } else if c == ',' || c == ';' || c == ':' || c == '?' || c == '!' || c == '\'' || c == '"' {
        CharClass::Punctuation
    } else if c == ' ' || c == '\t' || c == '\n' || c == '\r' {
        CharClass::Space
    } else {
        CharClass::Invalid
    }
}

/// The number of characters of `s` from position `k` on that belong to the
/// class `class`, up to the first that does not.
pub open spec fn run_len(s: Seq<char>, k: int, class: CharClass) -> nat
    decreases s.len() - k,
{
    if 0 <= k < s.len() && class_of(s[k]) == class {
        1 + run_len(s, k + 1, class)
    } else {
        0
    }
}

/// Where the run of characters of one class that begins at `i` ends: the
/// position after its last character.
pub open spec fn run_end(s: Seq<char>, i: int) -> int {
    i + 1 + run_len(s, i + 1, class_of(s[i]))
}

/// A run ends within the text.
pub proof fn lemma_run_len(s: Seq<char>, k: int, class: CharClass)
    requires
        0 <= k <= s.len(),
    ensures
        k + run_len(s, k, class) <= s.len(),
    decreases s.len() - k,
{
    if k < s.len() && class_of(s[k]) == class {
        lemma_run_len(s, k + 1, class);
    }
}

/// Whether `run` holds a digit.
pub open spec fn has_digit(run: Seq<char>) -> bool {
    exists|k: int| 0 <= k < run.len() && is_digit(#[trigger] run[k])
}

/// The token that a run of characters of one class makes.
///
/// Letters make a word. Numeric characters make a numeral where a digit is
/// among them, and are punctuation where none is. Punctuation is refused.
pub open spec fn token_of(run: Seq<char>) -> Result<TokenView, ParseError> {
    match class_of(run[0]) {
        CharClass::Letter => Ok(TokenView::PlainWord(word_letters(run))),
        CharClass::Numeric => if has_digit(run) {
            match number_of(run) {
                Ok(n) => Ok(TokenView::Number(n)),
                Err(e) => Err(e),
            }
        } else {
            Err(ParseError::UnsupportedConstruct)
        },
        _ => Err(ParseError::UnsupportedConstruct),
    }
}

/// The tokens `first` and then those of `rest`, or the error of `rest`.
pub open spec fn prepend(first: Seq<TokenView>, rest: Result<Seq<TokenView>, ParseError>) -> Result<
    Seq<TokenView>,
    ParseError,
> {
    match rest {
        Ok(tokens) => Ok(first + tokens),
        Err(e) => Err(e),
    }
}

/// The tokens of `s` from position `i` on, or the first error met on the
/// way from left to right.
///
/// White space separates tokens and is none itself. A token is a run of
/// letters, of numeric characters or of punctuation marks that is as long
/// as it can be. A character of no class is refused by name.
pub open spec fn tokens_from(s: Seq<char>, i: int) -> Result<Seq<TokenView>, ParseError>
    decreases s.len() - i,
    via tokens_from_decreases
{
    if i < 0 || i >= s.len() {
        Ok(Seq::empty())
    } else {
        match class_of(s[i]) {
            CharClass::Space => tokens_from(s, i + 1),
            CharClass::Invalid => Err(ParseError::InvalidCharacter(s[i])),
            _ => match token_of(s.subrange(i, run_end(s, i))) {
                Ok(token) => prepend(seq![token], tokens_from(s, run_end(s, i))),
                Err(e) => Err(e),
            },
        }
    }
}

#[via_fn]
proof fn tokens_from_decreases(s: Seq<char>, i: int) {
    if 0 <= i < s.len() {
        lemma_run_len(s, i + 1, class_of(s[i]));
    }
}

/// The result of reading a sentence, with the sentence by its view.
pub open spec fn sentence_result(r: Result<Sentence, ParseError>) -> Result<
    Seq<TokenView>,
    ParseError,
> {
    match r {
        Ok(sentence) => Ok(sentence@),
        Err(e) => Err(e),
    }
}

/// The number of tokens of `tokens` that are drawn: all but punctuation.
pub open spec fn drawable(tokens: Seq<TokenView>) -> nat
    decreases tokens.len(),
{
    if tokens.len() == 0 {
        0
    } else if tokens.last() is Punctuation {
        drawable(tokens.drop_last())
    } else {
        drawable(tokens.drop_last()) + 1
    }
}

impl Sentence {
    /// Splits a text into its tokens and reads each of them.
    ///
    /// The text is taken as it is: the caller trims it and turns it to
    /// lower case. An empty text is a sentence without tokens.
    pub fn try_from(chars: Vec<char>) -> (r: Result<Sentence, ParseError>)
        ensures
            sentence_result(r) == tokens_from(chars@, 0),
    {
        let n = chars.len();
        let ghost s = chars@;
        let mut words: Vec<WordTypes> = Vec::new();
        let ghost mut seen: Seq<TokenView> = Seq::empty();
        let mut i: usize = 0;
        assert(prepend(seen, tokens_from(s, 0)) == tokens_from(s, 0)) by {
            match tokens_from(s, 0) {
                Ok(tokens) => assert(seen + tokens == tokens),
                Err(_) => {},
            }
        }
        while i < n
            invariant
                s == chars@,
                n == s.len(),
                i <= n,
                seen.len() == words@.len(),
                forall|k: int| 0 <= k < seen.len() ==> seen[k] == #[trigger] words@[k]@,
                prepend(seen, tokens_from(s, i as int)) == tokens_from(s, 0),
            decreases n - i,
        {
            let class = classify(chars[i]);
            match class {
                CharClass::Space => {
                    i += 1;
                },
                CharClass::Invalid => {
                    return Err(ParseError::InvalidCharacter(chars[i]));
                },
                _ => {
                    let mut run: Vec<char> = Vec::new();
                    run.push(chars[i]);
                    let mut digit = is_digit_char(chars[i]);
                    let mut j: usize = i + 1;
                    proof {
                        lemma_has_digit_push(Seq::empty(), s[i as int]);
                        assert(run@ == Seq::<char>::empty().push(s[i as int]));
                    }
                    while j < n && same_class(classify(chars[j]), class)
                        invariant
                            s == chars@,
                            n == s.len(),
                            i < j <= n,
                            class == class_of(s[i as int]),
                            run@ == s.subrange(i as int, j as int),
                            digit == has_digit(run@),
                            run_len(s, i + 1, class) == j - (i + 1) + run_len(s, j as int, class),
                        decreases n - j,
                    {
                        let ghost before = run@;
                        run.push(chars[j]);
                        digit = digit || is_digit_char(chars[j]);
                        j += 1;
                        proof {
                            assert(run@ == s.subrange(i as int, j as int));
                            lemma_has_digit_push(before, s[j - 1]);
                        }
                    }
                    assert(j == run_end(s, i as int));
                    let ghost text = run@;
                    let token = match class {
                        CharClass::Letter => match Word::try_from(run) {
                            Ok(word) => WordTypes::PlainWord(word),
                            Err(e) => {
                                // A run of letters holds no character that a
                                // word refuses: this is never reached.
                                proof {
                                    lemma_run_classes(s, i as int, j as int);
                                    let k = choose|k: int| #[trigger]
                                        crate::tree::first_non_letter(text, k);
                                    assert(class_of(text[k]) == CharClass::Letter);
                                }
                                return Err(e);
                            },
                        },
                        CharClass::Numeric => if digit {
                            match Number::try_from(run) {
                                Ok(number) => WordTypes::Number(number),
                                Err(e) => {
                                    return Err(e);
                                },
                            }
                        } else {
                            return Err(ParseError::UnsupportedConstruct);
                        },
                        _ => {
                            return Err(ParseError::UnsupportedConstruct);
                        },
                    };
                    proof {
                        let rest = tokens_from(s, j as int);
                        assert(tokens_from(s, i as int) == prepend(seq![token@], rest));
                        match rest {
                            Ok(tokens) => assert(seen + (seq![token@] + tokens) == seen.push(
                                token@,
                            ) + tokens),
                            Err(_) => {},
                        }
                        seen = seen.push(token@);
                    }
                    words.push(token);
                    i = j;
                },
            }
        }
        let sentence = Sentence { words };
        proof {
            assert(seen + Seq::<TokenView>::empty() == seen);
            assert(sentence@ == seen);
        }
        Ok(sentence)
    }

    /// The number of tokens that are drawn: all but punctuation.
    pub fn get_num_words(&self) -> (n: usize)
        ensures
            n == drawable(self@),
    {
        let mut count: usize = 0;
        let mut i: usize = 0;
        while i < self.words.len()
            invariant
                i <= self.words@.len(),
                count <= i,
                count == drawable(self@.take(i as int)),
            decreases self.words@.len() - i,
        {
            assert(self@.take(i + 1).drop_last() == self@.take(i as int));
            match self.words[i] {
                WordTypes::Punctuation => {},
                _ => {
                    count += 1;
                },
            }
            i += 1;
        }
        assert(self@.take(i as int) == self@);
        count
    }
}

fn is_digit_char(c: char) -> (b: bool)
    ensures
        b == is_digit(c),
{
    '0' <= c && c <= '9'
}

fn same_class(a: CharClass, b: CharClass) -> (same: bool)
    ensures
        same == (a == b),
{
    match (a, b) {
        (CharClass::Letter, CharClass::Letter) => true,
        (CharClass::Numeric, CharClass::Numeric) => true,
        (CharClass::Punctuation, CharClass::Punctuation) => true,
        (CharClass::Space, CharClass::Space) => true,
        (CharClass::Invalid, CharClass::Invalid) => true,
        _ => false,
    }
}

proof fn lemma_has_digit_push(run: Seq<char>, c: char)
    ensures
        has_digit(run.push(c)) == (has_digit(run) || is_digit(c)),
{
    let longer = run.push(c);
    if has_digit(run) {
        let k = choose|k: int| 0 <= k < run.len() && is_digit(#[trigger] run[k]);
        assert(is_digit(longer[k]));
    }
    if is_digit(c) {
        assert(is_digit(longer[run.len() as int]));
    }
    if has_digit(longer) {
        let k = choose|k: int| 0 <= k < longer.len() && is_digit(#[trigger] longer[k]);
        if k < run.len() {
            assert(is_digit(run[k]));
        }
    }
}

/// Every character of a run belongs to the class of its first.
pub proof fn lemma_run_classes(s: Seq<char>, i: int, j: int)
    requires
        0 <= i < j <= run_end(s, i),
        j <= s.len(),
    ensures
        forall|k: int| i <= k < j ==> class_of(#[trigger] s[k]) == class_of(s[i]),
    decreases j - i,
{
    if i + 1 < j {
        assert(run_len(s, i + 1, class_of(s[i])) > 0);
        assert(run_end(s, i + 1) == run_end(s, i));
        lemma_run_classes(s, i + 1, j);
    }
}

/// A sentence that is read holds no punctuation: every token of it is
/// drawn.
pub proof fn lemma_tokens_are_drawn(s: Seq<char>, i: int)
    requires
        tokens_from(s, i) is Ok,
    ensures
        forall|k: int|
            0 <= k < tokens_from(s, i)->Ok_0.len() ==> !(#[trigger] tokens_from(s, i)->Ok_0[k]
                is Punctuation),
        drawable(tokens_from(s, i)->Ok_0) == tokens_from(s, i)->Ok_0.len(),
    decreases s.len() - i,
{
    let tokens = tokens_from(s, i)->Ok_0;
    if 0 <= i < s.len() {
        if class_of(s[i]) == CharClass::Space {
            lemma_tokens_are_drawn(s, i + 1);
        } else {
            let j = run_end(s, i);
            lemma_run_len(s, i + 1, class_of(s[i]));
            lemma_tokens_are_drawn(s, j);
            let token = token_of(s.subrange(i, j))->Ok_0;
            let rest = tokens_from(s, j)->Ok_0;
            assert(tokens == seq![token] + rest);
            assert(!(token is Punctuation));
        }
    }
    lemma_all_drawn(tokens);
}

/// Where no token is punctuation, all are drawn.
pub proof fn lemma_all_drawn(tokens: Seq<TokenView>)
    requires
        forall|k: int| 0 <= k < tokens.len() ==> !(#[trigger] tokens[k] is Punctuation),
    ensures
        drawable(tokens) == tokens.len(),
    decreases tokens.len(),
{
    if tokens.len() > 0 {
        lemma_all_drawn(tokens.drop_last());
    }
}

/// A character is refused by name only where it belongs to no class; and
/// where such a character stands in the text, the text is not read.
pub proof fn lemma_invalid_characters(s: Seq<char>, i: int, c: char)
    requires
        0 <= i <= s.len(),
    ensures
        tokens_from(s, i) == Err::<Seq<TokenView>, ParseError>(ParseError::InvalidCharacter(c))
            ==> class_of(c) == CharClass::Invalid && exists|k: int|
            i <= k < s.len() && #[trigger] s[k] == c,
        (exists|k: int| i <= k < s.len() && class_of(#[trigger] s[k]) == CharClass::Invalid)
            ==> tokens_from(s, i) is Err,
    decreases s.len() - i,
{
    if i < s.len() {
        let class = class_of(s[i]);
        if class == CharClass::Space {
            lemma_invalid_characters(s, i + 1, c);
            if exists|k: int| i <= k < s.len() && class_of(#[trigger] s[k]) == CharClass::Invalid {
                let k = choose|k: int|
                    i <= k < s.len() && class_of(#[trigger] s[k]) == CharClass::Invalid;
                assert(i + 1 <= k);
            }
        } else if class == CharClass::Invalid {
            assert(s[i] == s[i]);
        } else {
            let j = run_end(s, i);
            lemma_run_len(s, i + 1, class);
            lemma_run_classes(s, i, j);
            lemma_invalid_characters(s, j, c);
            let run = s.subrange(i, j);
            assert(run[0] == s[i]);
            if class == CharClass::Numeric {
                assert forall|k: int| 0 <= k < run.len() implies is_digit(#[trigger] run[k])
                    || run[k] == '.' || run[k] == '-' by {
                    assert(class_of(s[i + k]) == CharClass::Numeric);
                }
                crate::tree::lemma_numeric_faults(run);
            }
            if exists|k: int| i <= k < s.len() && class_of(#[trigger] s[k]) == CharClass::Invalid {
                let k = choose|k: int|
                    i <= k < s.len() && class_of(#[trigger] s[k]) == CharClass::Invalid;
                if k < j {
                    assert(class_of(s[k]) == class);
                }
            }
        }
    }
}

/// A text of letters and white space alone is read, whatever it holds.
pub proof fn lemma_words_are_read(s: Seq<char>, i: int)
    requires
        0 <= i <= s.len(),
        forall|k: int| i <= k < s.len() ==> is_letter(#[trigger] s[k]) || is_space(s[k]),
    ensures
        tokens_from(s, i) is Ok,
    decreases s.len() - i,
{
    if i < s.len() {
        if class_of(s[i]) == CharClass::Space {
            lemma_words_are_read(s, i + 1);
        } else {
            let j = run_end(s, i);
            lemma_run_len(s, i + 1, class_of(s[i]));
            assert(s.subrange(i, j)[0] == s[i]);
            lemma_words_are_read(s, j);
        }
    }
}

} // verus!
