use vstd::prelude::*;

verus! {

/// The skeleton a consonant is drawn on, relative to the word circle.
#[derive(Debug, Clone, Copy, PartialEq, Eq)]
pub enum Arc {
    Big,
    Above,
    Small,
    On,
}

/// The ornaments of a consonant: a number of dots or of radial lines.
#[derive(Debug, Clone, Copy, PartialEq, Eq)]
pub enum Marks {
    Dot(i32),
    Line(i32),
}

/// The five vowel sounds of the script.
#[derive(Debug, Clone, Copy, PartialEq, Eq)]
pub enum Vowels {
    A,
    E,
    I,
    O,
    U,
}

impl Vowels {
    /// Whether the vowel's glyph, attached to a consonant, occupies the
    /// centre of the consonant's anchor circle.
    pub open spec fn spec_centre(&self) -> bool {
        *self == Vowels::I || *self == Vowels::O
    }

    /// Tells whether the vowel holds the centre of a consonant that carries
    /// it: I and O do.
    #[verifier::when_used_as_spec(spec_centre)]
    pub fn centre(&self) -> (b: bool)
        ensures
            b == self.spec_centre(),
    {
        match self {
            Vowels::I | Vowels::O => true,
            _ => false,
        }
    }
}

/// A vowel: its sound, and whether it is written twice.
#[derive(Debug, Clone, Copy, PartialEq, Eq)]
pub struct Vowel {
    pub v: Vowels,
    pub double: bool,
}

/// A consonant: its skeleton, its marks, and the vowel that it carries as
/// its diacritic.
#[derive(Debug, Clone, Copy, PartialEq, Eq)]
pub struct Consonant {
    pub arc: Arc,
    pub marks: Option<Marks>,
    pub diacritic: Option<Vowel>,
}

/// A letter of a word: a consonant, with or without a diacritic, or a
/// vowel that stands alone.
#[derive(Debug, Clone, Copy, PartialEq, Eq)]
pub enum Letter {
    COpt(Consonant),
    VOpt(Vowel),
}

impl Marks {
    /// How many marks there are; none where the number is not positive.
    pub open spec fn count(&self) -> int {
        let n = match self {
            Marks::Dot(n) => *n,
            Marks::Line(n) => *n,
        };
        if n > 0 {
            n as int
        } else {
            0
        }
    }

    /// Marks are well formed where there is at least one of them.
    pub open spec fn well_formed(&self) -> bool {
        self.count() >= 1
    }
}

impl Letter {
    /// A letter is well formed where its marks are, if it has any.
    pub open spec fn well_formed(&self) -> bool {
        match self {
            Letter::COpt(c) => c.marks matches Some(m) ==> m.well_formed(),
            Letter::VOpt(_) => true,
        }
    }
}

/// Why a text could not be turned into a sentence tree.
#[derive(Debug, Clone, Copy, PartialEq, Eq)]
pub enum ParseError {
    /// A character that belongs to none of the supported classes, or that
    /// cannot stand where it was found.
    InvalidCharacter(char),
    /// A numeral with a misplaced sign, a second decimal point or no digit.
    MalformedNumber,
    /// Punctuation, which has no glyphs yet.
    UnsupportedConstruct,
}

/// The letter that is the vowel `v`, alone.
pub open spec fn vowel_letter(v: Vowels, double: bool) -> Letter {
    Letter::VOpt(Vowel { v, double })
}

/// The letter that is a consonant without a diacritic.
pub open spec fn consonant_letter(arc: Arc, marks: Option<Marks>) -> Letter {
    Letter::COpt(Consonant { arc, marks, diacritic: None })
}

fn get_v(letter: Vowels, double: bool) -> (l: Letter)
    ensures
        l == vowel_letter(letter, double),
{
    Letter::VOpt(Vowel { v: letter, double })
}

fn get_c(arc: Arc, marks: Option<Marks>) -> (l: Letter)
    ensures
        l == consonant_letter(arc, marks),
{
    let diacritic = None;
    Letter::COpt(Consonant { arc, marks, diacritic })
}

/// The letter spelled by one character, if the character is a letter of
/// the alphabet.
pub open spec fn single(c: char) -> Option<Letter> {
    match c {
        'a' => Some(vowel_letter(Vowels::A, false)),
        'e' => Some(vowel_letter(Vowels::E, false)),
        'i' => Some(vowel_letter(Vowels::I, false)),
        'o' => Some(vowel_letter(Vowels::O, false)),
        'u' => Some(vowel_letter(Vowels::U, false)),
        'b' => Some(consonant_letter(Arc::Big, None)),
        'd' => Some(consonant_letter(Arc::Big, Some(Marks::Dot(3)))),
        'g' => Some(consonant_letter(Arc::Big, Some(Marks::Line(1)))),
        'h' => Some(consonant_letter(Arc::Big, Some(Marks::Line(2)))),
        'f' => Some(consonant_letter(Arc::Big, Some(Marks::Line(3)))),
        'j' => Some(consonant_letter(Arc::Above, None)),
        'k' => Some(consonant_letter(Arc::Above, Some(Marks::Dot(2)))),
        'l' => Some(consonant_letter(Arc::Above, Some(Marks::Dot(3)))),
        'c' => Some(consonant_letter(Arc::Above, Some(Marks::Dot(4)))),
        'n' => Some(consonant_letter(Arc::Above, Some(Marks::Line(1)))),
        'p' => Some(consonant_letter(Arc::Above, Some(Marks::Line(2)))),
        'm' => Some(consonant_letter(Arc::Above, Some(Marks::Line(3)))),
        't' => Some(consonant_letter(Arc::Small, None)),
        'r' => Some(consonant_letter(Arc::Small, Some(Marks::Dot(3)))),
        'v' => Some(consonant_letter(Arc::Small, Some(Marks::Line(1)))),
        'w' => Some(consonant_letter(Arc::Small, Some(Marks::Line(2)))),
        's' => Some(consonant_letter(Arc::Small, Some(Marks::Line(3)))),
        'y' => Some(consonant_letter(Arc::On, Some(Marks::Dot(2)))),
        'z' => Some(consonant_letter(Arc::On, Some(Marks::Dot(3)))),
        'q' => Some(consonant_letter(Arc::On, Some(Marks::Dot(4)))),
        'x' => Some(consonant_letter(Arc::On, Some(Marks::Line(2)))),
        _ => None,
    }
}

/// The letter spelled by two characters together, if they form a digraph.
pub open spec fn digraph(a: char, b: char) -> Option<Letter> {
    match (a, b) {
        ('c', 'h') => Some(consonant_letter(Arc::Big, Some(Marks::Dot(2)))),
        ('n', 'd') => Some(consonant_letter(Arc::Big, Some(Marks::Dot(4)))),
        ('p', 'h') => Some(consonant_letter(Arc::Above, Some(Marks::Dot(1)))),
        ('w', 'h') => Some(consonant_letter(Arc::Small, Some(Marks::Dot(1)))),
        ('s', 'h') => Some(consonant_letter(Arc::Small, Some(Marks::Dot(2)))),
        ('n', 't') => Some(consonant_letter(Arc::Small, Some(Marks::Dot(4)))),
        ('t', 'h') => Some(consonant_letter(Arc::On, None)),
        ('g', 'h') => Some(consonant_letter(Arc::On, Some(Marks::Dot(1)))),
        ('q', 'u') => Some(consonant_letter(Arc::On, Some(Marks::Line(1)))),
        ('n', 'g') => Some(consonant_letter(Arc::On, Some(Marks::Line(3)))),
        ('a', 'a') => Some(vowel_letter(Vowels::A, true)),
        ('e', 'e') => Some(vowel_letter(Vowels::E, true)),
        ('i', 'i') => Some(vowel_letter(Vowels::I, true)),
        ('o', 'o') => Some(vowel_letter(Vowels::O, true)),
        ('u', 'u') => Some(vowel_letter(Vowels::U, true)),
        _ => None,
    }
}

fn single_letter(c: char) -> (l: Option<Letter>)
    ensures
        l == single(c),
{
    match c {
        'a' => Some(get_v(Vowels::A, false)),
        'e' => Some(get_v(Vowels::E, false)),
        'i' => Some(get_v(Vowels::I, false)),
        'o' => Some(get_v(Vowels::O, false)),
        'u' => Some(get_v(Vowels::U, false)),
        'b' => Some(get_c(Arc::Big, None)),
        'd' => Some(get_c(Arc::Big, Some(Marks::Dot(3)))),
        'g' => Some(get_c(Arc::Big, Some(Marks::Line(1)))),
        'h' => Some(get_c(Arc::Big, Some(Marks::Line(2)))),
        'f' => Some(get_c(Arc::Big, Some(Marks::Line(3)))),
        'j' => Some(get_c(Arc::Above, None)),
        'k' => Some(get_c(Arc::Above, Some(Marks::Dot(2)))),
        'l' => Some(get_c(Arc::Above, Some(Marks::Dot(3)))),
        'c' => Some(get_c(Arc::Above, Some(Marks::Dot(4)))),
        'n' => Some(get_c(Arc::Above, Some(Marks::Line(1)))),
        'p' => Some(get_c(Arc::Above, Some(Marks::Line(2)))),
        'm' => Some(get_c(Arc::Above, Some(Marks::Line(3)))),
        't' => Some(get_c(Arc::Small, None)),
        'r' => Some(get_c(Arc::Small, Some(Marks::Dot(3)))),
        'v' => Some(get_c(Arc::Small, Some(Marks::Line(1)))),
        'w' => Some(get_c(Arc::Small, Some(Marks::Line(2)))),
        's' => Some(get_c(Arc::Small, Some(Marks::Line(3)))),
        'y' => Some(get_c(Arc::On, Some(Marks::Dot(2)))),
        'z' => Some(get_c(Arc::On, Some(Marks::Dot(3)))),
        'q' => Some(get_c(Arc::On, Some(Marks::Dot(4)))),
        'x' => Some(get_c(Arc::On, Some(Marks::Line(2)))),
        _ => None,
    }
}

fn digraph_letter(a: char, b: char) -> (l: Option<Letter>)
    ensures
        l == digraph(a, b),
{
    match (a, b) {
        ('c', 'h') => Some(get_c(Arc::Big, Some(Marks::Dot(2)))),
        ('n', 'd') => Some(get_c(Arc::Big, Some(Marks::Dot(4)))),
        ('p', 'h') => Some(get_c(Arc::Above, Some(Marks::Dot(1)))),
        ('w', 'h') => Some(get_c(Arc::Small, Some(Marks::Dot(1)))),
        ('s', 'h') => Some(get_c(Arc::Small, Some(Marks::Dot(2)))),
        ('n', 't') => Some(get_c(Arc::Small, Some(Marks::Dot(4)))),
        ('t', 'h') => Some(get_c(Arc::On, None)),
        ('g', 'h') => Some(get_c(Arc::On, Some(Marks::Dot(1)))),
        ('q', 'u') => Some(get_c(Arc::On, Some(Marks::Line(1)))),
        ('n', 'g') => Some(get_c(Arc::On, Some(Marks::Line(3)))),
        ('a', 'a') => Some(get_v(Vowels::A, true)),
        ('e', 'e') => Some(get_v(Vowels::E, true)),
        ('i', 'i') => Some(get_v(Vowels::I, true)),
        ('o', 'o') => Some(get_v(Vowels::O, true)),
        ('u', 'u') => Some(get_v(Vowels::U, true)),
        _ => None,
    }
}

/// Whether `c` is a letter of the alphabet: a lowercase letter from `a` to `z`.
pub open spec fn is_letter(c: char) -> bool {
    'a' <= c && c <= 'z'
}

/// Whether `k` is the position of the first character of `s` that is no
/// letter of the alphabet.
pub open spec fn first_non_letter(s: Seq<char>, k: int) -> bool {
    &&& 0 <= k < s.len()
    &&& !is_letter(s[k])
    &&& forall|j: int| 0 <= j < k ==> is_letter(#[trigger] s[j])
}

/// The letters that `s` spells from position `i` on, read from left to
/// right: where two characters form a digraph they are one letter, and
/// otherwise a character is a letter by itself.
pub open spec fn letters_from(s: Seq<char>, i: int) -> Seq<Letter>
    decreases s.len() - i,
{
    if i < 0 || i >= s.len() {
        Seq::empty()
    } else if i + 1 < s.len() && digraph(s[i], s[i + 1]) is Some {
        seq![digraph(s[i], s[i + 1])->0] + letters_from(s, i + 2)
    } else if single(s[i]) is Some {
        seq![single(s[i])->0] + letters_from(s, i + 1)
    } else {
        Seq::empty()
    }
}

/// Every letter of the alphabet has a spelling of one character, and
/// nothing else has; a digraph is made of two letters.
pub proof fn lemma_alphabet(a: char, b: char)
    ensures
        single(a) is Some <==> is_letter(a),
        digraph(a, b) is Some ==> is_letter(a) && is_letter(b),
{
}

/// Every letter of the tables is well formed: it has from one to four
/// marks or none, and a consonant of the tables has no diacritic yet.
pub proof fn lemma_alphabet_well_formed(a: char, b: char)
    ensures
        single(a) matches Some(l) ==> l.well_formed() && (l matches Letter::COpt(c)
            ==> c.diacritic is None && (c.marks matches Some(m) ==> m.count() <= 4)),
        digraph(a, b) matches Some(l) ==> l.well_formed() && (l matches Letter::COpt(c)
            ==> c.diacritic is None && (c.marks matches Some(m) ==> m.count() <= 4)),
{
}

/// No two spellings give the same letter: a letter is spelled by one
/// character or by one pair of characters, and by no other.
pub proof fn lemma_spellings_distinct(a: char, b: char, c: char, d: char)
    ensures
        single(a) is Some && single(a) == single(c) ==> a == c,
        digraph(a, b) is Some && digraph(a, b) == digraph(c, d) ==> a == c && b == d,
        single(a) is Some ==> single(a) != digraph(c, d),
{
}

/// Every letter that a text spells is well formed.
pub proof fn lemma_letters_well_formed(s: Seq<char>, i: int, k: int)
    requires
        0 <= i <= s.len(),
        0 <= k < letters_from(s, i).len(),
    ensures
        letters_from(s, i)[k].well_formed(),
    decreases s.len() - i,
{
    if i < s.len() {
        lemma_alphabet_well_formed(s[i], if i + 1 < s.len() { s[i + 1] } else { s[i] });
        if i + 1 < s.len() && digraph(s[i], s[i + 1]) is Some {
            if k > 0 {
                lemma_letters_well_formed(s, i + 2, k - 1);
            }
        } else if single(s[i]) is Some {
            if k > 0 {
                lemma_letters_well_formed(s, i + 1, k - 1);
            }
        }
    }
}

/// Every letter accounts for one character or for two: a text of letters
/// spells at most as many letters as it has characters, and at least half
/// as many.
pub proof fn lemma_letters_count(s: Seq<char>, i: int)
    requires
        0 <= i <= s.len(),
        forall|k: int| i <= k < s.len() ==> is_letter(#[trigger] s[k]),
    ensures
        letters_from(s, i).len() <= s.len() - i <= 2 * letters_from(s, i).len(),
    decreases s.len() - i,
{
    if i < s.len() {
        lemma_alphabet(s[i], s[i]);
        if i + 1 < s.len() && digraph(s[i], s[i + 1]) is Some {
            lemma_letters_count(s, i + 2);
        } else {
            lemma_letters_count(s, i + 1);
        }
    }
}

/// Reads the letters that `chars` spells, digraphs first.
///
/// Fails on the first character that is no letter of the alphabet, and
/// names it.
pub fn chars_to_letters(chars: Vec<char>) -> (r: Result<Vec<Letter>, ParseError>)
    ensures
        match r {
            Ok(letters) => {
                &&& forall|k: int| 0 <= k < chars@.len() ==> is_letter(#[trigger] chars@[k])
                &&& letters@ == letters_from(chars@, 0)
            },
            Err(e) => exists|k: int| #[trigger]
                first_non_letter(chars@, k) && e == ParseError::InvalidCharacter(chars@[k]),
        },
{
    let n = chars.len();
    let mut result: Vec<Letter> = Vec::new();
    let mut i: usize = 0;
    while i < n
        invariant
            n == chars@.len(),
            i <= n,
            forall|k: int| 0 <= k < i ==> is_letter(#[trigger] chars@[k]),
            result@ + letters_from(chars@, i as int) == letters_from(chars@, 0),
        decreases n - i,
    {
        let next = chars[i];
        let ghost before = result@;
        let two = if i + 1 < n {
            digraph_letter(next, chars[i + 1])
        } else {
            None
        };
        proof {
            lemma_alphabet(next, if i + 1 < n { chars@[i + 1] } else { next });
        }
        match two {
            Some(letter) => {
                result.push(letter);
                assert(result@ + letters_from(chars@, i + 2) == before + letters_from(
                    chars@,
                    i as int,
                ));
                i += 2;
            },
            None => match single_letter(next) {
                Some(letter) => {
                    result.push(letter);
                    assert(result@ + letters_from(chars@, i + 1) == before + letters_from(
                        chars@,
                        i as int,
                    ));
                    i += 1;
                },
                None => {
                    assert(first_non_letter(chars@, i as int));
                    return Err(ParseError::InvalidCharacter(next));
                },
            },
        }
    }
    assert(result@ + Seq::<Letter>::empty() == result@);
    Ok(result)
}

/// Whether the letter at `i` of `s` is a consonant without a diacritic that
/// a vowel follows at once.
pub open spec fn claims_next(s: Seq<Letter>, i: int) -> bool {
    &&& 0 <= i && i + 1 < s.len()
    &&& s[i] matches Letter::COpt(c)
    &&& c.diacritic is None
    &&& s[i + 1] is VOpt
}

/// The consonant `c` with the vowel `v` attached as its diacritic.
pub open spec fn attach(c: Consonant, v: Vowel) -> Letter {
    Letter::COpt(Consonant { arc: c.arc, marks: c.marks, diacritic: Some(v) })
}

/// The letters of `s` from position `i` on, after each consonant that has
/// no diacritic has taken the vowel that follows it at once.
pub open spec fn joined_from(s: Seq<Letter>, i: int) -> Seq<Letter>
    decreases s.len() - i,
{
    if i < 0 || i >= s.len() {
        Seq::empty()
    } else if claims_next(s, i) {
        seq![attach(s[i]->COpt_0, s[i + 1]->VOpt_0)] + joined_from(s, i + 2)
    } else {
        seq![s[i]] + joined_from(s, i + 1)
    }
}

/// Attaches to each consonant the vowel that follows it at once, reading
/// from left to right. A consonant that has a diacritic keeps it, and a
/// vowel that was attached is no letter of its own any more.
pub fn join_cv(letters: Vec<Letter>) -> (joined: Vec<Letter>)
    ensures
        joined@ == joined_from(letters@, 0),
{
    let n = letters.len();
    let mut result: Vec<Letter> = Vec::new();
    let mut i: usize = 0;
    while i < n
        invariant
            n == letters@.len(),
            i <= n,
            result@ + joined_from(letters@, i as int) == joined_from(letters@, 0),
        decreases n - i,
    {
        let ghost before = result@;
        let mut step: usize = 1;
        let mut letter = letters[i];
        if let Letter::COpt(c) = letter {
            if c.diacritic.is_none() && i + 1 < n {
                if let Letter::VOpt(v) = letters[i + 1] {
                    letter = Letter::COpt(Consonant { arc: c.arc, marks: c.marks, diacritic: Some(v) });
                    step = 2;
                }
            }
        }
        result.push(letter);
        assert(result@ + joined_from(letters@, i + step) == before + joined_from(
            letters@,
            i as int,
        ));
        i += step;
    }
    assert(result@ + Seq::<Letter>::empty() == result@);
    result
}

/// Joining never adds a letter, and it keeps the first letter's kind: the
/// result begins with a vowel exactly where the letters do.
pub proof fn lemma_joined_head(s: Seq<Letter>, i: int)
    requires
        0 <= i <= s.len(),
    ensures
        joined_from(s, i).len() <= s.len() - i,
        i < s.len() ==> joined_from(s, i).len() > 0 && (joined_from(s, i)[0] is VOpt <==> s[i] is VOpt),
    decreases s.len() - i,
{
    if i < s.len() {
        if claims_next(s, i) {
            lemma_joined_head(s, i + 2);
        } else {
            lemma_joined_head(s, i + 1);
        }
    }
}

/// After joining, no consonant without a diacritic stands before a vowel:
/// every vowel that could be claimed has been.
pub proof fn lemma_joined_settled(s: Seq<Letter>, i: int, k: int)
    requires
        0 <= i <= s.len(),
    ensures
        !claims_next(joined_from(s, i), k),
    decreases s.len() - i,
{
    let joined = joined_from(s, i);
    if i < s.len() && 0 <= k && k + 1 < joined.len() {
        let step = if claims_next(s, i) {
            2int
        } else {
            1int
        };
        let rest = joined_from(s, i + step);
        assert(joined == seq![joined[0]] + rest);
        lemma_joined_head(s, i + step);
        if k == 0 {
            assert(joined[1] == rest[0]);
        } else {
            lemma_joined_settled(s, i + step, k - 1);
            assert(joined[k] == rest[k - 1]);
            assert(joined[k + 1] == rest[k]);
        }
    }
}

/// Where no consonant can claim a vowel, joining changes nothing.
pub proof fn lemma_joined_unclaimed(s: Seq<Letter>, i: int)
    requires
        0 <= i <= s.len(),
        forall|k: int| !claims_next(s, k),
    ensures
        joined_from(s, i) == s.skip(i),
    decreases s.len() - i,
{
    if i < s.len() {
        assert(!claims_next(s, i));
        lemma_joined_unclaimed(s, i + 1);
        assert(seq![s[i]] + s.skip(i + 1) == s.skip(i));
    } else {
        assert(s.skip(i) == Seq::<Letter>::empty());
    }
}

/// Joining keeps the letters well formed: it changes no marks.
pub proof fn lemma_joined_well_formed(s: Seq<Letter>, i: int, k: int)
    requires
        0 <= i <= s.len(),
        forall|j: int| 0 <= j < s.len() ==> (#[trigger] s[j]).well_formed(),
        0 <= k < joined_from(s, i).len(),
    ensures
        joined_from(s, i)[k].well_formed(),
    decreases s.len() - i,
{
    if i < s.len() {
        assert(s[i].well_formed());
        if claims_next(s, i) {
            if k > 0 {
                lemma_joined_well_formed(s, i + 2, k - 1);
            }
        } else {
            if k > 0 {
                lemma_joined_well_formed(s, i + 1, k - 1);
            }
        }
    }
}

/// Joining twice is joining once.
pub proof fn lemma_join_idempotent(s: Seq<Letter>)
    ensures
        joined_from(joined_from(s, 0), 0) == joined_from(s, 0),
{
    let joined = joined_from(s, 0);
    assert forall|k: int| !claims_next(joined, k) by {
        lemma_joined_settled(s, 0, k);
    }
    lemma_joined_unclaimed(joined, 0);
    assert(joined.skip(0) == joined);
}

/// The letters of the word that `s` spells: its letters read digraphs
/// first, then each consonant joined with the vowel that follows it.
pub open spec fn word_letters(s: Seq<char>) -> Seq<Letter> {
    joined_from(letters_from(s, 0), 0)
}

/// The letters of a word are well formed, and none of them is a consonant
/// without a diacritic before a vowel.
pub proof fn lemma_word_well_formed(s: Seq<char>, k: int)
    ensures
        0 <= k < word_letters(s).len() ==> word_letters(s)[k].well_formed(),
        !claims_next(word_letters(s), k),
{
    let letters = letters_from(s, 0);
    lemma_joined_settled(letters, 0, k);
    if 0 <= k < word_letters(s).len() {
        assert forall|j: int| 0 <= j < letters.len() implies (#[trigger] letters[j]).well_formed() by {
            lemma_letters_well_formed(s, 0, j);
        }
        lemma_joined_well_formed(letters, 0, k);
    }
}

/// A word: its letters in reading order.
#[derive(Debug, Clone, PartialEq, Eq)]
pub struct Word(Vec<Letter>);

impl View for Word {
    type V = Seq<Letter>;

    closed spec fn view(&self) -> Seq<Letter> {
        self.0@
    }
}

impl Word {
    /// The letters of the word, in reading order.
    pub fn word(&self) -> (letters: &Vec<Letter>)
        ensures
            letters@ == self@,
    {
        &self.0
    }

    /// The number of glyphs that the word is drawn with: one for each letter.
    pub fn get_num_things(&self) -> (n: usize)
        ensures
            n == self@.len(),
    {
        self.0.len()
    }
}

impl Word {
    /// Reads a word: its letters digraphs first, then each consonant joined
    /// with the vowel that follows it. Fails on the first character that is
    /// no letter of the alphabet, and names it.
    pub fn try_from(chars: Vec<char>) -> (r: Result<Word, ParseError>)
        ensures
            match r {
                Ok(word) => {
                    &&& forall|k: int| 0 <= k < chars@.len() ==> is_letter(#[trigger] chars@[k])
                    &&& word@ == word_letters(chars@)
                },
                Err(e) => exists|k: int| #[trigger]
                    first_non_letter(chars@, k) && e == ParseError::InvalidCharacter(chars@[k]),
            },
    {
        let result = match chars_to_letters(chars) {
            Ok(l) => l,
            Err(e) => return Err(e),
        };
        let result = join_cv(result);
        Ok(Word(result))
    }
}

/// One digit of a numeral, as it is drawn: a ring that holds an inner
/// circle for five and a radial line for each unit above that.
#[derive(Debug, Clone, Copy, PartialEq, Eq)]
pub struct Digit {
    pub has_circle: bool,
    pub num_lines: u8,
    pub follows_dot: bool,
}

/// Whether `c` is a decimal digit.
pub open spec fn is_digit(c: char) -> bool {
    '0' <= c && c <= '9'
}

/// The value of the decimal digit `c`.
pub open spec fn digit_value(c: char) -> int {
    c as int - '0' as int
}

/// The digit that the character `c` stands for, before or after the
/// decimal point.
pub open spec fn digit_of(c: char, follows_dot: bool) -> Digit {
    Digit {
        has_circle: digit_value(c) >= 5,
        num_lines: (digit_value(c) % 5) as u8,
        follows_dot,
    }
}

impl Digit {
    /// The value that the digit is drawn for: five for its circle and one
    /// for each line.
    pub open spec fn value(&self) -> int {
        self.num_lines + if self.has_circle {
            5int
        } else {
            0int
        }
    }

    /// A digit is well formed where it has at most four lines.
    pub open spec fn well_formed(&self) -> bool {
        self.num_lines <= 4
    }
}

/// A digit is drawn with what its value is made of: the inner circle
/// counts five and each line one, and there are at most four lines.
pub proof fn lemma_digit_value(c: char, follows_dot: bool)
    requires
        is_digit(c),
    ensures
        0 <= digit_value(c) <= 9,
        digit_of(c, follows_dot).well_formed(),
        digit_of(c, follows_dot).value() == digit_value(c),
        digit_of(c, follows_dot).has_circle <==> digit_value(c) >= 5,
        digit_of(c, follows_dot).follows_dot == follows_dot,
{
}

impl Digit {
    /// Reads one decimal digit; any other character is refused by name.
    pub fn try_from(char: &char, follows_dot: bool) -> (r: Result<Digit, ParseError>)
        ensures
            r == if is_digit(*char) {
                Ok::<Digit, ParseError>(digit_of(*char, follows_dot))
            } else {
                Err::<Digit, ParseError>(ParseError::InvalidCharacter(*char))
            },
    {
        let c = *char;
        if !('0' <= c && c <= '9') {
            return Err(ParseError::InvalidCharacter(c));
        }
        let val: u32 = c as u32 - '0' as u32;
        let has_circle = val >= 5;
        let num_lines = (val % 5) as u8;
        Ok(Digit { has_circle, num_lines, follows_dot })
    }
}

/// A numeral: its sign, whether it is a whole number, and its digits, the
/// most significant first.
#[derive(Debug, Clone, PartialEq, Eq)]
pub struct Number {
    pub is_positive: bool,
    pub is_whole: bool,
    pub digits: Vec<Digit>,
}

/// What a `Number` holds, with its digits as a sequence.
pub struct NumberView {
    pub is_positive: bool,
    pub is_whole: bool,
    pub digits: Seq<Digit>,
}

impl NumberView {
    /// A numeral is well formed where it has a digit, its digits are well
    /// formed, and they are behind the decimal point from one of them on,
    /// or none of them is where the numeral is whole.
    pub open spec fn well_formed(&self) -> bool {
        &&& self.digits.len() >= 1
        &&& forall|k: int| 0 <= k < self.digits.len() ==> (#[trigger] self.digits[k]).well_formed()
        &&& forall|k: int, l: int|
            0 <= k <= l < self.digits.len() && (#[trigger] self.digits[k]).follows_dot ==> (
            #[trigger] self.digits[l]).follows_dot
        &&& self.is_whole ==> forall|k: int|
            0 <= k < self.digits.len() ==> !(#[trigger] self.digits[k]).follows_dot
    }
}

impl View for Number {
    type V = NumberView;

    open spec fn view(&self) -> NumberView {
        NumberView {
            is_positive: self.is_positive,
            is_whole: self.is_whole,
            digits: self.digits@,
        }
    }
}

/// Whether `s` begins with a minus sign.
pub open spec fn has_sign(s: Seq<char>) -> bool {
    s.len() > 0 && s[0] == '-'
}

/// What follows the sign of the numeral `s`, or all of `s` where it has none.
pub open spec fn number_body(s: Seq<char>) -> Seq<char> {
    if has_sign(s) {
        s.skip(1)
    } else {
        s
    }
}

/// Whether a decimal point stands among the first `i` characters of `b`.
pub open spec fn dot_before(b: Seq<char>, i: int) -> bool {
    exists|j: int| 0 <= j < i && j < b.len() && #[trigger] b[j] == '.'
}

/// Whether the character at `i` may stand there in the body of a numeral:
/// it is a digit, or the first decimal point.
pub open spec fn fits_at(b: Seq<char>, i: int) -> bool {
    is_digit(b[i]) || (b[i] == '.' && !dot_before(b, i))
}

/// Whether `k` is the first position of the body `b` whose character may
/// not stand there.
pub open spec fn first_fault(b: Seq<char>, k: int) -> bool {
    &&& 0 <= k < b.len()
    &&& !fits_at(b, k)
    &&& forall|j: int| 0 <= j < k ==> #[trigger] fits_at(b, j)
}

/// The error for a character that may not stand where it was found in a
/// numeral: a sign or a decimal point is misplaced, anything else is no
/// part of a numeral at all.
pub open spec fn fault_error(c: char) -> ParseError {
    if c == '.' || c == '-' {
        ParseError::MalformedNumber
    } else {
        ParseError::InvalidCharacter(c)
    }
}

/// The digits among the first `i` characters of the body `b`, in order,
/// each with whether a decimal point stands before it.
pub open spec fn digits_upto(b: Seq<char>, i: int) -> Seq<Digit>
    decreases i,
{
    if i <= 0 {
        Seq::empty()
    } else if b[i - 1] == '.' {
        digits_upto(b, i - 1)
    } else {
        digits_upto(b, i - 1).push(digit_of(b[i - 1], dot_before(b, i - 1)))
    }
}

/// What the numeral `s` denotes, or why it is none.
///
/// A numeral is an optional minus sign and then digits, among which one
/// decimal point may stand; it has at least one digit.
pub open spec fn number_of(s: Seq<char>) -> Result<NumberView, ParseError> {
    let b = number_body(s);
    if exists|k: int| first_fault(b, k) {
        Err(fault_error(b[choose|k: int| first_fault(b, k)]))
    } else if digits_upto(b, b.len() as int).len() == 0 {
        Err(ParseError::MalformedNumber)
    } else {
        Ok(
            NumberView {
                is_positive: !has_sign(s),
                is_whole: !dot_before(b, b.len() as int),
                digits: digits_upto(b, b.len() as int),
            },
        )
    }
}

/// The result of reading a numeral, with the number by its view.
pub open spec fn number_result(r: Result<Number, ParseError>) -> Result<NumberView, ParseError> {
    match r {
        Ok(n) => Ok(n@),
        Err(e) => Err(e),
    }
}

/// At most one position is the first fault of a body.
pub proof fn lemma_first_fault_unique(b: Seq<char>, j: int, k: int)
    requires
        first_fault(b, j),
        first_fault(b, k),
    ensures
        j == k,
{
    if j < k {
        assert(fits_at(b, j));
    } else if k < j {
        assert(fits_at(b, k));
    }
}

/// Where every character of the first `i` of a body fits, each of them is
/// a digit but for the decimal point, if there is one.
pub proof fn lemma_digits_count(b: Seq<char>, i: int)
    requires
        0 <= i <= b.len(),
        forall|j: int| 0 <= j < i ==> #[trigger] fits_at(b, j),
    ensures
        digits_upto(b, i).len() + if dot_before(b, i) {
            1int
        } else {
            0int
        } == i,
    decreases i,
{
    if i > 0 {
        lemma_digits_count(b, i - 1);
        assert(fits_at(b, i - 1));
        if b[i - 1] == '.' {
            assert(dot_before(b, i));
        } else if dot_before(b, i) {
            let j = choose|j: int| 0 <= j < i && j < b.len() && #[trigger] b[j] == '.';
            assert(j < i - 1);
            assert(dot_before(b, i - 1));
        }
    }
}

/// The digits of a body whose characters fit are well formed, and they
/// are behind the decimal point from the first on that is.
pub proof fn lemma_digits_well_formed(b: Seq<char>, i: int)
    requires
        0 <= i <= b.len(),
        forall|j: int| 0 <= j < i ==> #[trigger] fits_at(b, j),
    ensures
        forall|k: int|
            0 <= k < digits_upto(b, i).len() ==> (#[trigger] digits_upto(b, i)[k]).well_formed(),
        forall|k: int|
            0 <= k < digits_upto(b, i).len() && (#[trigger] digits_upto(b, i)[k]).follows_dot
                ==> dot_before(b, i),
        forall|k: int, l: int|
            0 <= k <= l < digits_upto(b, i).len() && (#[trigger] digits_upto(b, i)[k]).follows_dot
                ==> (#[trigger] digits_upto(b, i)[l]).follows_dot,
    decreases i,
{
    if i > 0 {
        lemma_digits_well_formed(b, i - 1);
        assert(fits_at(b, i - 1));
        let before = digits_upto(b, i - 1);
        if dot_before(b, i - 1) {
            let j = choose|j: int| 0 <= j < i - 1 && j < b.len() && #[trigger] b[j] == '.';
            assert(0 <= j < i && b[j] == '.');
        }
        if b[i - 1] != '.' {
            lemma_digit_value(b[i - 1], dot_before(b, i - 1));
            let all = digits_upto(b, i);
            assert(all == before.push(digit_of(b[i - 1], dot_before(b, i - 1))));
            assert forall|k: int, l: int|
                0 <= k <= l < all.len() && (#[trigger] all[k]).follows_dot implies (
            #[trigger] all[l]).follows_dot by {
                if l < before.len() {
                    assert(before[k].follows_dot);
                    assert(before[l].follows_dot);
                } else if k < before.len() {
                    assert(before[k].follows_dot);
                }
            }
        }
    }
}

/// A numeral that is read is well formed.
pub proof fn lemma_number_well_formed(s: Seq<char>)
    requires
        number_of(s) is Ok,
    ensures
        number_of(s)->Ok_0.well_formed(),
{
    let b = number_body(s);
    assert forall|j: int| 0 <= j < b.len() implies #[trigger] fits_at(b, j) by {
        if !fits_at(b, j) {
            lemma_has_first_fault(b, j);
        }
    }
    lemma_digits_well_formed(b, b.len() as int);
}

/// A numeral that is read holds a digit, and every character after its
/// sign is one of its digits or its one decimal point. Its digits before
/// the decimal point are marked so, and those after it too.
pub proof fn lemma_number_accounts(s: Seq<char>)
    requires
        number_of(s) is Ok,
    ensures
        number_of(s)->Ok_0.digits.len() >= 1,
        number_of(s)->Ok_0.is_positive <==> !has_sign(s),
        number_of(s)->Ok_0.digits.len() + if number_of(s)->Ok_0.is_whole {
            0int
        } else {
            1int
        } + if number_of(s)->Ok_0.is_positive {
            0int
        } else {
            1int
        } == s.len(),
{
    let b = number_body(s);
    assert forall|j: int| 0 <= j < b.len() implies #[trigger] fits_at(b, j) by {
        if !fits_at(b, j) {
            lemma_has_first_fault(b, j);
        }
    }
    lemma_digits_count(b, b.len() as int);
}

/// Where some character of a body does not fit, one is the first.
pub proof fn lemma_has_first_fault(b: Seq<char>, j: int)
    requires
        0 <= j < b.len(),
        !fits_at(b, j),
    ensures
        exists|k: int| first_fault(b, k) && k <= j,
    decreases j,
{
    if forall|i: int| 0 <= i < j ==> #[trigger] fits_at(b, i) {
        assert(first_fault(b, j));
    } else {
        let i = choose|i: int| 0 <= i < j && !#[trigger] fits_at(b, i);
        lemma_has_first_fault(b, i);
    }
}

/// A text made of digits, decimal points and minus signs alone is a
/// numeral or a malformed one: no character of it is refused by name.
pub proof fn lemma_numeric_faults(s: Seq<char>)
    requires
        forall|k: int| 0 <= k < s.len() ==> is_digit(#[trigger] s[k]) || s[k] == '.' || s[k] == '-',
    ensures
        number_of(s) is Err ==> number_of(s) == Err::<NumberView, ParseError>(
            ParseError::MalformedNumber,
        ),
{
    let b = number_body(s);
    if exists|k: int| first_fault(b, k) {
        let k = choose|k: int| first_fault(b, k);
        if has_sign(s) {
            assert(b[k] == s[k + 1]);
        }
        assert(is_digit(b[k]) || b[k] == '.' || b[k] == '-');
    }
}

impl Number {
    /// Reads a numeral. A leading minus sign makes it negative and a
    /// decimal point makes it fractional; neither is a digit.
    ///
    /// Fails on the first character that may not stand where it is, and
    /// where there is no digit.
    pub fn try_from(chars: Vec<char>) -> (r: Result<Number, ParseError>)
        ensures
            number_result(r) == number_of(chars@),
    {
        let n = chars.len();
        let is_positive = !(n > 0 && chars[0] == '-');
        let start: usize = if is_positive { 0 } else { 1 };
        let ghost b = number_body(chars@);
        let mut digits: Vec<Digit> = Vec::new();
        let mut was_dot = false;
        let mut i: usize = start;
        while i < n
            invariant
                n == chars@.len(),
                start <= i <= n,
                b == number_body(chars@),
                b.len() == n - start,
                forall|j: int| 0 <= j < b.len() ==> b[j] == chars@[j + start],
                forall|j: int| 0 <= j < i - start ==> #[trigger] fits_at(b, j),
                was_dot == dot_before(b, i - start),
                digits@ == digits_upto(b, i - start),
            decreases n - i,
        {
            let d = chars[i];
            let ghost k = i - start;
            assert(b[k] == d);
            if d == '.' {
                if was_dot {
                    proof {
                        assert(first_fault(b, k));
                        lemma_first_fault_unique(b, k, choose|k: int| first_fault(b, k));
                    }
                    return Err(ParseError::MalformedNumber);
                }
                was_dot = true;
            } else {
                match Digit::try_from(&d, was_dot) {
                    Ok(digit) => digits.push(digit),
                    Err(e) => {
                        proof {
                            assert(first_fault(b, k));
                            lemma_first_fault_unique(b, k, choose|k: int| first_fault(b, k));
                        }
                        return Err(
                            if d == '-' {
                                ParseError::MalformedNumber
                            } else {
                                e
                            },
                        );
                    },
                }
                assert(dot_before(b, k + 1) == dot_before(b, k));
            }
            assert(fits_at(b, k));
            i += 1;
        }
        if digits.len() == 0 {
            return Err(ParseError::MalformedNumber);
        }
        Ok(Number { is_positive, is_whole: !was_dot, digits })
    }
}

} // verus!
