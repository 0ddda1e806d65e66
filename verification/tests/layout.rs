use gallifreyan::draw_number::{get_centre, number_centre, number_rings, CentreGlyph, Ring};
use gallifreyan::draw_sentence::{get_packing, placements, Packing};
use gallifreyan::draw_word::{
    connector_is_large, plan_marks, sector, word_sectors, MarkPlan, Seat, Sector, Stem,
};
use gallifreyan::sentence::{Sentence, WordTypes};
use gallifreyan::shape::{direction_class, direction_class_with, Angle, LayoutError, Thickness};
use gallifreyan::tree::{Arc, Marks, Number, Vowels};

fn angle(num: i128, den: u128) -> Angle {
    Angle { num, den }
}

#[test]
fn stroke_widths_double() {
    assert_eq!(Thickness::Thin.hundredths(), 1);
    assert_eq!(Thickness::Normal.hundredths(), 2);
    assert_eq!(Thickness::Thick.hundredths(), 4);
    assert_eq!(Thickness::ExtraThick.hundredths(), 8);
}

#[test]
fn direction_classes() {
    assert_eq!(direction_class(true), "clockwise_number");
    assert_eq!(direction_class(false), "anti_clockwise_number");
    assert_eq!(direction_class_with(true, "digit"), "clockwise_number digit");
    assert_eq!(direction_class_with(false, "digit"), "anti_clockwise_number digit");
    assert_eq!(direction_class_with(false, ""), "anti_clockwise_number ");
}

#[test]
fn first_slot_points_to_the_top() {
    for count in [1usize, 2, 3, 7, 100] {
        let first = Angle::slot(0, count).unwrap();
        assert_eq!(4 * first.num, -(first.den as i128));
    }
}

#[test]
fn slots_are_exact() {
    assert_eq!(Angle::slot(0, 4), Ok(angle(-4, 16)));
    assert_eq!(Angle::slot(1, 4), Ok(angle(0, 16)));
    assert_eq!(Angle::slot(3, 4), Ok(angle(8, 16)));
    assert_eq!(Angle::slot(2, 3), Ok(angle(5, 12)));
    assert_eq!(Angle::slot(5, 3), Ok(angle(17, 12)));
}

#[test]
fn slots_of_a_large_circle_do_not_overflow() {
    let last = Angle::slot(usize::MAX, usize::MAX).unwrap();
    assert_eq!(last.num, 3 * (usize::MAX as i128));
    assert_eq!(last.den, 4 * (usize::MAX as u128));
}

#[test]
fn circle_without_steps_is_degenerate() {
    assert_eq!(Angle::slot(0, 0), Err(LayoutError::DivisionDegenerate));
    assert_eq!(Angle::slot(5, 0), Err(LayoutError::DivisionDegenerate));
    assert_eq!(sector(0, 0), Err(LayoutError::DivisionDegenerate));
}

#[test]
fn single_letter_has_half_the_circle() {
    assert_eq!(
        sector(0, 1),
        Ok(Sector { start: angle(-2, 4), middle: angle(-1, 4), end: angle(0, 4) })
    );
    assert!(connector_is_large(1));
}

#[test]
fn sectors_of_three_letters() {
    let sectors = word_sectors(3);
    assert_eq!(
        sectors,
        vec![
            Sector { start: angle(-4, 12), middle: angle(-3, 12), end: angle(-2, 12) },
            Sector { start: angle(0, 12), middle: angle(1, 12), end: angle(2, 12) },
            Sector { start: angle(4, 12), middle: angle(5, 12), end: angle(6, 12) },
        ]
    );
    assert!(!connector_is_large(3));
}

#[test]
fn sectors_cover_half_the_circle_evenly() {
    for count in 1usize..=12 {
        let sectors = word_sectors(count);
        assert_eq!(sectors.len(), count);
        let turn = 4 * count as i128;
        let mut covered = 0;
        for (i, s) in sectors.iter().enumerate() {
            assert_eq!(s.start.den as i128, turn);
            assert_eq!(s.middle.den as i128, turn);
            assert_eq!(s.end.den as i128, turn);
            assert_eq!(s.end.num - s.start.num, 2);
            assert_eq!(2 * s.middle.num, s.start.num + s.end.num);
            assert_eq!(sector(i, count), Ok(*s));
            let next = if i + 1 < count { sectors[i + 1].start.num } else { sectors[0].start.num + turn };
            assert_eq!(next - s.end.num, 2);
            covered += s.end.num - s.start.num;
        }
        assert_eq!(2 * covered, turn);
        assert_eq!(4 * sectors[0].middle.num, -turn);
    }
}

#[test]
fn word_without_letters_has_no_sectors() {
    assert!(word_sectors(0).is_empty());
    assert!(!connector_is_large(0));
    assert!(!connector_is_large(2));
}

#[test]
fn vowel_glyph_seats() {
    assert_eq!(Vowels::A.seat(), Seat::Outer);
    assert_eq!(Vowels::E.seat(), Seat::Middle);
    assert_eq!(Vowels::I.seat(), Seat::Middle);
    assert_eq!(Vowels::U.seat(), Seat::Middle);
    assert_eq!(Vowels::O.seat(), Seat::Inner);
}

#[test]
fn vowel_glyph_stems() {
    assert_eq!(Vowels::I.stem(), Stem::Inward);
    assert_eq!(Vowels::U.stem(), Stem::Outward);
    assert_eq!(Vowels::A.stem(), Stem::Bare);
    assert_eq!(Vowels::E.stem(), Stem::Bare);
    assert_eq!(Vowels::O.stem(), Stem::Bare);
}

#[test]
fn consonants_that_keep_the_word_line() {
    assert!(Arc::Above.keeps_word_line());
    assert!(Arc::On.keeps_word_line());
    assert!(!Arc::Big.keeps_word_line());
    assert!(!Arc::Small.keeps_word_line());
}

#[test]
fn marks_get_one_gap_more_than_they_are() {
    assert_eq!(plan_marks(&Marks::Dot(3), false), MarkPlan { is_line: false, count: 3, gaps: 4 });
    assert_eq!(plan_marks(&Marks::Line(2), false), MarkPlan { is_line: true, count: 2, gaps: 3 });
    assert_eq!(plan_marks(&Marks::Line(1), false), MarkPlan { is_line: true, count: 1, gaps: 2 });
    assert_eq!(plan_marks(&Marks::Dot(4), true), MarkPlan { is_line: false, count: 4, gaps: 5 });
}

#[test]
fn odd_marks_step_aside_for_the_centre() {
    assert_eq!(plan_marks(&Marks::Dot(1), true), MarkPlan { is_line: false, count: 1, gaps: 3 });
    assert_eq!(plan_marks(&Marks::Dot(3), true), MarkPlan { is_line: false, count: 3, gaps: 5 });
    assert_eq!(plan_marks(&Marks::Line(3), true), MarkPlan { is_line: true, count: 3, gaps: 5 });
}

#[test]
fn no_mark_on_a_kept_centre() {
    for n in 0..=9 {
        for marks in [Marks::Dot(n), Marks::Line(n)] {
            let plan = plan_marks(&marks, true);
            assert_eq!(plan.count, n as u32);
            for k in 1..=plan.count {
                assert!(k < plan.gaps);
                assert_ne!(2 * k, plan.gaps);
            }
            let free = plan_marks(&marks, false);
            assert_eq!(free.gaps, free.count + 1);
        }
    }
}

#[test]
fn marks_that_are_not_positive_are_none() {
    assert_eq!(plan_marks(&Marks::Dot(0), true), MarkPlan { is_line: false, count: 0, gaps: 1 });
    assert_eq!(plan_marks(&Marks::Line(-2), false), MarkPlan { is_line: true, count: 0, gaps: 1 });
    assert_eq!(
        plan_marks(&Marks::Dot(i32::MIN), true),
        MarkPlan { is_line: false, count: 0, gaps: 1 }
    );
}

#[test]
fn greatest_number_of_marks_is_planned() {
    assert_eq!(
        plan_marks(&Marks::Dot(i32::MAX), true),
        MarkPlan { is_line: false, count: 2147483647, gaps: 2147483649 }
    );
}

#[test]
fn rings_of_a_fraction() {
    let number = Number::try_from("12.5".chars().collect()).unwrap();
    assert_eq!(
        number_rings(&number),
        vec![
            Ring {
                rank: 3,
                stroke: Thickness::Normal,
                has_circle: false,
                lines: 1,
                divisions: 1,
                is_clockwise: false,
            },
            Ring {
                rank: 2,
                stroke: Thickness::Normal,
                has_circle: false,
                lines: 2,
                divisions: 2,
                is_clockwise: true,
            },
            Ring {
                rank: 1,
                stroke: Thickness::ExtraThick,
                has_circle: true,
                lines: 0,
                divisions: 1,
                is_clockwise: false,
            },
        ]
    );
    assert_eq!(
        number_centre(&number),
        CentreGlyph { stroke: Some(Thickness::Thin), has_line: false, is_clockwise: true }
    );
}

#[test]
fn ring_of_zero_has_no_ornaments() {
    let number = Number::try_from("0".chars().collect()).unwrap();
    assert_eq!(
        number_rings(&number),
        vec![Ring {
            rank: 1,
            stroke: Thickness::Normal,
            has_circle: false,
            lines: 0,
            divisions: 0,
            is_clockwise: false,
        }]
    );
}

#[test]
fn ring_of_nine_has_five_ornaments() {
    let number = Number::try_from("-9".chars().collect()).unwrap();
    let rings = number_rings(&number);
    assert_eq!(rings.len(), 1);
    assert!(rings[0].has_circle);
    assert_eq!(rings[0].lines, 4);
    assert_eq!(rings[0].divisions, 5);
    assert_eq!(
        number_centre(&number),
        CentreGlyph { stroke: Some(Thickness::Normal), has_line: true, is_clockwise: true }
    );
}

#[test]
fn rings_nest_and_alternate() {
    let number = Number::try_from("31415.92".chars().collect()).unwrap();
    let rings = number_rings(&number);
    let d = number.digits.len();
    assert_eq!(rings.len(), d);
    assert_eq!(rings[0].rank + 1, d + 1);
    assert_eq!(rings[d - 1].rank, 1);
    for i in 0..d {
        assert_eq!(rings[i].rank, d - i);
        assert_eq!(rings[i].is_clockwise, i % 2 == 1);
        assert_eq!(rings[i].divisions, rings[i].lines as u16 + rings[i].has_circle as u16);
        assert_eq!(rings[i].stroke == Thickness::ExtraThick, number.digits[i].follows_dot);
    }
    assert_eq!(number_centre(&number).is_clockwise, d % 2 == 1);
}

#[test]
fn rings_take_any_digit() {
    let number = Number {
        is_positive: true,
        is_whole: true,
        digits: vec![gallifreyan::tree::Digit { has_circle: true, num_lines: 255, follows_dot: false }],
    };
    let rings = number_rings(&number);
    assert_eq!(rings[0].divisions, 256);
}

#[test]
fn centre_glyphs() {
    assert_eq!(
        get_centre(&true, &true, false),
        CentreGlyph { stroke: None, has_line: false, is_clockwise: false }
    );
    assert_eq!(
        get_centre(&true, &false, true),
        CentreGlyph { stroke: Some(Thickness::Normal), has_line: true, is_clockwise: true }
    );
    assert_eq!(
        get_centre(&false, &true, false),
        CentreGlyph { stroke: Some(Thickness::Thin), has_line: false, is_clockwise: false }
    );
    assert_eq!(
        get_centre(&false, &false, true),
        CentreGlyph { stroke: Some(Thickness::Thin), has_line: true, is_clockwise: true }
    );
}

#[test]
fn packing_by_number_of_tokens() {
    assert_eq!(get_packing(0), Packing::Centre);
    assert_eq!(get_packing(1), Packing::Centre);
    assert_eq!(get_packing(2), Packing::Pair);
    assert_eq!(get_packing(3), Packing::Ring);
    assert_eq!(get_packing(usize::MAX), Packing::Ring);
}

#[test]
fn tokens_stand_at_equal_steps() {
    let sentence = Sentence::try_from("a 12 c".chars().collect()).unwrap();
    assert_eq!(
        placements(&sentence),
        vec![Some(angle(-3, 12)), Some(angle(1, 12)), Some(angle(5, 12))]
    );
}

#[test]
fn single_token_stands_at_the_top() {
    let sentence = Sentence::try_from("a".chars().collect()).unwrap();
    assert_eq!(placements(&sentence), vec![Some(angle(-1, 4))]);
}

#[test]
fn punctuation_takes_no_place() {
    let a = Sentence::try_from("a".chars().collect()).unwrap().words.remove(0);
    let b = Sentence::try_from("7".chars().collect()).unwrap().words.remove(0);
    let sentence = Sentence {
        words: vec![WordTypes::Punctuation, a, WordTypes::Punctuation, b, WordTypes::Punctuation],
    };
    assert_eq!(
        placements(&sentence),
        vec![None, Some(angle(-2, 8)), None, Some(angle(2, 8)), None]
    );
    let sentence = Sentence { words: vec![WordTypes::Punctuation] };
    assert_eq!(placements(&sentence), vec![None]);
}

#[test]
fn empty_sentence_has_no_places() {
    let sentence = Sentence::try_from(Vec::new()).unwrap();
    assert!(placements(&sentence).is_empty());
}
