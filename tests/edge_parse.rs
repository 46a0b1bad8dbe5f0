use fla::coord::Coord;
use fla::natural::Natural;
use fla::edge::{EdgeDefinition, EdgeDefinitionCommand, EdgeDefinitionLexer, FromStrError, SelectionMask};

const EDGE_DEF_1: &str = "!280 250S2[280 263 272 272!272 272[263 280 250 280!250 280[238 280 229 272!229 272[220 263 220 250!220 250[220 238 229 229!229 229[238 220 250 220!250 220[263 220 272 229!272 229[280 238 280 250";
const EDGE_DEF_2: &str = "!1904 192[1904 876 1418 1358!1418 1358[936 1844 252 1844!252 1844[-432 1844 -918 1358!-918 1358[-1400 876 -1400 192!-1400 192[-1400 -492 -918 -977!-918 -977[-432 -1460 252 -1460!252 -1460[936 -1460 1418 -977!1418 -977[1904 -492 1904 192";
const EDGE_DEF_3: &str = "!264.5 42[#108.C5 #2A.F8 265 44!265 44[#10D.CE #3B.39 273 71.5";

fn numerator(c: &Coord) -> i128 {
    let mut n: i128 = 0;
    for limb in c.magnitude().limbs().iter().rev() {
        n = n * (1i128 << 32) + *limb as i128;
    }
    if c.is_negative() {
        -n
    } else {
        n
    }
}

fn value(c: &Coord) -> (i128, usize) {
    (numerator(c), c.den())
}

fn as_f64(c: &Coord) -> f64 {
    numerator(c) as f64 / c.den() as f64
}

fn commands(s: &str) -> Vec<EdgeDefinitionCommand> {
    EdgeDefinition::try_from(s).unwrap().commands
}

#[test]
fn parse_edge_def_1() {
    EdgeDefinition::try_from(EDGE_DEF_1).unwrap();
}

#[test]
fn parse_edge_def_2() {
    EdgeDefinition::try_from(EDGE_DEF_2).unwrap();
}

#[test]
fn parse_edge_def_3() {
    EdgeDefinition::try_from(EDGE_DEF_3).unwrap();
}

#[test]
fn edge_def_1_has_one_selection_among_seventeen_commands() {
    let cmds = commands(EDGE_DEF_1);
    assert_eq!(cmds.len(), 17);
    let selections = cmds
        .iter()
        .filter(|c| matches!(c, EdgeDefinitionCommand::Selection(_)))
        .count();
    assert_eq!(selections, 1);
    match &cmds[0] {
        EdgeDefinitionCommand::MoveTo(x, y) => {
            assert_eq!(value(x), (280, 1));
            assert_eq!(value(y), (250, 1));
        }
        other => panic!("unexpected {:?}", other),
    }
}

#[test]
fn fixed_point_literal_is_whole_plus_frac_over_256() {
    let mut lexer = EdgeDefinitionLexer::new("#108.C5");
    let c = lexer.read_numeric().unwrap().unwrap();
    assert_eq!(value(&c), (0x108 * 256 + 0xC5, 256));
    assert_eq!(as_f64(&c), 264.0 + 197.0 / 256.0);
    assert_eq!(as_f64(&c), 264.76953125);
}

#[test]
fn decimal_fraction_is_divided_by_its_digit_count() {
    let mut lexer = EdgeDefinitionLexer::new("250.220");
    let c = lexer.read_numeric().unwrap().unwrap();
    assert_eq!(value(&c), (250 * 3 + 220, 3));
    let v = as_f64(&c);
    assert!((v - (250.0 + 220.0 / 3.0)).abs() < 1e-9);
    assert!((v - 250.22).abs() > 1.0);
}

#[test]
fn negative_decimal_is_negative() {
    let mut lexer = EdgeDefinitionLexer::new("-5.5");
    let c = lexer.read_numeric().unwrap().unwrap();
    assert_eq!(value(&c), (-10, 1));
    let mut lexer = EdgeDefinitionLexer::new(" -432");
    let c = lexer.read_numeric().unwrap().unwrap();
    assert_eq!(value(&c), (-432, 1));
}

#[test]
fn selection_two_is_fill_style_one_only() {
    let cmds = commands("S2");
    assert_eq!(cmds.len(), 1);
    match &cmds[0] {
        EdgeDefinitionCommand::Selection(m) => {
            let m = *m;
            assert_eq!(
                m,
                SelectionMask { fill_style_0: false, fill_style_1: true, stroke: false }
            );
            assert_eq!(m.bits(), 2);
            assert!(m.contains(fla::edge::FILLSTYLE1));
            assert!(!m.contains(fla::edge::STROKE));
        }
        other => panic!("unexpected {:?}", other),
    }
}

#[test]
fn selection_eight_is_an_invalid_mask() {
    assert_eq!(
        EdgeDefinition::try_from("S8").err(),
        Some(FromStrError::UnexpectedSelectionMask(8))
    );
    assert_eq!(
        EdgeDefinition::try_from("!0 0S9").err(),
        Some(FromStrError::UnexpectedSelectionMask(9))
    );
}

#[test]
fn selection_needs_a_digit() {
    assert_eq!(EdgeDefinition::try_from("S").err(), Some(FromStrError::UnexpectedEOF));
    assert_eq!(
        EdgeDefinition::try_from("Sx").err(),
        Some(FromStrError::InvalidCharInNumeric('x'))
    );
}

#[test]
fn each_parse_error_kind() {
    assert_eq!(
        EdgeDefinition::try_from("!a 0").err(),
        Some(FromStrError::InvalidCharInNumeric('a'))
    );
    assert_eq!(EdgeDefinition::try_from("!1").err(), Some(FromStrError::UnexpectedEOF));
    assert_eq!(EdgeDefinition::try_from("|1 2.").err(), Some(FromStrError::UnexpectedEOF));
    assert_eq!(EdgeDefinition::try_from("X1 2").err(), Some(FromStrError::UnknownCommand('X')));
    assert_eq!(
        EdgeDefinition::try_from("!#1x2 0").err(),
        Some(FromStrError::InvalidFixedPointChar)
    );
    assert_eq!(EdgeDefinition::try_from("!#12").err(), Some(FromStrError::UnexpectedEOF));
    assert_eq!(
        EdgeDefinition::try_from("!#100000000.0 0").err(),
        Some(FromStrError::ParseInt)
    );
}

#[test]
fn fixed_point_takes_no_sign() {
    assert_eq!(
        EdgeDefinition::try_from("!-#10.0 0").err(),
        Some(FromStrError::InvalidCharInNumeric('#'))
    );
}

#[test]
fn white_space_between_tokens_is_ignored() {
    let a = commands("!1 2|3 4");
    let b = commands("  ! 1\t2\n| 3  4  ");
    assert_eq!(a.len(), 2);
    assert_eq!(b.len(), 2);
    match (&a[1], &b[1]) {
        (EdgeDefinitionCommand::LineTo(x1, y1), EdgeDefinitionCommand::LineTo(x2, y2)) => {
            assert_eq!(value(x1), value(x2));
            assert_eq!(value(y1), value(y2));
            assert_eq!(value(x1), (3, 1));
        }
        _ => panic!("expected two line commands"),
    }
}

#[test]
fn curve_holds_control_then_end_point() {
    let cmds = commands("]1 2 3 4");
    match &cmds[0] {
        EdgeDefinitionCommand::CurveTo(cx, cy, ex, ey) => {
            assert_eq!(value(cx), (1, 1));
            assert_eq!(value(cy), (2, 1));
            assert_eq!(value(ex), (3, 1));
            assert_eq!(value(ey), (4, 1));
        }
        other => panic!("unexpected {:?}", other),
    }
}

#[test]
fn parsing_twice_gives_equal_commands() {
    let a = commands(EDGE_DEF_3);
    let b = commands(EDGE_DEF_3);
    assert_eq!(format!("{:?}", a), format!("{:?}", b));
    assert_eq!(
        EdgeDefinition::try_from("!1 ?").err(),
        EdgeDefinition::try_from("!1 ?").err()
    );
}

#[test]
fn empty_string_has_no_commands() {
    assert_eq!(commands("").len(), 0);
    assert_eq!(commands("   ").len(), 0);
}

#[test]
fn lexer_steps_and_peeks() {
    let mut lexer = EdgeDefinitionLexer::new("  ab");
    assert_eq!(lexer.peek_char(), Some((0, ' ')));
    assert_eq!(lexer.peek_char_ignore_whitespace(), Some((2, 'a')));
    assert_eq!(lexer.next_char(), Some((2, 'a')));
    assert_eq!(lexer.next_char(), Some((3, 'b')));
    assert_eq!(lexer.next_char(), None);
    assert_eq!(lexer.peek_char(), None);
}

#[test]
fn read_digits_stops_at_the_first_non_digit() {
    let mut lexer = EdgeDefinitionLexer::new(" 1aF.3");
    assert_eq!(lexer.read_digits(16).unwrap(), Some(vec!['1', 'a', 'F']));
    assert_eq!(lexer.peek_char(), Some((4, '.')));
    let mut lexer = EdgeDefinitionLexer::new("1aF");
    assert_eq!(lexer.read_digits(10).unwrap(), Some(vec!['1']));
    let mut lexer = EdgeDefinitionLexer::new("x");
    assert_eq!(lexer.read_digits(10), Err(FromStrError::InvalidCharInNumeric('x')));
    let mut lexer = EdgeDefinitionLexer::new("  ");
    assert_eq!(lexer.read_digits(10), Ok(None));
}

#[test]
fn read_fixed_point_needs_a_hash() {
    let mut lexer = EdgeDefinitionLexer::new("12.5");
    assert_eq!(lexer.read_fixed_point().err(), Some(FromStrError::InvalidFixedPointChar));
    let mut lexer = EdgeDefinitionLexer::new(" #A.80");
    let c = lexer.read_fixed_point().unwrap().unwrap();
    assert_eq!(value(&c), (10 * 256 + 128, 256));
}

#[test]
fn coord_order_compares_values() {
    let a = Coord::new(false, Natural::from_u64(1), 2).unwrap();
    let b = Coord::new(false, Natural::from_u64(2), 4).unwrap();
    let c = Coord::new(false, Natural::from_u64(2), 3).unwrap();
    let d = Coord::new(true, Natural::from_u64(5), 1).unwrap();
    let zero = Coord::new(false, Natural::zero(), 1).unwrap();
    let minus_zero = Coord::new(true, Natural::zero(), 7).unwrap();
    assert!(d.le(&a) && !a.le(&d));
    assert!(zero.le(&minus_zero) && minus_zero.le(&zero));
    assert!(a.le(&b) && b.le(&a));
    assert!(a.le(&c) && !c.le(&a));
    assert!(Coord::new(false, Natural::from_u64(1), 0).is_none());
}

#[test]
fn positions_are_byte_offsets() {
    let mut lexer = EdgeDefinitionLexer::new("é1");
    assert_eq!(lexer.next_char(), Some((0, 'é')));
    assert_eq!(lexer.next_char(), Some((2, '1')));
    assert_eq!(lexer.next_char(), None);

    let mut lexer = EdgeDefinitionLexer::new("\u{3000}x");
    assert_eq!(lexer.peek_char(), Some((0, '\u{3000}')));
    assert_eq!(lexer.peek_char_ignore_whitespace(), Some((3, 'x')));
    assert_eq!(lexer.peek_char(), Some((3, 'x')));

    let mut lexer = EdgeDefinitionLexer::new("\u{3000}12a");
    assert_eq!(lexer.read_digits(10).unwrap(), Some(vec!['1', '2']));
    assert_eq!(lexer.peek_char(), Some((5, 'a')));
}

#[test]
fn unicode_white_space_separates_tokens() {
    let cmds = commands("!1\u{3000}2\u{2028}|3\u{a0}4");
    assert_eq!(cmds.len(), 2);
}

#[test]
fn lex_cmd_stops_at_the_end() {
    let mut lexer = EdgeDefinitionLexer::new(" \u{3000} ");
    assert!(lexer.lex_cmd().unwrap().is_none());
    assert_eq!(lexer.peek_char(), None);
    let mut lexer = EdgeDefinitionLexer::new(" Q1");
    assert_eq!(lexer.lex_cmd().err(), Some(FromStrError::UnknownCommand('Q')));
    assert_eq!(lexer.peek_char(), Some((2, '1')));
}

#[test]
fn decimal_runs_of_any_length_parse() {
    let cmds = commands("|5000000000 0");
    match &cmds[0] {
        EdgeDefinitionCommand::LineTo(x, _) => assert_eq!(value(x), (5_000_000_000, 1)),
        other => panic!("unexpected {:?}", other),
    }
    let mut lexer = EdgeDefinitionLexer::new("99999999999999999999.0000000000000000000001");
    let c = lexer.read_numeric().unwrap().unwrap();
    assert_eq!(value(&c), (99_999_999_999_999_999_999 * 22 + 1, 22));
    let mut lexer = EdgeDefinitionLexer::new("-123456789012345678901234567890");
    let c = lexer.read_numeric().unwrap().unwrap();
    assert_eq!(value(&c), (-123_456_789_012_345_678_901_234_567_890, 1));
}

#[test]
fn naturals_multiply_add_and_compare() {
    let big = Natural::from_u64(u64::MAX).mul_add(u64::MAX, u64::MAX);
    let limbs = big.limbs();
    let mut n: u128 = 0;
    for limb in limbs.iter().rev() {
        n = n * (1u128 << 32) + *limb as u128;
    }
    assert_eq!(n, (u64::MAX as u128) * (u64::MAX as u128) + u64::MAX as u128);
    let sum = big.add(&Natural::from_u64(1));
    assert!(big.le(&sum) && !sum.le(&big));
    assert!(big.le(&big.copy()));
}
