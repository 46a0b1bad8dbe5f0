//! The edge language: a compact string of path commands and style selections.
//!
//! | Prefix       | Operands       | Command                      |
//! |--------------|----------------|------------------------------|
//! | `!`          | x y            | move to                      |
//! | `\|` or `/`  | x y            | line to                      |
//! | `[` or `]`   | cx cy ex ey    | quadratic curve to           |
//! | `S`          | one digit 0..7 | selection of fill and stroke |
//!
//! An operand is either a decimal literal `-?D(.F)?`, whose value is
//! `D + F / (number of digits of F)`, or a fixed-point literal `#H.H` in
//! hexadecimal, whose value is `whole + frac / 256`. White space between
//! tokens is ignored.

use crate::coord::{decimal_ratio, fixed_ratio, Coord};
use crate::natural::Natural;
use vstd::prelude::*;

verus! {

/// Which of the two fills and the stroke an edge selects.
#[derive(Clone, Copy, Debug, PartialEq, Eq, Structural)]
pub struct SelectionMask {
    pub fill_style_0: bool,
    pub fill_style_1: bool,
    pub stroke: bool,
}

/// Bit of the fill style on the left of an edge.
pub const FILLSTYLE0: u8 = 1;

/// Bit of the fill style on the right of an edge.
pub const FILLSTYLE1: u8 = 2;

/// Bit of the stroke of an edge.
pub const STROKE: u8 = 4;

impl SelectionMask {
    /// The mask of the bits `bits`, for bits in 0..=7.
    pub open spec fn spec_from_bits(bits: u8) -> SelectionMask {
        SelectionMask {
            fill_style_0: bits % 2 == 1,
            fill_style_1: (bits / 2) % 2 == 1,
            stroke: (bits / 4) % 2 == 1,
        }
    }

    pub open spec fn spec_bits(self) -> u8 {
        ((if self.fill_style_0 { 1u8 } else { 0u8 }) + (if self.fill_style_1 { 2u8 } else { 0u8 })
            + (if self.stroke { 4u8 } else { 0u8 })) as u8
    }

    /// The mask of `bits`, or `None` where a bit other than the three is set.
    pub fn from_bits(bits: u8) -> (r: Option<SelectionMask>)
        ensures
            r is Some <==> bits <= 7,
            r matches Some(m) ==> m == SelectionMask::spec_from_bits(bits) && m.spec_bits()
                == bits,
    {
        if bits <= 7 {
            Some(
                SelectionMask {
                    fill_style_0: bits % 2 == 1,
                    fill_style_1: (bits / 2) % 2 == 1,
                    stroke: (bits / 4) % 2 == 1,
                },
            )
        } else {
            None
        }
    }

    pub fn bits(&self) -> (r: u8)
        ensures
            r == self.spec_bits(),
    {
        (if self.fill_style_0 { 1u8 } else { 0u8 }) + (if self.fill_style_1 { 2u8 } else { 0u8 })
            + (if self.stroke { 4u8 } else { 0u8 })
    }

    /// Whether every bit of `flags` is set in the mask.
    pub fn contains(&self, flags: u8) -> (r: bool)
        requires
            flags <= 7,
        ensures
            r == ((flags % 2 == 1 ==> self.fill_style_0) && ((flags / 2) % 2 == 1
                ==> self.fill_style_1) && ((flags / 4) % 2 == 1 ==> self.stroke)),
    {
        (flags % 2 != 1 || self.fill_style_0) && ((flags / 2) % 2 != 1 || self.fill_style_1) && (
        (flags / 4) % 2 != 1 || self.stroke)
    }
}

/// One command of an edge.
#[derive(Debug)]
pub enum EdgeDefinitionCommand {
    MoveTo(Coord, Coord),
    LineTo(Coord, Coord),
    /// A quadratic curve: control point, then end point.
    CurveTo(Coord, Coord, Coord, Coord),
    Selection(SelectionMask),
}

/// What a command denotes, with each coordinate as a rational
/// (numerator, denominator).
pub enum CommandView {
    MoveTo((int, int), (int, int)),
    LineTo((int, int), (int, int)),
    CurveTo((int, int), (int, int), (int, int), (int, int)),
    Selection(SelectionMask),
}

impl View for EdgeDefinitionCommand {
    type V = CommandView;

    open spec fn view(&self) -> CommandView {
        match self {
            EdgeDefinitionCommand::MoveTo(x, y) => CommandView::MoveTo(x@, y@),
            EdgeDefinitionCommand::LineTo(x, y) => CommandView::LineTo(x@, y@),
            EdgeDefinitionCommand::CurveTo(cx, cy, ex, ey) => CommandView::CurveTo(
                cx@,
                cy@,
                ex@,
                ey@,
            ),
            EdgeDefinitionCommand::Selection(m) => CommandView::Selection(*m),
        }
    }
}

/// The views of a list of commands.
pub open spec fn command_views(cs: Seq<EdgeDefinitionCommand>) -> Seq<CommandView> {
    cs.map_values(|c: EdgeDefinitionCommand| c@)
}

/// Why an edge string could not be parsed.
#[derive(Clone, Copy, Debug, PartialEq, Eq, Structural)]
pub enum FromStrError {
    /// A character where a digit of the literal's base was expected.
    InvalidCharInNumeric(char),
    /// The string ends inside a command.
    UnexpectedEOF,
    /// A selection digit outside 0..=7.
    UnexpectedSelectionMask(u8),
    /// A fixed-point literal without `#` or without its `.`.
    InvalidFixedPointChar,
    /// A command letter that the language does not have.
    UnknownCommand(char),
    /// A hexadecimal digit run of a fixed-point literal whose value does not
    /// fit 32 bits.
    ParseInt,
}

/// Whether `c` has the Unicode White_Space property.
pub open spec fn is_white_space(c: char) -> bool {
    let u = c as u32;
    ||| 9 <= u <= 13
    ||| u == 32
    ||| u == 0x85
    ||| u == 0xA0
    ||| u == 0x1680
    ||| 0x2000 <= u <= 0x200A
    ||| u == 0x2028
    ||| u == 0x2029
    ||| u == 0x202F
    ||| u == 0x205F
    ||| u == 0x3000
}

/// The value of `c` as a digit of base 36, or 36 where it is none.
pub open spec fn digit_value(c: char) -> u32 {
    let u = c as u32;
    if 48 <= u <= 57 {
        (u - 48) as u32
    } else if 97 <= u <= 122 {
        (u - 87) as u32
    } else if 65 <= u <= 90 {
        (u - 55) as u32
    } else {
        36
    }
}

/// Whether `c` is a digit of `base`.
pub open spec fn is_digit(c: char, base: u32) -> bool {
    digit_value(c) < base
}

/// The value of the digit sequence `d` in `base`.
pub open spec fn digits_value(d: Seq<char>, base: int) -> int
    decreases d.len(),
{
    if d.len() == 0 {
        0
    } else {
        digits_value(d.drop_last(), base) * base + digit_value(d.last())
    }
}

/// The first position at or after `p` that holds no white space.
pub open spec fn skip_ws(s: Seq<char>, p: int) -> int
    decreases s.len() - p,
{
    if 0 <= p < s.len() && is_white_space(s[p]) {
        skip_ws(s, p + 1)
    } else {
        p
    }
}

/// The end of the run of digits of `base` that starts at `p`.
pub open spec fn digits_end(s: Seq<char>, p: int, base: u32) -> int
    decreases s.len() - p,
{
    if 0 <= p < s.len() && is_digit(s[p], base) {
        digits_end(s, p + 1, base)
    } else {
        p
    }
}

/// The run of digits that follows position `p` after white space, as its
/// start and end; `None` at the end of the string.
pub open spec fn spec_read_digits(s: Seq<char>, p: int, base: u32) -> Result<
    Option<(int, int)>,
    FromStrError,
> {
    let q = skip_ws(s, p);
    if !(0 <= q < s.len()) {
        Ok(None)
    } else if !is_digit(s[q], base) {
        Err(FromStrError::InvalidCharInNumeric(s[q]))
    } else {
        Ok(Some((q, digits_end(s, q, base))))
    }
}

/// The literal `#W.F` whose `#` stands at `q`, with the position after it.
pub open spec fn spec_fixed_point_at(s: Seq<char>, q: int) -> Result<
    Option<((int, int), int)>,
    FromStrError,
> {
    match spec_read_digits(s, q + 1, 16) {
        Err(e) => Err(e),
        Ok(None) => Err(FromStrError::UnexpectedEOF),
        Ok(Some((a, b))) => if !(b < s.len()) {
            Err(FromStrError::UnexpectedEOF)
        } else if s[b] != '.' {
            Err(FromStrError::InvalidFixedPointChar)
        } else {
            match spec_read_digits(s, b + 1, 16) {
                Err(e) => Err(e),
                Ok(None) => Err(FromStrError::UnexpectedEOF),
                Ok(Some((c, d))) => {
                    let whole = digits_value(s.subrange(a, b), 16);
                    let frac = digits_value(s.subrange(c, d), 16);
                    if whole > u32::MAX || frac > u32::MAX {
                        Err(FromStrError::ParseInt)
                    } else {
                        Ok(Some((fixed_ratio(whole, frac), d)))
                    }
                },
            }
        },
    }
}

/// A fixed-point literal after white space at `p`, with the position after it.
pub open spec fn spec_read_fixed_point(s: Seq<char>, p: int) -> Result<
    Option<((int, int), int)>,
    FromStrError,
> {
    let q = skip_ws(s, p);
    if !(0 <= q < s.len()) {
        Ok(None)
    } else if s[q] != '#' {
        Err(FromStrError::InvalidFixedPointChar)
    } else {
        spec_fixed_point_at(s, q)
    }
}

/// An operand after white space at `p`, with the position after it; `None`
/// at the end of the string.
pub open spec fn spec_read_numeric(s: Seq<char>, p: int) -> Result<
    Option<((int, int), int)>,
    FromStrError,
> {
    let q = skip_ws(s, p);
    if !(0 <= q < s.len()) {
        Ok(None)
    } else if s[q] == '#' {
        spec_fixed_point_at(s, q)
    } else {
        let negative = s[q] == '-';
        match spec_read_digits(s, if negative { q + 1 } else { q }, 10) {
            Err(e) => Err(e),
            Ok(None) => Ok(None),
            Ok(Some((a, b))) => {
                let whole = digits_value(s.subrange(a, b), 10);
                if b < s.len() && s[b] == '.' {
                    match spec_read_digits(s, b + 1, 10) {
                        Err(e) => Err(e),
                        Ok(None) => Err(FromStrError::UnexpectedEOF),
                        Ok(Some((c, d))) => {
                            let frac = digits_value(s.subrange(c, d), 10);
                            Ok(Some((decimal_ratio(negative, whole, frac, d - c), d)))
                        },
                    }
                } else {
                    Ok(Some((decimal_ratio(negative, whole, 0, 1), b)))
                }
            },
        }
    }
}

/// An operand that must be there.
pub open spec fn spec_operand(s: Seq<char>, p: int) -> Result<((int, int), int), FromStrError> {
    match spec_read_numeric(s, p) {
        Err(e) => Err(e),
        Ok(None) => Err(FromStrError::UnexpectedEOF),
        Ok(Some(r)) => Ok(r),
    }
}

/// Two operands from `p`, with the position after them.
pub open spec fn spec_two_operands(s: Seq<char>, p: int) -> Result<((int, int), (int, int), int), FromStrError> {
    match spec_operand(s, p) {
        Err(e) => Err(e),
        Ok((x, after_x)) => match spec_operand(s, after_x) {
            Err(e) => Err(e),
            Ok((y, after_y)) => Ok((x, y, after_y)),
        },
    }
}

/// The command after white space at `p`, with the position after it; `None`
/// at the end of the string.
pub open spec fn spec_lex_cmd(s: Seq<char>, p: int) -> Result<
    Option<(CommandView, int)>,
    FromStrError,
> {
    let q = skip_ws(s, p);
    if !(0 <= q < s.len()) {
        Ok(None)
    } else {
        let c = s[q];
        if c == '!' || c == '|' || c == '/' {
            match spec_two_operands(s, q + 1) {
                Err(e) => Err(e),
                Ok((x, y, r)) => Ok(
                    Some(
                        (
                            if c == '!' {
                                CommandView::MoveTo(x, y)
                            } else {
                                CommandView::LineTo(x, y)
                            },
                            r,
                        ),
                    ),
                ),
            }
        } else if c == '[' || c == ']' {
            match spec_two_operands(s, q + 1) {
                Err(e) => Err(e),
                Ok((x, y, r1)) => match spec_two_operands(s, r1) {
                    Err(e) => Err(e),
                    Ok((ex, ey, r2)) => Ok(
                        Some((CommandView::CurveTo(x, y, ex, ey), r2)),
                    ),
                },
            }
        } else if c == 'S' {
            if !(q + 1 < s.len()) {
                Err(FromStrError::UnexpectedEOF)
            } else if !is_digit(s[q + 1], 10) {
                Err(FromStrError::InvalidCharInNumeric(s[q + 1]))
            } else if digit_value(s[q + 1]) > 7 {
                Err(FromStrError::UnexpectedSelectionMask(digit_value(s[q + 1]) as u8))
            } else {
                Ok(
                    Some(
                        (
                            CommandView::Selection(
                                SelectionMask::spec_from_bits(digit_value(s[q + 1]) as u8),
                            ),
                            q + 2,
                        ),
                    ),
                )
            }
        } else {
            Err(FromStrError::UnknownCommand(c))
        }
    }
}

/// The commands of `s` from position `p` on, or the first error.
pub open spec fn spec_parse_from(s: Seq<char>, p: int) -> Result<
    Seq<CommandView>,
    FromStrError,
>
    decreases s.len() - p,
{
    match spec_lex_cmd(s, p) {
        Err(e) => Err(e),
        Ok(None) => Ok(Seq::empty()),
        Ok(Some((c, q))) => if p < q <= s.len() {
            match spec_parse_from(s, q) {
                Err(e) => Err(e),
                Ok(cs) => Ok(seq![c] + cs),
            }
        } else {
            Err(FromStrError::UnexpectedEOF)
        },
    }
}

/// The commands of the edge string `s`, or the first error.
pub open spec fn parse_edge(s: Seq<char>) -> Result<Seq<CommandView>, FromStrError> {
    spec_parse_from(s, 0)
}

/// Whether `c` has the Unicode White_Space property.
pub fn char_is_white_space(c: char) -> (r: bool)
    ensures
        r == is_white_space(c),
{
    let u = c as u32;
    (9 <= u && u <= 13) || u == 32 || u == 0x85 || u == 0xA0 || u == 0x1680 || (0x2000 <= u && u
        <= 0x200A) || u == 0x2028 || u == 0x2029 || u == 0x202F || u == 0x205F || u == 0x3000
}

/// The value of `c` as a digit of base 36, or 36 where it is none.
pub fn char_digit_value(c: char) -> (r: u32)
    ensures
        r == digit_value(c),
        r <= 36,
{
    let u = c as u32;
    if 48 <= u && u <= 57 {
        u - 48
    } else if 97 <= u && u <= 122 {
        u - 87
    } else if 65 <= u && u <= 90 {
        u - 55
    } else {
        36
    }
}

proof fn lemma_skip_ws(s: Seq<char>, p: int)
    requires
        0 <= p <= s.len(),
    ensures
        p <= skip_ws(s, p) <= s.len(),
        skip_ws(s, p) < s.len() ==> !is_white_space(s[skip_ws(s, p)]),
    decreases s.len() - p,
{
    if p < s.len() && is_white_space(s[p]) {
        lemma_skip_ws(s, p + 1);
    }
}

proof fn lemma_digits_end(s: Seq<char>, p: int, base: u32)
    requires
        0 <= p <= s.len(),
    ensures
        p <= digits_end(s, p, base) <= s.len(),
        p < s.len() && is_digit(s[p], base) ==> p < digits_end(s, p, base),
        forall|i: int| p <= i < digits_end(s, p, base) ==> is_digit(#[trigger] s[i], base),
    decreases s.len() - p,
{
    if p < s.len() && is_digit(s[p], base) {
        lemma_digits_end(s, p + 1, base);
    }
}

/// A digit sequence is worth at least as much as any of its prefixes.
proof fn lemma_digits_value_prefix(d: Seq<char>, i: int, base: int)
    requires
        0 <= i <= d.len(),
        base >= 1,
    ensures
        0 <= digits_value(d.take(i), base) <= digits_value(d, base),
    decreases d.len(),
{
    if d.len() > 0 {
        if i == d.len() {
            assert(d.take(i) =~= d);
            lemma_digits_value_prefix(d.drop_last(), i - 1, base);
        } else {
            lemma_digits_value_prefix(d.drop_last(), i, base);
            assert(d.drop_last().take(i) =~= d.take(i));
            lemma_digits_value_prefix(d.drop_last(), d.len() - 1, base);
            assert(d.drop_last().take(d.len() - 1) =~= d.drop_last());
        }
        let v = digits_value(d.drop_last(), base);
        assert(v * base >= v) by (nonlinear_arith)
            requires
                v >= 0,
                base >= 1,
        ;
    } else {
        assert(d.take(i) =~= d);
    }
}

/// The value of a digit run, or `None` where it does not fit 32 bits.
fn digits_to_u32(d: &Vec<char>, base: u32) -> (r: Option<u32>)
    requires
        2 <= base <= 36,
        forall|i: int| 0 <= i < d@.len() ==> is_digit(#[trigger] d@[i], base),
    ensures
        r is Some <==> digits_value(d@, base as int) <= u32::MAX,
        r matches Some(v) ==> v as int == digits_value(d@, base as int),
{
    let mut acc: u64 = 0;
    let mut i: usize = 0;
    while i < d.len()
        invariant
            2 <= base <= 36,
            0 <= i <= d@.len(),
            acc as int == digits_value(d@.take(i as int), base as int),
            acc <= u32::MAX,
        decreases d@.len() - i,
    {
        let v = char_digit_value(d[i]);
        assert(d@.take(i as int + 1).drop_last() =~= d@.take(i as int));
        assert(acc * (base as u64) + (v as u64) <= 0xFFFF_FFFFu64 * 36 + 36) by (nonlinear_arith)
            requires
                acc <= u32::MAX,
                base <= 36,
                v <= 36,
        ;
        let next: u64 = acc * (base as u64) + (v as u64);
        if next > 0xFFFF_FFFF {
            proof {
                lemma_digits_value_prefix(d@, i as int + 1, base as int);
            }
            return None;
        }
        acc = next;
        i = i + 1;
    }
    assert(d@.take(i as int) =~= d@);
    Some(acc as u32)
}

/// The number of bytes of `c` in UTF-8.
pub open spec fn utf8_len(c: char) -> int {
    let u = c as u32;
    if u < 0x80 {
        1
    } else if u < 0x800 {
        2
    } else if u < 0x10000 {
        3
    } else {
        4
    }
}

/// The byte offset of character `p` of `s` in its UTF-8 encoding: the sum
/// of the lengths of the characters before it.
pub open spec fn byte_offset(s: Seq<char>, p: int) -> int
    decreases p,
{
    if 0 < p <= s.len() {
        byte_offset(s, p - 1) + utf8_len(s[p - 1])
    } else {
        0
    }
}

/// Character `p` of `s` with its byte offset; `None` at or past the end.
pub open spec fn char_at(s: Seq<char>, p: int) -> Option<(int, char)> {
    if 0 <= p < s.len() {
        Some((byte_offset(s, p), s[p]))
    } else {
        None
    }
}

/// `r` is the character with its byte offset that `expected` gives.
pub open spec fn is_char_at(r: Option<(usize, char)>, expected: Option<(int, char)>) -> bool {
    match expected {
        None => r is None,
        Some((i, c)) => r matches Some((j, d)) && j as int == i && d == c,
    }
}

fn char_utf8_len(c: char) -> (r: usize)
    ensures
        r as int == utf8_len(c),
{
    let u = c as u32;
    if u < 0x80 {
        1
    } else if u < 0x800 {
        2
    } else if u < 0x10000 {
        3
    } else {
        4
    }
}

proof fn lemma_byte_offset_mono(s: Seq<char>, p: int, q: int)
    requires
        0 <= p <= q <= s.len(),
    ensures
        byte_offset(s, p) <= byte_offset(s, q),
    decreases q - p,
{
    if p < q {
        lemma_byte_offset_mono(s, p, q - 1);
    }
}

proof fn lemma_byte_offset_drop_first(s: Seq<char>, p: int)
    requires
        1 <= p <= s.len(),
    ensures
        byte_offset(s, p) == utf8_len(s[0]) + byte_offset(s.drop_first(), p - 1),
    decreases p,
{
    let d = s.drop_first();
    if p > 1 {
        lemma_byte_offset_drop_first(s, p - 1);
        assert(d[p - 2] == s[p - 1]);
        assert(byte_offset(d, p - 1) == byte_offset(d, p - 2) + utf8_len(d[p - 2]));
    } else {
        assert(byte_offset(s, 0) == 0);
        assert(byte_offset(d, 0) == 0);
    }
    assert(byte_offset(s, p) == byte_offset(s, p - 1) + utf8_len(s[p - 1]));
}

/// The UTF-8 encoding of `s` is as long as the sum of its characters' lengths.
proof fn lemma_encoded_len(s: Seq<char>)
    ensures
        vstd::utf8::encode_utf8(s).len() == byte_offset(s, s.len() as int),
    decreases s.len(),
{
    if s.len() > 0 {
        lemma_encoded_len(s.drop_first());
        lemma_byte_offset_drop_first(s, s.len() as int);
        vstd::utf8::char_is_scalar(s[0]);
    }
}

/// The value of a digit run, of any size.
fn digits_to_natural(d: &Vec<char>, base: u32) -> (r: Natural)
    requires
        2 <= base <= 36,
        forall|i: int| 0 <= i < d@.len() ==> is_digit(#[trigger] d@[i], base),
    ensures
        r@ == digits_value(d@, base as int),
{
    let mut acc = Natural::zero();
    let mut i: usize = 0;
    assert(d@.take(0) =~= Seq::<char>::empty());
    while i < d.len()
        invariant
            2 <= base <= 36,
            0 <= i <= d@.len(),
            acc@ == digits_value(d@.take(i as int), base as int),
        decreases d@.len() - i,
    {
        let v = char_digit_value(d[i]);
        assert(d@.take(i as int + 1).drop_last() =~= d@.take(i as int));
        acc = acc.mul_add(base as u64, v as u64);
        i = i + 1;
    }
    assert(d@.take(i as int) =~= d@);
    acc
}

/// A lexer over the characters of an edge string.
pub struct EdgeDefinitionLexer {
    chars: Vec<char>,
    cursor: Cursor,
}

/// Where a lexer stands: a character index and its byte offset.
#[derive(Clone, Copy)]
struct Cursor {
    pos: usize,
    offset: usize,
}

impl View for EdgeDefinitionLexer {
    /// The characters, and the position of the next one.
    type V = (Seq<char>, int);

    closed spec fn view(&self) -> (Seq<char>, int) {
        (self.chars@, self.cursor.pos as int)
    }
}

impl EdgeDefinitionLexer {
    #[verifier::type_invariant]
    spec fn inv(self) -> bool {
        &&& self.cursor.pos <= self.chars@.len()
        &&& self.cursor.offset == byte_offset(self.chars@, self.cursor.pos as int)
        &&& byte_offset(self.chars@, self.chars@.len() as int) <= usize::MAX
    }

    /// A lexer at the start of `input`.
    pub fn new(input: &str) -> (r: EdgeDefinitionLexer)
        ensures
            r@ == (input@, 0int),
    {
        let mut chars: Vec<char> = Vec::new();
        for c in it: input.chars()
            invariant
                it.seq() == input@,
                chars@ == it.seq().take(it.index()),
        {
            assert(it.seq().take(it.index() + 1) =~= it.seq().take(it.index()).push(c));
            chars.push(c);
        }
        assert(chars@ =~= input@);
        let bytes = input.as_bytes();
        let _ = bytes.len();
        proof {
            lemma_encoded_len(input@);
        }
        EdgeDefinitionLexer { chars, cursor: Cursor { pos: 0, offset: 0 } }
    }

    /// The next character with its byte offset, and a step past it.
    pub fn next_char(&mut self) -> (r: Option<(usize, char)>)
        ensures
            final(self)@.0 == old(self)@.0,
            final(self)@.1 <= final(self)@.0.len(),
            is_char_at(r, char_at(old(self)@.0, old(self)@.1)),
            old(self)@.1 < old(self)@.0.len() ==> final(self)@.1 == old(self)@.1 + 1,
            old(self)@.1 >= old(self)@.0.len() ==> final(self)@ == old(self)@,
    {
        proof {
            use_type_invariant(&*self);
        }
        if self.cursor.pos < self.chars.len() {
            let c = self.chars[self.cursor.pos];
            let at = self.cursor.offset;
            proof {
                lemma_byte_offset_mono(self.chars@, self.cursor.pos as int + 1, self.chars@.len() as int);
            }
            self.cursor = Cursor { pos: self.cursor.pos + 1, offset: at + char_utf8_len(c) };
            Some((at, c))
        } else {
            None
        }
    }

    /// The next character with its byte offset, without a step.
    pub fn peek_char(&mut self) -> (r: Option<(usize, char)>)
        ensures
            final(self)@ == old(self)@,
            old(self)@.1 <= old(self)@.0.len(),
            is_char_at(r, char_at(old(self)@.0, old(self)@.1)),
    {
        proof {
            use_type_invariant(&*self);
        }
        if self.cursor.pos < self.chars.len() {
            Some((self.cursor.offset, self.chars[self.cursor.pos]))
        } else {
            None
        }
    }

    /// Whether the next character is white space.
    fn at_white_space(&mut self) -> (r: bool)
        ensures
            final(self)@ == old(self)@,
            old(self)@.1 <= old(self)@.0.len(),
            r == (old(self)@.1 < old(self)@.0.len() && is_white_space(old(self)@.0[old(self)@.1])),
    {
        match self.peek_char() {
            Some((_, c)) => char_is_white_space(c),
            None => false,
        }
    }

    /// Whether the next character is a digit of `base`.
    fn at_digit(&mut self, base: u32) -> (r: bool)
        ensures
            final(self)@ == old(self)@,
            old(self)@.1 <= old(self)@.0.len(),
            r == (old(self)@.1 < old(self)@.0.len() && is_digit(old(self)@.0[old(self)@.1], base)),
    {
        match self.peek_char() {
            Some((_, c)) => char_digit_value(c) < base,
            None => false,
        }
    }

    /// Steps over white space, then returns the next character with its byte
    /// offset, without a step past it.
    pub fn peek_char_ignore_whitespace(&mut self) -> (r: Option<(usize, char)>)
        ensures
            final(self)@ == (old(self)@.0, skip_ws(old(self)@.0, old(self)@.1)),
            old(self)@.1 <= final(self)@.1 <= final(self)@.0.len(),
            is_char_at(r, char_at(final(self)@.0, final(self)@.1)),
            final(self)@.1 < final(self)@.0.len() ==> !is_white_space(
                final(self)@.0[final(self)@.1],
            ),
    {
        proof {
            use_type_invariant(&*self);
            lemma_skip_ws(self@.0, self@.1);
        }
        while self.at_white_space()
            invariant
                self@.0 == old(self)@.0,
                old(self)@.1 <= self@.1 <= self@.0.len(),
                skip_ws(self@.0, self@.1) == skip_ws(old(self)@.0, old(self)@.1),
            decreases self@.0.len() - self@.1,
        {
            let _ = self.next_char();
        }
        self.peek_char()
    }

    /// The run of digits of `base` after white space; `None` at the end of
    /// the input, an error where the first character is no such digit.
    pub fn read_digits(&mut self, base: u32) -> (r: Result<Option<Vec<char>>, FromStrError>)
        requires
            2 <= base <= 36,
        ensures
            final(self)@.0 == old(self)@.0,
            old(self)@.1 <= final(self)@.1 <= final(self)@.0.len(),
            !(spec_read_digits(old(self)@.0, old(self)@.1, base) matches Ok(Some(_)))
                ==> final(self)@.1 == skip_ws(old(self)@.0, old(self)@.1),
            match spec_read_digits(old(self)@.0, old(self)@.1, base) {
                Err(e) => r == Err::<Option<Vec<char>>, FromStrError>(e),
                Ok(None) => r matches Ok(None),
                Ok(Some((a, b))) => r matches Ok(Some(d)) && d@ == old(self)@.0.subrange(a, b)
                    && final(self)@.1 == b,
            },
    {
        let (_start_index, start_char) = match self.peek_char_ignore_whitespace() {
            Some(v) => v,
            None => return Ok(None),
        };
        if char_digit_value(start_char) >= base {
            return Err(FromStrError::InvalidCharInNumeric(start_char));
        }
        let ghost q = self@.1;
        proof {
            lemma_digits_end(self@.0, q, base);
        }
        let mut digits: Vec<char> = Vec::new();
        while self.at_digit(base)
            invariant
                self@.0 == old(self)@.0,
                0 <= q <= self@.1 <= self@.0.len(),
                digits@ == self@.0.subrange(q, self@.1),
                digits_end(self@.0, self@.1, base) == digits_end(self@.0, q, base),
            decreases self@.0.len() - self@.1,
        {
            match self.next_char() {
                Some((_, c)) => digits.push(c),
                None => {},
            }
            assert(digits@ =~= self@.0.subrange(q, self@.1));
        }
        Ok(Some(digits))
    }

    /// The literal `#W.F` whose `#` is the next character.
    fn fixed_point_after_hash(&mut self) -> (r: Result<Option<Coord>, FromStrError>)
        requires
            old(self)@.1 < old(self)@.0.len(),
            old(self)@.0[old(self)@.1] == '#',
        ensures
            final(self)@.0 == old(self)@.0,
            old(self)@.1 <= final(self)@.1 <= final(self)@.0.len(),
            match spec_fixed_point_at(old(self)@.0, old(self)@.1) {
                Err(e) => r == Err::<Option<Coord>, FromStrError>(e),
                Ok(None) => r matches Ok(None),
                Ok(Some((v, q))) => r matches Ok(Some(c)) && c@ == v && final(self)@.1 == q,
            },
    {
        let ghost s = self@.0;
        let _ = self.next_char();
        let whole = match self.read_digits(16) {
            Err(e) => return Err(e),
            Ok(None) => return Err(FromStrError::UnexpectedEOF),
            Ok(Some(d)) => d,
        };
        let ghost b = self@.1;
        match self.next_char() {
            None => return Err(FromStrError::UnexpectedEOF),
            Some((_, c)) => {
                if c != '.' {
                    return Err(FromStrError::InvalidFixedPointChar);
                }
            },
        }
        let frac = match self.read_digits(16) {
            Err(e) => return Err(e),
            Ok(None) => return Err(FromStrError::UnexpectedEOF),
            Ok(Some(d)) => d,
        };
        proof {
            let (a, b) = spec_read_digits(s, old(self)@.1 + 1, 16)->Ok_0->Some_0;
            lemma_skip_ws(s, old(self)@.1 + 1);
            lemma_digits_end(s, a, 16);
            assert forall|i: int| 0 <= i < whole@.len() implies is_digit(#[trigger] whole@[i], 16) by {
                assert(whole@[i] == s[a + i]);
            }
            let (c, d) = spec_read_digits(s, b + 1, 16)->Ok_0->Some_0;
            lemma_skip_ws(s, b + 1);
            lemma_digits_end(s, c, 16);
            assert forall|i: int| 0 <= i < frac@.len() implies is_digit(#[trigger] frac@[i], 16) by {
                assert(frac@[i] == s[c + i]);
            }
        }
        let w = match digits_to_u32(&whole, 16) {
            None => return Err(FromStrError::ParseInt),
            Some(v) => v,
        };
        let f = match digits_to_u32(&frac, 16) {
            None => return Err(FromStrError::ParseInt),
            Some(v) => v,
        };
        Ok(Some(Coord::fixed(w, f)))
    }

    /// A fixed-point literal `#W.F` after white space; `None` at the end of
    /// the input.
    pub fn read_fixed_point(&mut self) -> (r: Result<Option<Coord>, FromStrError>)
        ensures
            final(self)@.0 == old(self)@.0,
            old(self)@.1 <= final(self)@.1 <= final(self)@.0.len(),
            match spec_read_fixed_point(old(self)@.0, old(self)@.1) {
                Err(e) => r == Err::<Option<Coord>, FromStrError>(e),
                Ok(None) => r matches Ok(None),
                Ok(Some((v, q))) => r matches Ok(Some(c)) && c@ == v && final(self)@.1 == q,
            },
    {
        let (_, start_char) = match self.peek_char_ignore_whitespace() {
            Some(v) => v,
            None => return Ok(None),
        };
        if start_char != '#' {
            return Err(FromStrError::InvalidFixedPointChar);
        }
        self.fixed_point_after_hash()
    }

    /// An operand after white space, decimal or fixed-point; `None` at the
    /// end of the input.
    pub fn read_numeric(&mut self) -> (r: Result<Option<Coord>, FromStrError>)
        ensures
            final(self)@.0 == old(self)@.0,
            old(self)@.1 <= final(self)@.1 <= final(self)@.0.len(),
            match spec_read_numeric(old(self)@.0, old(self)@.1) {
                Err(e) => r == Err::<Option<Coord>, FromStrError>(e),
                Ok(None) => r matches Ok(None),
                Ok(Some((v, q))) => r matches Ok(Some(c)) && c@ == v && final(self)@.1 == q,
            },
    {
        let ghost s = self@.0;
        let (_, start_char) = match self.peek_char_ignore_whitespace() {
            Some(v) => v,
            None => return Ok(None),
        };
        let ghost q = self@.1;
        if start_char == '#' {
            return self.fixed_point_after_hash();
        }
        let negative = start_char == '-';
        if negative {
            let _ = self.next_char();
        }
        let whole = match self.read_digits(10) {
            Err(e) => return Err(e),
            Ok(None) => return Ok(None),
            Ok(Some(d)) => d,
        };
        let ghost b = self@.1;
        proof {
            let digits_at = if negative { q + 1 } else { q };
            let (a, b) = spec_read_digits(s, digits_at, 10)->Ok_0->Some_0;
            lemma_skip_ws(s, digits_at);
            lemma_digits_end(s, a, 10);
            assert forall|i: int| 0 <= i < whole@.len() implies is_digit(#[trigger] whole@[i], 10) by {
                assert(whole@[i] == s[a + i]);
            }
        }
        let dot = match self.peek_char() {
            Some((_, c)) => c == '.',
            None => false,
        };
        if dot {
            let _ = self.next_char();
            let frac = match self.read_digits(10) {
                Err(e) => return Err(e),
                Ok(None) => return Err(FromStrError::UnexpectedEOF),
                Ok(Some(d)) => d,
            };
            proof {
                let (c, d) = spec_read_digits(s, b + 1, 10)->Ok_0->Some_0;
                lemma_skip_ws(s, b + 1);
                lemma_digits_end(s, c, 10);
                assert forall|i: int| 0 <= i < frac@.len() implies is_digit(#[trigger] frac@[i], 10) by {
                    assert(frac@[i] == s[c + i]);
                }
            }
            let w = digits_to_natural(&whole, 10);
            let f = digits_to_natural(&frac, 10);
            Ok(Some(Coord::decimal(negative, &w, &f, frac.len())))
        } else {
            let w = digits_to_natural(&whole, 10);
            Ok(Some(Coord::decimal(negative, &w, &Natural::zero(), 1)))
        }
    }

    /// An operand that must be there.
    fn operand(&mut self) -> (r: Result<Coord, FromStrError>)
        ensures
            final(self)@.0 == old(self)@.0,
            old(self)@.1 <= final(self)@.1 <= final(self)@.0.len(),
            match spec_operand(old(self)@.0, old(self)@.1) {
                Err(e) => r == Err::<Coord, FromStrError>(e),
                Ok((v, q)) => r matches Ok(c) && c@ == v && final(self)@.1 == q,
            },
    {
        match self.read_numeric() {
            Err(e) => Err(e),
            Ok(None) => Err(FromStrError::UnexpectedEOF),
            Ok(Some(c)) => Ok(c),
        }
    }

    /// The next command; `None` at the end of the input.
    pub fn lex_cmd(&mut self) -> (r: Result<Option<EdgeDefinitionCommand>, FromStrError>)
        ensures
            final(self)@.0 == old(self)@.0,
            old(self)@.1 <= final(self)@.1 <= final(self)@.0.len(),
            match spec_lex_cmd(old(self)@.0, old(self)@.1) {
                Err(e) => r == Err::<Option<EdgeDefinitionCommand>, FromStrError>(e),
                Ok(None) => r matches Ok(None),
                Ok(Some((v, q))) => r matches Ok(Some(c)) && c@ == v && final(self)@.1 == q
                    && old(self)@.1 < q,
            },
            r matches Ok(None) ==> final(self)@.1 == final(self)@.0.len(),
            r is Err ==> skip_ws(old(self)@.0, old(self)@.1) < final(self)@.1,
    {
        let c = match self.peek_char_ignore_whitespace() {
            None => return Ok(None),
            Some((_, c)) => c,
        };
        let _ = self.next_char();
        if c == '!' || c == '|' || c == '/' {
            let x = match self.operand() {
                Err(e) => return Err(e),
                Ok(v) => v,
            };
            let y = match self.operand() {
                Err(e) => return Err(e),
                Ok(v) => v,
            };
            if c == '!' {
                Ok(Some(EdgeDefinitionCommand::MoveTo(x, y)))
            } else {
                Ok(Some(EdgeDefinitionCommand::LineTo(x, y)))
            }
        } else if c == '[' || c == ']' {
            let x = match self.operand() {
                Err(e) => return Err(e),
                Ok(v) => v,
            };
            let y = match self.operand() {
                Err(e) => return Err(e),
                Ok(v) => v,
            };
            let ex = match self.operand() {
                Err(e) => return Err(e),
                Ok(v) => v,
            };
            let ey = match self.operand() {
                Err(e) => return Err(e),
                Ok(v) => v,
            };
            Ok(Some(EdgeDefinitionCommand::CurveTo(x, y, ex, ey)))
        } else if c == 'S' {
            let d = match self.next_char() {
                None => return Err(FromStrError::UnexpectedEOF),
                Some((_, d)) => d,
            };
            let v = char_digit_value(d);
            if v >= 10 {
                return Err(FromStrError::InvalidCharInNumeric(d));
            }
            match SelectionMask::from_bits(v as u8) {
                None => Err(FromStrError::UnexpectedSelectionMask(v as u8)),
                Some(mask) => Ok(Some(EdgeDefinitionCommand::Selection(mask))),
            }
        } else {
            Err(FromStrError::UnknownCommand(c))
        }
    }

    /// All commands up to the end of the input, or the first error.
    pub fn lex_all(&mut self) -> (r: Result<Vec<EdgeDefinitionCommand>, FromStrError>)
        ensures
            match spec_parse_from(old(self)@.0, old(self)@.1) {
                Err(e) => r matches Err(e2) && e2 == e,
                Ok(cs) => r matches Ok(v) && command_views(v@) == cs,
            },
    {
        let ghost s = self@.0;
        let mut ret: Vec<EdgeDefinitionCommand> = Vec::new();
        proof {
            use_type_invariant(&*self);
            assert(command_views(ret@) + Seq::<CommandView>::empty() =~= command_views(ret@));
        }
        loop
            invariant
                self@.0 == s,
                old(self)@.0 == s,
                self@.1 <= s.len(),
                spec_parse_from(s, old(self)@.1) == with_prefix(
                    command_views(ret@),
                    spec_parse_from(s, self@.1),
                ),
            decreases s.len() - self@.1,
        {
            let ghost p = self@.1;
            match self.lex_cmd() {
                Err(e) => return Err(e),
                Ok(None) => {
                    assert(command_views(ret@) + Seq::<CommandView>::empty() =~= command_views(ret@));
                    return Ok(ret);
                },
                Ok(Some(c)) => {
                    let ghost q = self@.1;
                    let ghost before = ret@;
                    let ghost cv = c@;
                    ret.push(c);
                    proof {
                        assert(command_views(ret@) =~= command_views(before).push(cv));
                        match spec_parse_from(s, q) {
                            Ok(cs) => {
                                assert(command_views(before).push(cv) + cs =~= command_views(
                                    before,
                                ) + (seq![cv] + cs));
                            },
                            Err(_) => {},
                        }
                    }
                },
            }
        }
    }
}


proof fn lemma_digit_is_not_space(c: char, base: u32)
    requires
        base <= 36,
        is_digit(c, base),
    ensures
        !is_white_space(c),
        c != '#',
        c != '-',
        c != '.',
{
}

proof fn lemma_digits_end_run(s: Seq<char>, p: int, e: int, base: u32)
    requires
        0 <= p <= e <= s.len(),
        forall|i: int| p <= i < e ==> is_digit(#[trigger] s[i], base),
        e == s.len() || !is_digit(s[e], base),
    ensures
        digits_end(s, p, base) == e,
    decreases e - p,
{
    if p < e {
        lemma_digits_end_run(s, p + 1, e, base);
    }
}

/// A decimal literal `D.F` denotes `D + F / n`, where `n` is the number of
/// digits of `F` (not a power of ten), and is read to its end.
pub proof fn lemma_decimal_literal(d: Seq<char>, f: Seq<char>)
    requires
        d.len() > 0,
        f.len() > 0,
        forall|i: int| 0 <= i < d.len() ==> is_digit(#[trigger] d[i], 10),
        forall|i: int| 0 <= i < f.len() ==> is_digit(#[trigger] f[i], 10),
    ensures
        ({
            let s = d + seq!['.'] + f;
            spec_read_numeric(s, 0) == Ok::<Option<((int, int), int)>, FromStrError>(
                Some(
                    (
                        decimal_ratio(false, digits_value(d, 10), digits_value(f, 10), f.len() as int),
                        s.len() as int,
                    ),
                ),
            )
        }),
{
    let s = d + seq!['.'] + f;
    let b = d.len() as int;
    assert(s[0] == d[0]);
    lemma_digit_is_not_space(s[0], 10);
    assert forall|i: int| 0 <= i < b implies is_digit(#[trigger] s[i], 10) by {
        assert(s[i] == d[i]);
    }
    assert(s[b] == '.');
    lemma_digits_end_run(s, 0, b, 10);
    assert(s.subrange(0, b) =~= d);
    assert(s[b + 1] == f[0]);
    lemma_digit_is_not_space(s[b + 1], 10);
    assert forall|i: int| b + 1 <= i < s.len() implies is_digit(#[trigger] s[i], 10) by {
        assert(s[i] == f[i - b - 1]);
    }
    lemma_digits_end_run(s, b + 1, s.len() as int, 10);
    assert(s.subrange(b + 1, s.len() as int) =~= f);
}

/// A fixed-point literal `#W.F` in hexadecimal denotes `W + F / 256`, and is
/// read to its end.
pub proof fn lemma_fixed_point_literal(w: Seq<char>, f: Seq<char>)
    requires
        w.len() > 0,
        f.len() > 0,
        forall|i: int| 0 <= i < w.len() ==> is_digit(#[trigger] w[i], 16),
        forall|i: int| 0 <= i < f.len() ==> is_digit(#[trigger] f[i], 16),
        digits_value(w, 16) <= u32::MAX,
        digits_value(f, 16) <= u32::MAX,
    ensures
        ({
            let s = seq!['#'] + w + seq!['.'] + f;
            spec_read_numeric(s, 0) == Ok::<Option<((int, int), int)>, FromStrError>(
                Some((fixed_ratio(digits_value(w, 16), digits_value(f, 16)), s.len() as int)),
            )
        }),
{
    let s = seq!['#'] + w + seq!['.'] + f;
    let b = w.len() as int + 1;
    assert(s[0] == '#');
    assert(s[1] == w[0]);
    lemma_digit_is_not_space(s[1], 16);
    assert forall|i: int| 1 <= i < b implies is_digit(#[trigger] s[i], 16) by {
        assert(s[i] == w[i - 1]);
    }
    assert(s[b] == '.');
    lemma_digits_end_run(s, 1, b, 16);
    assert(s.subrange(1, b) =~= w);
    assert(s[b + 1] == f[0]);
    lemma_digit_is_not_space(s[b + 1], 16);
    assert forall|i: int| b + 1 <= i < s.len() implies is_digit(#[trigger] s[i], 16) by {
        assert(s[i] == f[i - b - 1]);
    }
    lemma_digits_end_run(s, b + 1, s.len() as int, 16);
    assert(s.subrange(b + 1, s.len() as int) =~= f);
}

/// `r` with `xs` before its commands.
pub open spec fn with_prefix(
    xs: Seq<CommandView>,
    r: Result<Seq<CommandView>, FromStrError>,
) -> Result<Seq<CommandView>, FromStrError> {
    match r {
        Ok(cs) => Ok(xs + cs),
        Err(e) => Err(e),
    }
}

/// The commands that a parse result holds, or its error.
pub open spec fn parsed_view(r: Result<EdgeDefinition, FromStrError>) -> Result<
    Seq<CommandView>,
    FromStrError,
> {
    match r {
        Ok(d) => Ok(command_views(d.commands@)),
        Err(e) => Err(e),
    }
}

/// Parsing is a function of the characters alone: two parses of the same
/// string give equal command lists, or the same error.
pub proof fn lemma_parse_deterministic(
    a: Seq<char>,
    b: Seq<char>,
    ra: Result<EdgeDefinition, FromStrError>,
    rb: Result<EdgeDefinition, FromStrError>,
)
    requires
        a == b,
        parsed_view(ra) == parse_edge(a),
        parsed_view(rb) == parse_edge(b),
    ensures
        parsed_view(ra) == parsed_view(rb),
        ra is Ok <==> rb is Ok,
{
}

/// The parsed commands of one edge.
pub struct EdgeDefinition {
    pub commands: Vec<EdgeDefinitionCommand>,
}

impl EdgeDefinition {
    /// Parses an edge string, all of it or nothing.
    pub fn try_from(input: &str) -> (r: Result<EdgeDefinition, FromStrError>)
        ensures
            parsed_view(r) == parse_edge(input@),
    {
        let mut lexer = EdgeDefinitionLexer::new(input);
        match lexer.lex_all() {
            Ok(commands) => Ok(EdgeDefinition { commands }),
            Err(e) => Err(e),
        }
    }
}

/// One edge of a shape: its commands and the styles it refers to.
pub struct Edge {
    pub fill_style_1: Option<u64>,
    pub stroke_style: Option<u64>,
    pub edges: Option<EdgeDefinition>,
}

impl Edge {
    /// The edge's commands, as a sequence; empty where it has none.
    pub open spec fn commands(self) -> Seq<CommandView> {
        match self.edges {
            Some(d) => command_views(d.commands@),
            None => Seq::empty(),
        }
    }

    pub fn get_edge_definition_commands(&self) -> (r: Option<&[EdgeDefinitionCommand]>)
        ensures
            r is Some <==> self.edges is Some,
            r matches Some(cs) ==> command_views(cs@) == self.commands(),
    {
        match &self.edges {
            Some(d) => Some(d.commands.as_slice()),
            None => None,
        }
    }
}

} // verus!
