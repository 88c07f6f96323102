//! Reading the description of a set of numbers.
//!
//! A description is a list of tokens separated by commas. A token is a
//! decimal number, or two of them joined by `-` for every number from the
//! first to the second. Spaces round a token or round either number of a
//! range do not count, and a token of nothing but spaces is passed over.

use vstd::prelude::*;
use crate::format::{numeral, numeral_chars};
use crate::lex::{contains_char, split, split_on, trim, trimmed, views};
use crate::radix::{lemma_value_prefix, value_of};
use crate::text::{chars_of, string_of};

verus! {

/// Why a description was not understood.
#[derive(Debug, Clone, PartialEq, Eq)]
pub enum ParseError {
    /// The text, a token or one side of a range, is no decimal number that
    /// fits in 64 bits.
    InvalidNumber(String),
    /// The token holds more than one `-`.
    InvalidRangeFormat(String),
    /// The range begins above where it ends.
    InvalidRange(u64, u64),
}

/// A `ParseError` with its text as a sequence of characters.
pub enum ParseErrorView {
    InvalidNumber(Seq<char>),
    InvalidRangeFormat(Seq<char>),
    InvalidRange(u64, u64),
}

impl View for ParseError {
    type V = ParseErrorView;

    open spec fn view(&self) -> ParseErrorView {
        match self {
            ParseError::InvalidNumber(t) => ParseErrorView::InvalidNumber(t@),
            ParseError::InvalidRangeFormat(t) => ParseErrorView::InvalidRangeFormat(t@),
            ParseError::InvalidRange(a, b) => ParseErrorView::InvalidRange(*a, *b),
        }
    }
}

/// The message that tells a user of the error `e`.
pub open spec fn message_of(e: ParseErrorView) -> Seq<char> {
    match e {
        ParseErrorView::InvalidNumber(t) => "Invalid number: "@ + t,
        ParseErrorView::InvalidRangeFormat(t) => "Invalid range format: "@ + t,
        ParseErrorView::InvalidRange(first, last) => "Invalid range: "@ + numeral(first as nat, 10)
            + " > "@ + numeral(last as nat, 10),
    }
}

impl ParseError {
    /// The message that tells a user of this error: what kind it is, then
    /// the text or the two numbers that were refused.
    pub fn message(&self) -> (text: String)
        ensures
            text@ == message_of(self@),
    {
        match self {
            ParseError::InvalidNumber(t) => {
                let mut text = String::from_str("Invalid number: ");
                text.append(t.as_str());
                text
            },
            ParseError::InvalidRangeFormat(t) => {
                let mut text = String::from_str("Invalid range format: ");
                text.append(t.as_str());
                text
            },
            ParseError::InvalidRange(first, last) => {
                let mut text = String::from_str("Invalid range: ");
                text.append(string_of(&numeral_chars(*first, 10)).as_str());
                text.append(" > ");
                text.append(string_of(&numeral_chars(*last, 10)).as_str());
                text
            },
        }
    }
}

/// Whether `c` is one of `0` to `9`.
pub open spec fn is_digit(c: char) -> bool {
    48 <= c as u32 <= 57
}

/// The number that the digit `c` stands for.
pub open spec fn digit_value(c: char) -> u8
    recommends
        is_digit(c),
{
    (c as u32 - 48) as u8
}

/// Whether `t` is written as a decimal number: one digit or more, and
/// nothing else.
pub open spec fn is_number(t: Seq<char>) -> bool {
    &&& t.len() > 0
    &&& forall|i: int| 0 <= i < t.len() ==> is_digit(#[trigger] t[i])
}

/// The number that the decimal digits `t` denote.
pub open spec fn number_value(t: Seq<char>) -> nat
    recommends
        is_number(t),
{
    value_of(t.map_values(|c: char| digit_value(c)), 10)
}

/// The 64-bit number that `t` is, if it is one.
pub open spec fn parse_number(t: Seq<char>) -> Option<u64> {
    if is_number(t) && number_value(t) <= u64::MAX {
        Some(number_value(t) as u64)
    } else {
        None
    }
}

/// The first and the last number that the token `t` stands for. A plain
/// number stands for itself alone.
pub open spec fn token_interval(t: Seq<char>) -> Result<(u64, u64), ParseErrorView> {
    if t.contains('-') {
        let sides = split(t, '-');
        if sides.len() != 2 {
            Err(ParseErrorView::InvalidRangeFormat(t))
        } else {
            match parse_number(trim(sides[0])) {
                None => Err(ParseErrorView::InvalidNumber(sides[0])),
                Some(first) => match parse_number(trim(sides[1])) {
                    None => Err(ParseErrorView::InvalidNumber(sides[1])),
                    Some(last) => if first > last {
                        Err(ParseErrorView::InvalidRange(first, last))
                    } else {
                        Ok((first, last))
                    },
                },
            }
        }
    } else {
        match parse_number(t) {
            None => Err(ParseErrorView::InvalidNumber(t)),
            Some(n) => Ok((n, n)),
        }
    }
}

/// The numbers from `first` to `last`, both included, in rising order.
pub open spec fn range_seq(first: u64, last: u64) -> Seq<u64>
    recommends
        first <= last,
{
    Seq::new((last - first + 1) as nat, |i: int| (first + i) as u64)
}

/// The numbers that the pieces of a description stand for, piece after
/// piece, or the error of the first piece that is wrong.
pub open spec fn parse_pieces(pieces: Seq<Seq<char>>) -> Result<Seq<u64>, ParseErrorView>
    decreases pieces.len(),
{
    if pieces.len() == 0 {
        Ok(Seq::<u64>::empty())
    } else {
        match parse_pieces(pieces.drop_last()) {
            Err(e) => Err(e),
            Ok(numbers) => {
                let token = trim(pieces.last());
                if token.len() == 0 {
                    Ok(numbers)
                } else {
                    match token_interval(token) {
                        Err(e) => Err(e),
                        Ok((first, last)) => Ok(numbers + range_seq(first, last)),
                    }
                }
            },
        }
    }
}

/// The numbers that the description `text` stands for, in the order in
/// which it names them and as often as it names them, or the error of its
/// first wrong token.
pub open spec fn parsed(text: Seq<char>) -> Result<Seq<u64>, ParseErrorView> {
    parse_pieces(split(text, ','))
}

/// What a call of `parse_range_set` gave, in the terms of `parsed`.
pub open spec fn outcome(r: Result<Vec<u64>, ParseError>) -> Result<Seq<u64>, ParseErrorView> {
    match r {
        Ok(numbers) => Ok(numbers@),
        Err(e) => Err(e@),
    }
}

/// What a call of `parse_token` gave, in the terms of `token_interval`.
pub open spec fn interval_outcome(r: Result<(u64, u64), ParseError>) -> Result<
    (u64, u64),
    ParseErrorView,
> {
    match r {
        Ok(bounds) => Ok(bounds),
        Err(e) => Err(e@),
    }
}

/// A range holds one number for each from its first to its last, each
/// greater by one than the number before it.
pub proof fn lemma_range_rises(first: u64, last: u64)
    requires
        first <= last,
    ensures
        range_seq(first, last).len() == last - first + 1,
        range_seq(first, last).first() == first,
        range_seq(first, last).last() == last,
        forall|i: int|
            0 <= i < range_seq(first, last).len() ==> #[trigger] range_seq(first, last)[i]
                == first + i,
{
}

/// An error among the first pieces is the error of the whole.
pub proof fn lemma_first_error_stays(pieces: Seq<Seq<char>>, k: int)
    requires
        0 <= k <= pieces.len(),
        parse_pieces(pieces.take(k)) is Err,
    ensures
        parse_pieces(pieces) == parse_pieces(pieces.take(k)),
    decreases pieces.len() - k,
{
    if k == pieces.len() {
        assert(pieces.take(k) =~= pieces);
    } else {
        assert(pieces.take(k + 1).drop_last() =~= pieces.take(k));
        lemma_first_error_stays(pieces, k + 1);
    }
}

/// The 64-bit number that `t` is, if it is one.
pub fn parse_u64(t: &Vec<char>) -> (r: Option<u64>)
    ensures
        r == parse_number(t@),
{
    if t.len() == 0 {
        return None;
    }
    let ghost ds = t@.map_values(|c: char| digit_value(c));
    let mut acc: u64 = 0;
    let mut i: usize = 0;
    assert(ds.take(0) =~= Seq::<u8>::empty());
    while i < t.len()
        invariant
            i <= t.len(),
            ds == t@.map_values(|c: char| digit_value(c)),
            forall|k: int| 0 <= k < i ==> is_digit(#[trigger] t@[k]),
            acc == value_of(ds.take(i as int), 10),
        decreases t.len() - i,
    {
        let u: u32 = t[i] as u32;
        if u < 48 || u > 57 {
            assert(!is_digit(t@[i as int]));
            return None;
        }
        let d: u64 = (u - 48) as u64;
        proof {
            assert(ds.take(i + 1).drop_last() =~= ds.take(i as int));
            assert(ds.take(i + 1).last() == digit_value(t@[i as int]));
            assert(value_of(ds.take(i + 1), 10) == acc * 10 + d);
            lemma_value_prefix(ds, i + 1, 10);
        }
        match acc.checked_mul(10) {
            None => {
                return None;
            },
            Some(shifted) => match shifted.checked_add(d) {
                None => {
                    return None;
                },
                Some(next) => {
                    acc = next;
                },
            },
        }
        i += 1;
    }
    assert(ds.take(t.len() as int) =~= ds);
    Some(acc)
}

/// The first and the last number that the token `t` stands for.
pub fn parse_token(t: &Vec<char>) -> (r: Result<(u64, u64), ParseError>)
    ensures
        interval_outcome(r) == token_interval(t@),
{
    if contains_char(t, '-') {
        let sides = split_on(t, '-');
        if sides.len() != 2 {
            return Err(ParseError::InvalidRangeFormat(string_of(t)));
        }
        assert(views(sides@)[0] == sides@[0]@);
        assert(views(sides@)[1] == sides@[1]@);
        let first = match parse_u64(&trimmed(&sides[0])) {
            None => {
                return Err(ParseError::InvalidNumber(string_of(&sides[0])));
            },
            Some(n) => n,
        };
        let last = match parse_u64(&trimmed(&sides[1])) {
            None => {
                return Err(ParseError::InvalidNumber(string_of(&sides[1])));
            },
            Some(n) => n,
        };
        if first > last {
            return Err(ParseError::InvalidRange(first, last));
        }
        Ok((first, last))
    } else {
        match parse_u64(t) {
            None => Err(ParseError::InvalidNumber(string_of(t))),
            Some(n) => Ok((n, n)),
        }
    }
}

/// Puts the numbers from `first` to `last` behind those that `out` holds.
pub fn append_range(out: &mut Vec<u64>, first: u64, last: u64)
    requires
        first <= last,
    ensures
        final(out)@ == old(out)@ + range_seq(first, last),
{
    let ghost before = out@;
    out.push(first);
    let mut n: u64 = first;
    assert(out@ =~= before + range_seq(first, n));
    while n < last
        invariant
            first <= n <= last,
            out@ == before + range_seq(first, n),
        decreases last - n,
    {
        n += 1;
        out.push(n);
        assert(out@ =~= before + range_seq(first, n));
    }
}

/// Reads the description `text` into the numbers it stands for.
///
/// The tokens are read in order. Each number is given as often as the
/// description names it, ranges in rising order. The first wrong token
/// decides the error. A description without a token gives no numbers and no
/// error.
pub fn parse_range_set(text: &str) -> (r: Result<Vec<u64>, ParseError>)
    ensures
        outcome(r) == parsed(text@),
{
    let chars = chars_of(text);
    let pieces = split_on(&chars, ',');
    let mut numbers: Vec<u64> = Vec::new();
    let mut i: usize = 0;
    assert(views(pieces@).take(0) =~= Seq::<Seq<char>>::empty());
    while i < pieces.len()
        invariant
            i <= pieces.len(),
            views(pieces@) == split(text@, ','),
            parse_pieces(views(pieces@).take(i as int)) == Ok::<Seq<u64>, ParseErrorView>(
                numbers@,
            ),
        decreases pieces.len() - i,
    {
        let token = trimmed(&pieces[i]);
        proof {
            let ghost upto = views(pieces@).take(i + 1);
            assert(upto.drop_last() =~= views(pieces@).take(i as int));
            assert(upto.last() == pieces@[i as int]@);
        }
        if token.len() > 0 {
            match parse_token(&token) {
                Err(e) => {
                    proof {
                        lemma_first_error_stays(views(pieces@), i + 1);
                    }
                    return Err(e);
                },
                Ok((first, last)) => {
                    append_range(&mut numbers, first, last);
                },
            }
        }
        i += 1;
    }
    assert(views(pieces@).take(pieces.len() as int) =~= views(pieces@));
    Ok(numbers)
}

} // verus!
