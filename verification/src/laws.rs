//! What holds of reading and writing together.

use vstd::prelude::*;
use crate::base::NumberBase;
use crate::format::{digit_char, formatted, numeral};
use crate::lex::{
    is_space, lemma_split_pieces, lemma_split_without_sep, lemma_trim_unchanged, split, trim,
};
use crate::parse::{
    digit_value, is_digit, is_number, number_value, parse_number, parse_pieces, parsed, range_seq,
    token_interval, ParseErrorView,
};
use crate::radix::{digits, lemma_digits_canonical, lemma_value_of_digits};

verus! {

/// The text of the range from `first` to `last`: the two numbers in
/// decimal with `-` between them.
pub open spec fn range_text(first: u64, last: u64) -> Seq<char> {
    numeral(first as nat, 10).push('-') + numeral(last as nat, 10)
}

/// A number written in decimal is made of digits only, and reads as that
/// number.
pub proof fn lemma_decimal_reads_back(n: u64)
    ensures
        is_number(numeral(n as nat, 10)),
        parse_number(numeral(n as nat, 10)) == Some(n),
        forall|i: int|
            0 <= i < numeral(n as nat, 10).len() ==> is_digit(#[trigger] numeral(n as nat, 10)[i]),
{
    let ds = digits(n as nat, 10);
    let s = numeral(n as nat, 10);
    lemma_digits_canonical(n as nat, 10);
    lemma_value_of_digits(n as nat, 10);
    assert forall|i: int| 0 <= i < s.len() implies is_digit(#[trigger] s[i]) && digit_value(s[i])
        == ds[i] by {
        assert((ds[i] as nat) < 10);
        assert(s[i] == digit_char(ds[i]));
    }
    assert(s.map_values(|c: char| digit_value(c)) =~= ds);
    assert(number_value(s) == n);
}

/// Reading what `format_value` writes in decimal gives the number back,
/// once: every 64-bit number is a valid token for itself alone.
pub proof fn lemma_parse_decimal(n: u64)
    ensures
        parsed(formatted(n, NumberBase::Decimal, false, 0)) == Ok::<Seq<u64>, ParseErrorView>(
            seq![n],
        ),
        forall|pad: bool, width: u32|
            parsed(#[trigger] formatted(n, NumberBase::Decimal, pad, width)) == Ok::<
                Seq<u64>,
                ParseErrorView,
            >(seq![n]),
{
    let s = numeral(n as nat, 10);
    lemma_decimal_reads_back(n);
    assert forall|i: int| 0 <= i < s.len() implies s[i] != ',' && s[i] != '-' && !is_space(
        s[i],
    ) by {
        assert(is_digit(s[i]));
    }
    lemma_split_without_sep(s, ',');
    lemma_trim_unchanged(s);
    assert(!s.contains('-'));
    assert(token_interval(s) == Ok::<(u64, u64), ParseErrorView>((n, n)));
    let pieces = seq![s];
    assert(pieces.drop_last() =~= Seq::<Seq<char>>::empty());
    assert(parse_pieces(pieces.drop_last()) == Ok::<Seq<u64>, ParseErrorView>(Seq::empty()));
    assert(pieces.last() == s);
    assert(Seq::<u64>::empty() + range_seq(n, n) =~= seq![n]);
    assert(parse_pieces(pieces) == Ok::<Seq<u64>, ParseErrorView>(seq![n]));
}

/// Cutting a text that was put together round one separator gives the
/// pieces of its first part, then those of its second.
pub proof fn lemma_split_concat(x: Seq<char>, y: Seq<char>, sep: char)
    ensures
        split(x.push(sep) + y, sep) == split(x, sep) + split(y, sep),
    decreases y.len(),
{
    let whole = x.push(sep) + y;
    if y.len() == 0 {
        assert(whole =~= x.push(sep));
        assert(whole.drop_last() =~= x);
        assert(split(whole, sep) =~= split(x, sep) + split(y, sep));
    } else {
        let shorter = y.drop_last();
        lemma_split_concat(x, shorter, sep);
        lemma_split_pieces(shorter, sep);
        lemma_split_pieces(x, sep);
        assert(whole.drop_last() =~= x.push(sep) + shorter);
        assert(whole.last() == y.last());
        let before = split(x, sep) + split(shorter, sep);
        assert(before.last() == split(shorter, sep).last());
        assert(split(whole, sep) =~= split(x, sep) + split(y, sep));
    }
}

/// A range written as two decimal numbers round a `-` reads as every
/// number from the first to the second in rising order; written with the
/// greater number first, it is refused as an invalid range with its two
/// numbers.
pub proof fn lemma_parse_range(first: u64, last: u64)
    ensures
        first <= last ==> parsed(range_text(first, last)) == Ok::<Seq<u64>, ParseErrorView>(
            range_seq(first, last),
        ),
        first > last ==> parsed(range_text(first, last)) == Err::<Seq<u64>, ParseErrorView>(
            ParseErrorView::InvalidRange(first, last),
        ),
{
    let a = numeral(first as nat, 10);
    let b = numeral(last as nat, 10);
    let t = range_text(first, last);
    lemma_decimal_reads_back(first);
    lemma_decimal_reads_back(last);
    assert forall|i: int| 0 <= i < a.len() implies a[i] != '-' && !is_space(a[i]) by {
        assert(is_digit(a[i]));
    }
    assert forall|i: int| 0 <= i < b.len() implies b[i] != '-' && !is_space(b[i]) by {
        assert(is_digit(b[i]));
    }
    assert forall|i: int| 0 <= i < t.len() implies t[i] != ',' by {
        if i < a.len() {
            assert(t[i] == a[i]);
            assert(is_digit(a[i]));
        } else if i > a.len() {
            assert(t[i] == b[i - a.len() - 1]);
            assert(is_digit(b[i - a.len() - 1]));
        }
    }
    assert(t.first() == a.first());
    assert(t.last() == b.last());
    assert(is_digit(a.first()));
    assert(is_digit(b.last()));
    lemma_split_without_sep(t, ',');
    lemma_trim_unchanged(t);
    assert(t[a.len() as int] == '-');
    assert(t.contains('-'));
    lemma_split_concat(a, b, '-');
    lemma_split_without_sep(a, '-');
    lemma_split_without_sep(b, '-');
    let sides = split(t, '-');
    assert(sides =~= seq![a, b]);
    lemma_trim_unchanged(a);
    lemma_trim_unchanged(b);
    let pieces = seq![t];
    assert(pieces.drop_last() =~= Seq::<Seq<char>>::empty());
    assert(parse_pieces(pieces.drop_last()) == Ok::<Seq<u64>, ParseErrorView>(Seq::empty()));
    assert(pieces.last() == t);
    if first <= last {
        assert(token_interval(t) == Ok::<(u64, u64), ParseErrorView>((first, last)));
        assert(Seq::<u64>::empty() + range_seq(first, last) =~= range_seq(first, last));
    } else {
        assert(token_interval(t) == Err::<(u64, u64), ParseErrorView>(
            ParseErrorView::InvalidRange(first, last),
        ));
    }
}

/// Reading the pieces of two lists one after the other: the numbers of the
/// first list, then those of the second; the first error decides.
pub proof fn lemma_parse_pieces_concat(p: Seq<Seq<char>>, q: Seq<Seq<char>>)
    ensures
        parse_pieces(p + q) == match parse_pieces(p) {
            Err(e) => Err::<Seq<u64>, ParseErrorView>(e),
            Ok(u) => match parse_pieces(q) {
                Err(e) => Err(e),
                Ok(v) => Ok(u + v),
            },
        },
    decreases q.len(),
{
    if q.len() == 0 {
        assert(p + q =~= p);
        if let Ok(u) = parse_pieces(p) {
            assert(u + Seq::<u64>::empty() =~= u);
        }
    } else {
        let shorter = q.drop_last();
        lemma_parse_pieces_concat(p, shorter);
        assert((p + q).drop_last() =~= p + shorter);
        assert((p + q).last() == q.last());
        if let Ok(u) = parse_pieces(p) {
            if let Ok(v) = parse_pieces(shorter) {
                let token = trim(q.last());
                if token.len() > 0 {
                    if let Ok((first, last)) = token_interval(token) {
                        assert((u + v) + range_seq(first, last) =~= u + (v + range_seq(
                            first,
                            last,
                        )));
                    }
                }
            }
        }
    }
}

/// Two descriptions joined by a comma stand for the numbers of the first,
/// then those of the second, each as often as it is named; if either is
/// wrong, the first error decides.
pub proof fn lemma_parse_joined(x: Seq<char>, y: Seq<char>)
    ensures
        parsed(x.push(',') + y) == match parsed(x) {
            Err(e) => Err::<Seq<u64>, ParseErrorView>(e),
            Ok(u) => match parsed(y) {
                Err(e) => Err(e),
                Ok(v) => Ok(u + v),
            },
        },
{
    lemma_split_concat(x, y, ',');
    lemma_parse_pieces_concat(split(x, ','), split(y, ','));
}

/// A description of nothing but spaces and commas stands for no number,
/// and is no error.
pub proof fn lemma_parse_blank(text: Seq<char>)
    requires
        forall|i: int| 0 <= i < text.len() ==> text[i] == ',' || is_space(#[trigger] text[i]),
    ensures
        parsed(text) == Ok::<Seq<u64>, ParseErrorView>(Seq::empty()),
{
    lemma_blank_pieces(text);
    lemma_parse_blank_pieces(split(text, ','));
}

/// Whether every character of every piece is a space.
pub open spec fn all_blank(pieces: Seq<Seq<char>>) -> bool {
    forall|i: int, j: int|
        0 <= i < pieces.len() && 0 <= j < pieces[i].len() ==> is_space(#[trigger] pieces[i][j])
}

/// The pieces of a text of spaces and commas hold spaces only.
proof fn lemma_blank_pieces(text: Seq<char>)
    requires
        forall|i: int| 0 <= i < text.len() ==> text[i] == ',' || is_space(#[trigger] text[i]),
    ensures
        all_blank(split(text, ',')),
    decreases text.len(),
{
    if text.len() > 0 {
        let init = text.drop_last();
        assert forall|i: int| 0 <= i < init.len() implies init[i] == ',' || is_space(
            #[trigger] init[i],
        ) by {
            assert(init[i] == text[i]);
        }
        lemma_blank_pieces(init);
        lemma_split_pieces(init, ',');
        let before = split(init, ',');
        let now = split(text, ',');
        assert(text.last() == text[text.len() - 1]);
        assert forall|i: int, j: int|
            0 <= i < now.len() && 0 <= j < now[i].len() implies is_space(#[trigger] now[i][j]) by {
            if text.last() == ',' {
                if i < before.len() {
                    assert(now[i][j] == before[i][j]);
                }
            } else {
                if i < before.len() - 1 {
                    assert(now[i][j] == before[i][j]);
                } else if j < before.last().len() {
                    assert(now[i][j] == before[i][j]);
                } else {
                    assert(now[i][j] == text.last());
                }
            }
        }
    }
}

/// Pieces of spaces only stand for no number.
proof fn lemma_parse_blank_pieces(pieces: Seq<Seq<char>>)
    requires
        all_blank(pieces),
    ensures
        parse_pieces(pieces) == Ok::<Seq<u64>, ParseErrorView>(Seq::empty()),
    decreases pieces.len(),
{
    if pieces.len() > 0 {
        let init = pieces.drop_last();
        assert(all_blank(init)) by {
            assert forall|i: int, j: int|
                0 <= i < init.len() && 0 <= j < init[i].len() implies is_space(
                #[trigger] init[i][j],
            ) by {
                assert(init[i][j] == pieces[i][j]);
            }
        }
        lemma_parse_blank_pieces(init);
        let piece = pieces.last();
        crate::lex::lemma_trim_bounds(piece);
        if trim(piece).len() > 0 {
            let k = crate::lex::trim_start(piece);
            assert(trim(piece).first() == piece[k]);
            assert(is_space(pieces[pieces.len() - 1][k]));
        }
    }
}

/// Formatting is a function of its four inputs: two renderings of the same
/// value in the same base with the same padding are the same text.
pub proof fn lemma_format_repeatable(
    value: u64,
    base: NumberBase,
    pad: bool,
    pad_width: u32,
    once: Seq<char>,
    again: Seq<char>,
)
    requires
        once == formatted(value, base, pad, pad_width),
        again == formatted(value, base, pad, pad_width),
    ensures
        once == again,
{
}

} // verus!
