//! The lexical layer of a set description: whitespace, trimming, and
//! cutting a text at a separator.

use vstd::prelude::*;

verus! {

/// Whether `c` is a space in the sense of Unicode's `White_Space` property.
pub open spec fn is_space(c: char) -> bool {
    let u = c as u32;
    ||| 0x09 <= u <= 0x0D
    ||| u == 0x20
    ||| u == 0x85
    ||| u == 0xA0
    ||| u == 0x1680
    ||| 0x2000 <= u <= 0x200A
    ||| u == 0x2028
    ||| u == 0x2029
    ||| u == 0x202F
    ||| u == 0x205F
    ||| u == 0x3000
}

/// The first position at or after `from` that holds no space, or the
/// length of `s` if there is none.
pub open spec fn skip_spaces(s: Seq<char>, from: int) -> int
    decreases s.len() - from,
{
    if from < 0 || from >= s.len() || !is_space(s[from]) {
        from
    } else {
        skip_spaces(s, from + 1)
    }
}

/// The end of the part of `s[lo..upto]` that is left when the spaces at its
/// end are dropped.
pub open spec fn drop_spaces(s: Seq<char>, lo: int, upto: int) -> int
    decreases upto,
{
    if upto <= lo || upto <= 0 || upto > s.len() || !is_space(s[upto - 1]) {
        upto
    } else {
        drop_spaces(s, lo, upto - 1)
    }
}

/// Where the trimmed part of `s` begins.
pub open spec fn trim_start(s: Seq<char>) -> int {
    skip_spaces(s, 0)
}

/// Where the trimmed part of `s` ends.
pub open spec fn trim_end(s: Seq<char>) -> int {
    drop_spaces(s, trim_start(s), s.len() as int)
}

/// `s` without the spaces at its two ends.
pub open spec fn trim(s: Seq<char>) -> Seq<char> {
    s.subrange(trim_start(s), trim_end(s))
}

/// The pieces of `s` between occurrences of `sep`, in order. There is one
/// piece more than there are separators; a piece may be empty.
pub open spec fn split(s: Seq<char>, sep: char) -> Seq<Seq<char>>
    decreases s.len(),
{
    if s.len() == 0 {
        seq![Seq::<char>::empty()]
    } else {
        let before = split(s.drop_last(), sep);
        if s.last() == sep {
            before.push(Seq::<char>::empty())
        } else {
            before.update(before.len() - 1, before.last().push(s.last()))
        }
    }
}

/// The pieces put together again with `sep` between them.
pub open spec fn join(pieces: Seq<Seq<char>>, sep: char) -> Seq<char>
    decreases pieces.len(),
{
    if pieces.len() == 0 {
        Seq::<char>::empty()
    } else if pieces.len() == 1 {
        pieces[0]
    } else {
        join(pieces.drop_last(), sep).push(sep) + pieces.last()
    }
}

/// The character sequences that the vectors of `pieces` hold.
pub open spec fn views(pieces: Seq<Vec<char>>) -> Seq<Seq<char>> {
    pieces.map_values(|v: Vec<char>| v@)
}

/// Where trimming begins and ends: both inside `s`, in order, with only
/// spaces outside and no space at either end of what is kept.
pub proof fn lemma_trim_bounds(s: Seq<char>)
    ensures
        0 <= trim_start(s) <= trim_end(s) <= s.len(),
        forall|i: int| 0 <= i < trim_start(s) ==> is_space(#[trigger] s[i]),
        forall|i: int| trim_end(s) <= i < s.len() ==> is_space(#[trigger] s[i]),
        trim(s).len() > 0 ==> !is_space(trim(s).first()) && !is_space(trim(s).last()),
{
    lemma_skip_spaces(s, 0);
    lemma_drop_spaces(s, trim_start(s), s.len() as int);
}

/// What `skip_spaces` skips is spaces, and it stops at the first other
/// character.
pub proof fn lemma_skip_spaces(s: Seq<char>, from: int)
    requires
        0 <= from <= s.len(),
    ensures
        from <= skip_spaces(s, from) <= s.len(),
        forall|i: int| from <= i < skip_spaces(s, from) ==> is_space(#[trigger] s[i]),
        skip_spaces(s, from) < s.len() ==> !is_space(s[skip_spaces(s, from)]),
    decreases s.len() - from,
{
    if from < s.len() && is_space(s[from]) {
        lemma_skip_spaces(s, from + 1);
    }
}

/// What `drop_spaces` drops is spaces, and it stops behind the last other
/// character.
pub proof fn lemma_drop_spaces(s: Seq<char>, lo: int, upto: int)
    requires
        0 <= lo <= upto <= s.len(),
    ensures
        lo <= drop_spaces(s, lo, upto) <= upto,
        forall|i: int| drop_spaces(s, lo, upto) <= i < upto ==> is_space(#[trigger] s[i]),
        drop_spaces(s, lo, upto) > lo ==> !is_space(s[drop_spaces(s, lo, upto) - 1]),
    decreases upto,
{
    if upto > lo && is_space(s[upto - 1]) {
        lemma_drop_spaces(s, lo, upto - 1);
    }
}

/// A text that has no space at either end is its own trimmed form.
pub proof fn lemma_trim_unchanged(s: Seq<char>)
    requires
        s.len() > 0 ==> !is_space(s.first()) && !is_space(s.last()),
    ensures
        trim(s) == s,
{
    assert(trim(s) =~= s);
}

/// Cutting never yields nothing, and no piece holds the separator.
pub proof fn lemma_split_pieces(s: Seq<char>, sep: char)
    ensures
        split(s, sep).len() >= 1,
        forall|i: int, j: int|
            0 <= i < split(s, sep).len() && 0 <= j < split(s, sep)[i].len() ==> #[trigger] split(
                s,
                sep,
            )[i][j] != sep,
    decreases s.len(),
{
    if s.len() > 0 {
        lemma_split_pieces(s.drop_last(), sep);
        let before = split(s.drop_last(), sep);
        let now = split(s, sep);
        assert forall|i: int, j: int|
            0 <= i < now.len() && 0 <= j < now[i].len() implies #[trigger] now[i][j] != sep by {
            if s.last() == sep {
                if i < before.len() {
                    assert(now[i][j] == before[i][j]);
                }
            } else {
                if i < before.len() - 1 {
                    assert(now[i][j] == before[i][j]);
                } else if j < before.last().len() {
                    assert(now[i][j] == before[i][j]);
                }
            }
        }
    }
}

/// Cutting loses nothing: the pieces joined by the separator are the text.
pub proof fn lemma_join_split(s: Seq<char>, sep: char)
    ensures
        join(split(s, sep), sep) == s,
    decreases s.len(),
{
    if s.len() == 0 {
    } else {
        let init = s.drop_last();
        lemma_join_split(init, sep);
        lemma_split_pieces(init, sep);
        let before = split(init, sep);
        let now = split(s, sep);
        if s.last() == sep {
            assert(now.drop_last() =~= before);
            assert(join(now, sep) =~= join(before, sep).push(sep) + Seq::<char>::empty());
            assert(join(now, sep) =~= init.push(sep));
            assert(s =~= init.push(s.last()));
        } else {
            let grown = before.last().push(s.last());
            if before.len() == 1 {
                assert(join(before, sep) == before[0]);
                assert(now[0] == grown);
                assert(join(now, sep) == grown);
                assert(s =~= init.push(s.last()));
            } else {
                assert(now.drop_last() =~= before.drop_last());
                assert(join(before, sep) == join(before.drop_last(), sep).push(sep)
                    + before.last());
                assert(join(now, sep) == join(before.drop_last(), sep).push(sep) + grown);
                assert(join(now, sep) =~= join(before, sep).push(s.last()));
                assert(s =~= init.push(s.last()));
            }
        }
    }
}

/// A text without the separator is its own single piece.
pub proof fn lemma_split_without_sep(s: Seq<char>, sep: char)
    requires
        forall|i: int| 0 <= i < s.len() ==> s[i] != sep,
    ensures
        split(s, sep) == seq![s],
    decreases s.len(),
{
    if s.len() == 0 {
        assert(s =~= Seq::<char>::empty());
    } else {
        let init = s.drop_last();
        assert forall|i: int| 0 <= i < init.len() implies init[i] != sep by {
            assert(init[i] == s[i]);
        }
        lemma_split_without_sep(init, sep);
        assert(s.last() == s[s.len() - 1]);
        assert(init.push(s.last()) =~= s);
        assert(split(s, sep) =~= seq![s]);
    }
}

/// Whether `c` is a space.
pub fn is_space_char(c: char) -> (b: bool)
    ensures
        b == is_space(c),
{
    let u: u32 = c as u32;
    (0x09 <= u && u <= 0x0D) || u == 0x20 || u == 0x85 || u == 0xA0 || u == 0x1680 || (0x2000 <= u
        && u <= 0x200A) || u == 0x2028 || u == 0x2029 || u == 0x202F || u == 0x205F || u == 0x3000
}

/// The characters of `s` from `lo` up to `hi`.
pub fn slice_of(s: &Vec<char>, lo: usize, hi: usize) -> (out: Vec<char>)
    requires
        lo <= hi <= s.len(),
    ensures
        out@ == s@.subrange(lo as int, hi as int),
{
    let mut out: Vec<char> = Vec::new();
    let mut i: usize = lo;
    while i < hi
        invariant
            lo <= i <= hi <= s.len(),
            out@ == s@.subrange(lo as int, i as int),
        decreases hi - i,
    {
        out.push(s[i]);
        assert(out@ =~= s@.subrange(lo as int, i + 1));
        i += 1;
    }
    out
}

/// `s` without the spaces at its two ends.
pub fn trimmed(s: &Vec<char>) -> (out: Vec<char>)
    ensures
        out@ == trim(s@),
{
    let mut lo: usize = 0;
    while lo < s.len() && is_space_char(s[lo])
        invariant
            lo <= s.len(),
            skip_spaces(s@, lo as int) == trim_start(s@),
        decreases s.len() - lo,
    {
        lo += 1;
    }
    let mut hi: usize = s.len();
    while hi > lo && is_space_char(s[hi - 1])
        invariant
            lo <= hi <= s.len(),
            lo == trim_start(s@),
            drop_spaces(s@, lo as int, hi as int) == trim_end(s@),
        decreases hi,
    {
        hi -= 1;
    }
    slice_of(s, lo, hi)
}

/// Whether `c` occurs in `s`.
pub fn contains_char(s: &Vec<char>, c: char) -> (found: bool)
    ensures
        found == s@.contains(c),
{
    let mut i: usize = 0;
    while i < s.len()
        invariant
            i <= s.len(),
            forall|k: int| 0 <= k < i ==> s@[k] != c,
        decreases s.len() - i,
    {
        if s[i] == c {
            assert(s@[i as int] == c);
            return true;
        }
        i += 1;
    }
    false
}

/// The pieces of `s` between occurrences of `sep`, in order.
pub fn split_on(s: &Vec<char>, sep: char) -> (pieces: Vec<Vec<char>>)
    ensures
        views(pieces@) == split(s@, sep),
        pieces@.len() >= 1,
{
    let mut pieces: Vec<Vec<char>> = Vec::new();
    let mut current: Vec<char> = Vec::new();
    let mut i: usize = 0;
    assert(s@.take(0) =~= Seq::<char>::empty());
    assert(views(pieces@).push(current@) =~= seq![Seq::<char>::empty()]);
    while i < s.len()
        invariant
            i <= s.len(),
            views(pieces@).push(current@) == split(s@.take(i as int), sep),
        decreases s.len() - i,
    {
        let c = s[i];
        proof {
            let ghost upto = s@.take(i + 1);
            assert(upto.drop_last() =~= s@.take(i as int));
            assert(upto.last() == c);
        }
        if c == sep {
            let ghost done = views(pieces@).push(current@);
            pieces.push(current);
            current = Vec::new();
            assert(views(pieces@) =~= done);
        } else {
            let ghost before = views(pieces@).push(current@);
            current.push(c);
            assert(views(pieces@).push(current@) =~= before.update(
                before.len() - 1,
                before.last().push(c),
            ));
        }
        i += 1;
    }
    assert(s@.take(s.len() as int) =~= s@);
    let ghost all = views(pieces@).push(current@);
    pieces.push(current);
    assert(views(pieces@) =~= all);
    pieces
}

} // verus!
