//! Fitting text into terminal cells: display widths, cutting a string at a
//! number of cells, word wrapping, and which rows of a list fit on screen.
use vstd::prelude::*;
use crate::text::{chars_of, is_ws, lead_ws, lemma_word_len, split_words, string_of_range, views, word_len, word_ranges};

verus! {

// ---------------------------------------------------------------------------
// Display widths
// ---------------------------------------------------------------------------

/// The width `unicode_width` looks up in its tables for a character from
/// `U+00A0` on.
pub uninterp spec fn table_width(c: char) -> usize;

/// The display width of one character: `None` for a control character.
pub open spec fn char_cols(c: char) -> Option<usize> {
    let u = c as u32;
    if u < 0x20 {
        None
    } else if u < 0x7f {
        Some(1)
    } else if u < 0xa0 {
        None
    } else {
        Some(table_width(c))
    }
}

/// Trusted: `UnicodeWidthChar::width` of `unicode_width`. Printable ASCII
/// is one cell, the C0 and C1 control characters have no width, and from
/// `U+00A0` on the width is the table entry, which is stored as a `u8`.
#[verifier::external_body]
fn char_width(c: char) -> (r: Option<usize>)
    ensures
        r == char_cols(c),
        0xa0 <= c as u32 ==> r == Some(table_width(c)),
        r matches Some(w) ==> w <= 255,
{
    unicode_width::UnicodeWidthChar::width(c)
}

/// The display width of a whole string as `unicode_width` measures it; it is
/// not in general the sum of the characters' widths (emoji sequences,
/// ligatures and `\r\n` are counted as one).
pub uninterp spec fn text_width(s: Seq<char>) -> usize;

/// Trusted: `UnicodeWidthStr::width` of `unicode_width`. The sum starts at
/// zero, and each printable ASCII character adds one (the special cases of
/// the fold are for `\r\n`, emoji and other characters above ASCII), so a
/// string of printable ASCII is as wide as it is long; of other strings only
/// the name `text_width` is claimed.
#[verifier::external_body]
pub fn str_width(s: &str) -> (r: usize)
    ensures
        r == text_width(s@),
        s@.len() == 0 ==> r == 0,
        all_printable(s@) ==> r == s@.len(),
{
    unicode_width::UnicodeWidthStr::width(s)
}

/// Printable ASCII: from the space to the tilde.
pub open spec fn printable(c: char) -> bool {
    0x20 <= c as u32 && (c as u32) < 0x7f
}

pub open spec fn all_printable(s: Seq<char>) -> bool {
    forall|i: int| 0 <= i < s.len() ==> printable(#[trigger] s[i])
}

/// The cells one character takes when a string is cut: its width, or none
/// for a control character.
pub open spec fn cells(c: char) -> nat {
    match char_cols(c) {
        Some(w) => w as nat,
        None => 0,
    }
}

fn cell_count(c: char) -> (r: usize)
    ensures
        r == cells(c),
        r <= 255,
{
    match char_width(c) {
        Some(w) => w,
        None => 0,
    }
}

// ---------------------------------------------------------------------------
// Cutting at a number of cells
// ---------------------------------------------------------------------------

/// Where a cut of `cs` into at most `width` cells falls, scanning from
/// character `i` with `used` cells already taken: a character that would
/// overflow the width stays out unless nothing with a width was taken yet,
/// and the cut is made as soon as the width is reached.
pub open spec fn cut_from(cs: Seq<char>, width: nat, i: nat, used: nat) -> nat
    decreases cs.len() - i,
{
    if i >= cs.len() {
        cs.len()
    } else {
        let w = cells(cs[i as int]);
        if used > 0 && used + w > width {
            i
        } else if used + w >= width {
            i + 1
        } else {
            cut_from(cs, width, i + 1, used + w)
        }
    }
}

/// The number of characters of `cs` that go before a cut at `width` cells.
pub open spec fn cut_point(cs: Seq<char>, width: nat) -> nat {
    if width == 0 {
        0
    } else {
        cut_from(cs, width, 0, 0)
    }
}

pub proof fn lemma_cut_from_bounds(cs: Seq<char>, width: nat, i: nat, used: nat)
    requires
        i <= cs.len(),
    ensures
        i <= cut_from(cs, width, i, used) <= cs.len(),
        used == 0 && i < cs.len() ==> i < cut_from(cs, width, i, used),
    decreases cs.len() - i,
{
    if i < cs.len() {
        let w = cells(cs[i as int]);
        if !(used > 0 && used + w > width) && !(used + w >= width) {
            lemma_cut_from_bounds(cs, width, i + 1, used + w);
        }
    }
}

/// A cut at a positive width always keeps the first character.
pub proof fn lemma_cut_point_progress(cs: Seq<char>, width: nat)
    requires
        width > 0,
        cs.len() > 0,
    ensures
        0 < cut_point(cs, width) <= cs.len(),
{
    lemma_cut_from_bounds(cs, width, 0, 0);
}

/// The index in `v` where a cut at `width` cells falls.
#[verifier::rlimit(40)]
fn cut_index(v: &Vec<char>, width: usize) -> (k: usize)
    ensures
        k == cut_point(v@, width as nat),
{
    if width == 0 {
        return 0;
    }
    let mut used: usize = 0;
    let mut i: usize = 0;
    while i < v.len()
        invariant
            0 < width,
            i <= v.len(),
            used < width,
            cut_point(v@, width as nat) == cut_from(v@, width as nat, i as nat, used as nat),
        decreases v.len() - i,
    {
        let w = cell_count(v[i]);
        if used > 0 && w > width - used {
            return i;
        }
        if w >= width - used {
            return i + 1;
        }
        used = used + w;
        i = i + 1;
    }
    i
}

/// Splits `s` after as many characters as fit in `width` cells: a first
/// character wider than the width is still taken, and zero-width characters
/// after the width is reached stay in the rest.
pub fn split_cells(s: &str, width: usize) -> (r: (String, String))
    ensures
        r.0@ == s@.take(cut_point(s@, width as nat) as int),
        r.1@ == s@.skip(cut_point(s@, width as nat) as int),
        r.0@ + r.1@ == s@,
{
    let v = chars_of(s);
    let k = cut_index(&v, width);
    proof {
        if width > 0 {
            lemma_cut_from_bounds(v@, width as nat, 0, 0);
        }
    }
    let head = string_of_range(&v, 0, k);
    let rest = string_of_range(&v, k, v.len());
    assert(v@.subrange(0, k as int) == s@.take(k as int));
    assert(v@.subrange(k as int, v.len() as int) == s@.skip(k as int));
    assert(s@.take(k as int) + s@.skip(k as int) == s@);
    (head, rest)
}

/// Where the text after skipping `width` cells starts, scanning from
/// character `i` with `used` cells already skipped.
pub open spec fn skip_from(cs: Seq<char>, width: nat, i: nat, used: nat) -> nat
    decreases cs.len() - i,
{
    if i >= cs.len() {
        cs.len()
    } else if used >= width {
        i
    } else if used + cells(cs[i as int]) >= width {
        i + 1
    } else {
        skip_from(cs, width, i + 1, used + cells(cs[i as int]))
    }
}

pub proof fn lemma_skip_from_bounds(cs: Seq<char>, width: nat, i: nat, used: nat)
    requires
        i <= cs.len(),
    ensures
        i <= skip_from(cs, width, i, used) <= cs.len(),
    decreases cs.len() - i,
{
    if i < cs.len() && used < width && used + cells(cs[i as int]) < width {
        lemma_skip_from_bounds(cs, width, i + 1, used + cells(cs[i as int]));
    }
}

/// The text of `s` after its first `width` cells: a character that reaches
/// the width is skipped with them.
#[verifier::rlimit(40)]
pub fn skip_cells(s: &str, width: usize) -> (r: String)
    ensures
        r@ == s@.skip(skip_from(s@, width as nat, 0, 0) as int),
{
    let v = chars_of(s);
    let mut used: usize = 0;
    let mut i: usize = 0;
    proof {
        lemma_skip_from_bounds(v@, width as nat, 0, 0);
    }
    while i < v.len()
        invariant
            i <= v.len(),
            v@ == s@,
            used <= width,
            i > 0 ==> used < width,
            skip_from(v@, width as nat, 0, 0) == skip_from(v@, width as nat, i as nat, used as nat),
        decreases v.len() - i,
    {
        if used >= width {
            assert(v@.subrange(i as int, v.len() as int) == s@.skip(i as int));
            return string_of_range(&v, i, v.len());
        }
        let w = cell_count(v[i]);
        if w >= width - used {
            assert(v@.subrange(i + 1, v.len() as int) == s@.skip(i + 1));
            return string_of_range(&v, i + 1, v.len());
        }
        used = used + w;
        i = i + 1;
    }
    assert(s@.skip(v.len() as int) == Seq::<char>::empty());
    String::new()
}

/// The first `width` cells of `s`, cut as `split_cells` cuts.
pub fn take_cells(s: &str, width: usize) -> (r: String)
    ensures
        r@ == s@.take(cut_point(s@, width as nat) as int),
{
    let all = skip_cells(s, 0);
    assert(all@ == s@) by {
        assert(s@.skip(0) == s@);
    }
    let (head, _) = split_cells(all.as_str(), width);
    head
}

/// `s` as it is when it fits in `width` cells, else cut one cell short and
/// ended with `…`.
pub open spec fn fitted(s: Seq<char>, width: nat) -> Seq<char> {
    if text_width(s) <= width {
        s
    } else {
        let room: nat = if width == 0 { 0 } else { (width - 1) as nat };
        s.take(cut_point(s, room) as int).push('\u{2026}')
    }
}

/// Fits `s` into `width` cells, marking a cut with an ellipsis.
pub fn fit(s: &str, width: usize) -> (r: String)
    ensures
        r@ == fitted(s@, width as nat),
{
    if str_width(s) <= width {
        return s.to_string();
    }
    let room = if width == 0 { 0 } else { width - 1 };
    let (mut out, _) = split_cells(s, room);
    out.push('\u{2026}');
    out
}

// ---------------------------------------------------------------------------
// Word wrapping
// ---------------------------------------------------------------------------

/// Lines so far and the line being filled.
pub type Wrapping = (Seq<Seq<char>>, Seq<char>);

/// A word wider than the line is broken: the line being filled is closed,
/// and pieces of `w` cells are emitted until what is left fits.
pub open spec fn break_long(lines: Seq<Seq<char>>, cur: Seq<char>, word: Seq<char>, w: nat) -> (
    Seq<Seq<char>>,
    Seq<char>,
    Seq<char>,
)
    decreases word.len(),
{
    if w > 0 && word.len() > 0 && text_width(word) > w {
        proof {
            lemma_cut_point_progress(word, w);
        }
        let closed = if cur.len() > 0 {
            lines.push(cur)
        } else {
            lines
        };
        let k = cut_point(word, w) as int;
        break_long(closed.push(word.take(k)), Seq::empty(), word.skip(k), w)
    } else {
        (lines, cur, word)
    }
}

/// One word placed: after breaking, it starts the line, joins it after a
/// space when both fit in `w` cells, or closes it and starts the next.
pub open spec fn place_word(acc: Wrapping, word: Seq<char>, w: nat) -> Wrapping {
    let (lines, cur, rest) = break_long(acc.0, acc.1, word, w);
    if cur.len() == 0 {
        (lines, rest)
    } else if text_width(cur) + 1 + text_width(rest) <= w {
        (lines, cur + seq![' '] + rest)
    } else {
        (lines.push(cur), rest)
    }
}

pub open spec fn place_words(words: Seq<Seq<char>>, w: nat) -> Wrapping
    decreases words.len(),
{
    if words.len() == 0 {
        (Seq::empty(), Seq::empty())
    } else {
        place_word(place_words(words.drop_last(), w), words.last(), w)
    }
}

/// The lines `text` is wrapped into at `width` cells (at least one cell):
/// its whitespace-separated words are placed one after another, and an empty
/// text gives one empty line.
pub open spec fn wrapped(text: Seq<char>, width: nat) -> Seq<Seq<char>> {
    let w: nat = if width == 0 { 1 } else { width };
    let (lines, cur) = place_words(split_words(text), w);
    let all = if cur.len() > 0 {
        lines.push(cur)
    } else {
        lines
    };
    if all.len() == 0 {
        seq![Seq::empty()]
    } else {
        all
    }
}

/// A wrapped line that fits `w` cells of printable ASCII: not empty, at
/// most `w` characters, with no whitespace at either end.
pub open spec fn fitting_line(l: Seq<char>, w: nat) -> bool {
    &&& 0 < l.len() <= w
    &&& all_printable(l)
    &&& !is_ws(l[0])
    &&& !is_ws(l.last())
}

pub open spec fn lines_fit(ls: Seq<Seq<char>>, w: nat) -> bool {
    forall|i: int| 0 <= i < ls.len() ==> fitting_line(#[trigger] ls[i], w)
}

/// The line being filled fits, or is empty.
pub open spec fn cur_fits(c: Seq<char>, w: nat) -> bool {
    c.len() == 0 || fitting_line(c, w)
}

/// Printable characters other than whitespace.
pub open spec fn plain(s: Seq<char>) -> bool {
    forall|i: int| 0 <= i < s.len() ==> printable(#[trigger] s[i]) && !is_ws(s[i])
}

/// A cut of printable ASCII at `w` cells keeps `w` characters, or all.
proof fn lemma_cut_printable(cs: Seq<char>, w: nat, i: nat)
    requires
        all_printable(cs),
        i < w,
        i <= cs.len(),
    ensures
        cut_from(cs, w, i, i) == if w < cs.len() { w } else { cs.len() },
    decreases cs.len() - i,
{
    if i < cs.len() {
        assert(printable(cs[i as int]));
        assert(cells(cs[i as int]) == 1);
        if i + 1 < w {
            lemma_cut_printable(cs, w, i + 1);
        }
    }
}

proof fn lemma_plain_parts(s: Seq<char>, k: int)
    requires
        plain(s),
        0 <= k <= s.len(),
    ensures
        plain(s.take(k)),
        plain(s.skip(k)),
        all_printable(s),
{
    assert forall|i: int| 0 <= i < s.take(k).len() implies printable(#[trigger] s.take(k)[i])
        && !is_ws(s.take(k)[i]) by {
        assert(s.take(k)[i] == s[i]);
    }
    assert forall|i: int| 0 <= i < s.skip(k).len() implies printable(#[trigger] s.skip(k)[i])
        && !is_ws(s.skip(k)[i]) by {
        assert(s.skip(k)[i] == s[i + k]);
    }
    assert forall|i: int| 0 <= i < s.len() implies printable(#[trigger] s[i]) by {
        assert(printable(s[i]) && !is_ws(s[i]));
    }
}

proof fn lemma_joined_fits(c: Seq<char>, word: Seq<char>, w: nat)
    requires
        fitting_line(c, w),
        plain(word),
        word.len() > 0,
        c.len() + 1 + word.len() <= w,
    ensures
        fitting_line(c + seq![' '] + word, w),
{
    let j = c + seq![' '] + word;
    lemma_plain_parts(word, 0);
    assert(j[0] == c[0]);
    assert(j.last() == word.last());
    assert(!is_ws(word[word.len() - 1]));
    assert forall|i: int| 0 <= i < j.len() implies printable(#[trigger] j[i]) by {
        if i < c.len() {
            assert(j[i] == c[i]);
        } else if i == c.len() {
            assert(j[i] == ' ');
        } else {
            assert(j[i] == word[i - c.len() - 1]);
        }
    }
}

/// Places one word into `lines` and `cur`. When the lines so far fit and
/// the word is plain printable ASCII, the lines still fit afterwards, and
/// something has been placed.
#[verifier::rlimit(60)]
fn place(lines: &mut Vec<String>, cur: &mut String, word: String, w: usize)
    requires
        w > 0,
    ensures
        (views(final(lines)@), final(cur)@) == place_word(
            (views(old(lines)@), old(cur)@),
            word@,
            w as nat,
        ),
        lines_fit(views(old(lines)@), w as nat) && cur_fits(old(cur)@, w as nat) && plain(word@)
            && word@.len() > 0 ==> lines_fit(views(final(lines)@), w as nat) && cur_fits(
            final(cur)@,
            w as nat,
        ) && (final(lines)@.len() > 0 || final(cur)@.len() > 0),
{
    let ghost target = break_long(views(lines@), cur@, word@, w as nat);
    let ghost good = lines_fit(views(lines@), w as nat) && cur_fits(cur@, w as nat) && plain(
        word@,
    ) && word@.len() > 0;
    let ghost word0 = word@;
    let mut word = word;
    while str_width(word.as_str()) > w
        invariant
            w > 0,
            break_long(views(lines@), cur@, word@, w as nat) == target,
            good ==> lines_fit(views(lines@), w as nat),
            good ==> cur_fits(cur@, w as nat),
            good ==> plain(word@),
            good ==> (cur@.len() > 0 ==> word@ == word0),
            good ==> (word@ != word0 ==> lines@.len() > 0),
            good ==> word0.len() > 0,
        decreases word@.len(),
    {
        let ghost l0 = views(lines@);
        let ghost c0 = cur@;
        let ghost w0 = word@;
        assert(w0.len() > 0);
        proof {
            lemma_cut_point_progress(word@, w as nat);
        }
        let ghost closed = if c0.len() > 0 { l0.push(c0) } else { l0 };
        let ghost k = cut_point(w0, w as nat) as int;
        assert(break_long(l0, c0, w0, w as nat) == break_long(closed.push(w0.take(k)), Seq::empty(), w0.skip(k), w as nat));
        proof {
            if good {
                lemma_plain_parts(w0, 0);
                lemma_cut_printable(w0, w as nat, 0);
                assert(k == w);
                lemma_plain_parts(w0, k);
                let piece = w0.take(k);
                assert(piece[0] == w0[0]);
                assert(piece.last() == w0[k - 1]);
                assert(fitting_line(piece, w as nat));
                assert(lines_fit(closed, w as nat)) by {
                    if c0.len() > 0 {
                        assert forall|i: int| 0 <= i < closed.len() implies fitting_line(#[trigger] closed[i], w as nat) by {
                            if i < l0.len() {
                                assert(closed[i] == l0[i]);
                            }
                        }
                    }
                }
                assert forall|i: int| 0 <= i < closed.push(piece).len() implies fitting_line(#[trigger] closed.push(piece)[i], w as nat) by {
                    if i < closed.len() {
                        assert(closed.push(piece)[i] == closed[i]);
                    }
                }
            }
        }
        if !cur.as_str().is_empty() {
            lines.push(cur.clone());
            assert(views(lines@) == views(lines@.drop_last()).push(lines@.last()@));
            *cur = String::new();
        }
        let (head, rest) = split_cells(word.as_str(), w);
        lines.push(head);
        assert(views(lines@) == views(lines@.drop_last()).push(lines@.last()@));
        word = rest;
        assert(views(lines@) == closed.push(w0.take(k)));
        assert(cur@ == Seq::<char>::empty());
        proof {
            if good && word@ == word0 {
                assert(word@.len() < w0.len());
            }
        }
    }
    proof {
        if good {
            lemma_plain_parts(word@, 0);
            assert(word@.len() <= w);
        }
    }
    if cur.as_str().is_empty() {
        *cur = word;
        proof {
            if good {
                if word@.len() > 0 {
                    assert(word@[0] == word@[0] && !is_ws(word@[0]));
                    assert(!is_ws(word@[word@.len() - 1]));
                }
            }
        }
    } else {
        let cw = str_width(cur.as_str());
        let ww = str_width(word.as_str());
        if cw < w && ww <= w - cw - 1 {
            let ghost c0 = cur@;
            cur.push(' ');
            crate::text::push_all(cur, word.as_str());
            proof {
                if good {
                    lemma_joined_fits(c0, word@, w as nat);
                }
            }
        } else {
            let ghost l0 = views(lines@);
            let ghost c0 = cur@;
            lines.push(cur.clone());
            assert(views(lines@) == views(lines@.drop_last()).push(lines@.last()@));
            *cur = word;
            proof {
                if good {
                    assert forall|i: int| 0 <= i < views(lines@).len() implies fitting_line(#[trigger] views(lines@)[i], w as nat) by {
                        if i < l0.len() {
                            assert(views(lines@)[i] == l0[i]);
                        }
                    }
                    assert(!is_ws(cur@[0]));
                    assert(!is_ws(cur@[cur@.len() - 1]));
                }
            }
        }
    }
}

/// Text whose characters are whitespace or printable ASCII.
pub open spec fn ascii_text(s: Seq<char>) -> bool {
    forall|i: int| 0 <= i < s.len() ==> is_ws(#[trigger] s[i]) || printable(s[i])
}

pub open spec fn blank(s: Seq<char>) -> bool {
    forall|i: int| 0 <= i < s.len() ==> is_ws(#[trigger] s[i])
}

/// Wraps `text` at word boundaries into lines of at most `width` cells (at
/// least one); a word wider than that is broken across lines. Blank text
/// gives one empty line; text of printable ASCII with a word in it gives
/// lines that each fit (see `fitting_line`).
#[verifier::rlimit(60)]
pub fn wrap(text: &str, width: usize) -> (r: Vec<String>)
    ensures
        views(r@) == wrapped(text@, width as nat),
        r@.len() > 0,
        blank(text@) ==> views(r@) == seq![Seq::<char>::empty()],
        ascii_text(text@) && !blank(text@) ==> lines_fit(
            views(r@),
            if width == 0 {
                1nat
            } else {
                width as nat
            },
        ),
{
    let w: usize = if width == 0 { 1 } else { width };
    let v = chars_of(text);
    let ranges = word_ranges(&v);
    let ghost ok = ascii_text(text@);
    proof {
        lemma_words_shape(text@);
        lemma_words_have_no_space(text@);
    }
    let mut lines: Vec<String> = Vec::new();
    let mut cur = String::new();
    let mut i: usize = 0;
    while i < ranges.len()
        invariant
            w > 0,
            w == if width == 0 { 1 } else { width },
            v@ == text@,
            ok == ascii_text(text@),
            i <= ranges.len(),
            ranges@.len() == split_words(v@).len(),
            forall|t: int|
                0 <= t < ranges@.len() ==> (#[trigger] ranges@[t]).0 <= ranges@[t].1 <= v.len()
                    && v@.subrange(ranges@[t].0 as int, ranges@[t].1 as int) == split_words(v@)[t],
            forall|t: int| 0 <= t < split_words(v@).len() ==> (#[trigger] split_words(v@)[t]).len() > 0,
            forall|t: int, j: int|
                0 <= t < split_words(v@).len() && 0 <= j < split_words(v@)[t].len()
                    ==> !is_ws(#[trigger] split_words(v@)[t][j]),
            (views(lines@), cur@) == place_words(split_words(v@).take(i as int), w as nat),
            ok ==> lines_fit(views(lines@), w as nat),
            ok ==> cur_fits(cur@, w as nat),
            ok && i > 0 ==> lines@.len() > 0 || cur@.len() > 0,
        decreases ranges.len() - i,
    {
        let (a, b) = ranges[i];
        let word = string_of_range(&v, a, b);
        proof {
            let ws = split_words(v@);
            assert(ws.take(i + 1).drop_last() == ws.take(i as int));
            assert(ws.take(i + 1).last() == ws[i as int]);
            assert(word@ == ws[i as int]);
            if ok {
                assert forall|j: int| 0 <= j < word@.len() implies printable(#[trigger] word@[j])
                    && !is_ws(word@[j]) by {
                    assert(!is_ws(ws[i as int][j]));
                    assert(word@[j] == v@[a + j]);
                    assert(is_ws(v@[a + j]) || printable(v@[a + j]));
                }
            }
        }
        place(&mut lines, &mut cur, word, w);
        i = i + 1;
    }
    assert(split_words(v@).take(ranges.len() as int) == split_words(v@));
    let ghost before = views(lines@);
    if !cur.as_str().is_empty() {
        lines.push(cur);
        assert(views(lines@) == views(lines@.drop_last()).push(lines@.last()@));
        proof {
            if ok {
                assert forall|t: int| 0 <= t < views(lines@).len() implies fitting_line(#[trigger] views(lines@)[t], w as nat) by {
                    if t < before.len() {
                        assert(views(lines@)[t] == before[t]);
                    }
                }
            }
        }
    }
    if lines.len() == 0 {
        lines.push(String::new());
        assert(views(lines@) == seq![Seq::<char>::empty()]);
    }
    proof {
        if blank(text@) {
            assert(split_words(v@).len() == 0);
            assert(split_words(v@).take(0) == split_words(v@));
        }
    }
    lines
}

/// The words of a text are not empty, and there are none exactly when the
/// text is blank.
pub proof fn lemma_words_shape(s: Seq<char>)
    ensures
        forall|i: int| 0 <= i < split_words(s).len() ==> (#[trigger] split_words(s)[i]).len() > 0,
        (split_words(s).len() == 0) == blank(s),
    decreases s.len(),
{
    crate::text::lemma_lead_ws(s);
    let k = lead_ws(s);
    if k >= s.len() {
        assert(blank(s));
    } else {
        let r = s.skip(k as int);
        assert(r[0] == s[k as int]);
        assert(!is_ws(r[0]));
        assert(!blank(s));
        lemma_word_len(r);
        assert(word_len(r) == 1 + word_len(r.drop_first()));
        let wl = word_len(r);
        lemma_words_shape(r.skip(wl as int));
        let rest = split_words(r.skip(wl as int));
        assert(split_words(s) == seq![r.take(wl as int)] + rest);
        assert forall|i: int| 0 <= i < split_words(s).len() implies (#[trigger] split_words(s)[i]).len() > 0 by {
            if i > 0 {
                assert(split_words(s)[i] == rest[i - 1]);
            }
        }
    }
}

/// The characters of a list of lines, one after another.
pub open spec fn concat(ls: Seq<Seq<char>>) -> Seq<char>
    decreases ls.len(),
{
    if ls.len() == 0 {
        Seq::empty()
    } else {
        concat(ls.drop_last()) + ls.last()
    }
}

/// `s` without its spaces.
pub open spec fn unspaced(s: Seq<char>) -> Seq<char>
    decreases s.len(),
{
    if s.len() == 0 {
        Seq::empty()
    } else if s.last() == ' ' {
        unspaced(s.drop_last())
    } else {
        unspaced(s.drop_last()).push(s.last())
    }
}

proof fn lemma_concat_push(ls: Seq<Seq<char>>, x: Seq<char>)
    ensures
        concat(ls.push(x)) == concat(ls) + x,
{
    assert(ls.push(x).drop_last() == ls);
}

proof fn lemma_unspaced_add(a: Seq<char>, b: Seq<char>)
    ensures
        unspaced(a + b) == unspaced(a) + unspaced(b),
    decreases b.len(),
{
    if b.len() == 0 {
        assert(a + b == a);
    } else {
        assert((a + b).drop_last() == a + b.drop_last());
        assert((a + b).last() == b.last());
        lemma_unspaced_add(a, b.drop_last());
    }
}

proof fn lemma_unspaced_no_space(s: Seq<char>)
    requires
        forall|i: int| 0 <= i < s.len() ==> s[i] != ' ',
    ensures
        unspaced(s) == s,
    decreases s.len(),
{
    if s.len() > 0 {
        lemma_unspaced_no_space(s.drop_last());
    }
}

/// Breaking a long word moves its characters, in order, into lines.
proof fn lemma_break_long_keeps(lines: Seq<Seq<char>>, cur: Seq<char>, word: Seq<char>, w: nat)
    ensures
        ({
            let (l2, c2, rest) = break_long(lines, cur, word, w);
            concat(l2) + c2 + rest == concat(lines) + cur + word
        }),
    decreases word.len(),
{
    if w > 0 && word.len() > 0 && text_width(word) > w {
        lemma_cut_point_progress(word, w);
        let closed = if cur.len() > 0 {
            lines.push(cur)
        } else {
            lines
        };
        let k = cut_point(word, w) as int;
        lemma_concat_push(lines, cur);
        assert(concat(closed) == concat(lines) + cur);
        lemma_concat_push(closed, word.take(k));
        lemma_break_long_keeps(closed.push(word.take(k)), Seq::empty(), word.skip(k), w);
        assert(word.take(k) + word.skip(k) == word);
        assert(concat(closed.push(word.take(k))) + Seq::<char>::empty() + word.skip(k) == concat(
            lines,
        ) + cur + word);
    }
}

#[verifier::rlimit(40)]
proof fn lemma_place_words_keeps(words: Seq<Seq<char>>, w: nat)
    requires
        forall|i: int, j: int|
            0 <= i < words.len() && 0 <= j < words[i].len() ==> #[trigger] words[i][j] != ' ',
    ensures
        unspaced(concat(place_words(words, w).0) + place_words(words, w).1) == concat(words),
    decreases words.len(),
{
    if words.len() > 0 {
        let pre = words.drop_last();
        let word = words.last();
        assert forall|i: int, j: int|
            0 <= i < pre.len() && 0 <= j < pre[i].len() implies #[trigger] pre[i][j] != ' ' by {
            assert(pre[i] == words[i]);
        }
        lemma_place_words_keeps(pre, w);
        let (lines, cur) = place_words(pre, w);
        lemma_break_long_keeps(lines, cur, word, w);
        let (l2, c2, rest) = break_long(lines, cur, word, w);
        assert forall|j: int| 0 <= j < word.len() implies word[j] != ' ' by {
            assert(word == words[words.len() - 1]);
            assert(words[words.len() - 1][j] != ' ');
        }
        lemma_unspaced_no_space(word);
        lemma_unspaced_add(concat(lines) + cur, word);
        // the rest is a suffix of the word, so it holds no space either
        assert(unspaced(concat(l2) + c2 + rest) == unspaced(concat(lines) + cur) + word);
        lemma_unspaced_add(concat(l2) + c2, rest);
        lemma_unspaced_add(concat(l2), c2);
        if c2.len() == 0 {
            assert(c2 == Seq::<char>::empty());
            assert(concat(l2) + c2 == concat(l2));
        } else if text_width(c2) + 1 + text_width(rest) <= w {
            let joined = c2 + seq![' '] + rest;
            lemma_unspaced_add(concat(l2), joined);
            lemma_unspaced_add(c2 + seq![' '], rest);
            lemma_unspaced_add(c2, seq![' ']);
            assert(unspaced(seq![' ']) == Seq::<char>::empty()) by {
                assert(seq![' '].drop_last() == Seq::<char>::empty());
                assert(seq![' '].last() == ' ');
                assert(unspaced(Seq::<char>::empty()) == Seq::<char>::empty());
            }
            assert(concat(l2) + joined == concat(l2) + c2 + seq![' '] + rest);
        } else {
            lemma_concat_push(l2, c2);
        }
        assert(words.drop_last() == pre);
    }
}

/// The words of a text are runs of characters other than whitespace.
#[verifier::rlimit(40)]
pub proof fn lemma_words_have_no_space(s: Seq<char>)
    ensures
        forall|i: int, j: int|
            0 <= i < split_words(s).len() && 0 <= j < split_words(s)[i].len()
                ==> !is_ws(#[trigger] split_words(s)[i][j]),
    decreases s.len(),
{
    let k = lead_ws(s);
    if k < s.len() {
        let r = s.skip(k as int);
        let wl = word_len(r);
        if 0 < wl && wl <= r.len() {
            lemma_word_len(r);
            lemma_words_have_no_space(r.skip(wl as int));
            let rest = split_words(r.skip(wl as int));
            assert(split_words(s) == seq![r.take(wl as int)] + rest);
            assert forall|i: int, j: int|
                0 <= i < split_words(s).len() && 0 <= j < split_words(s)[i].len() implies !is_ws(
                #[trigger] split_words(s)[i][j],
            ) by {
                if i == 0 {
                    assert(split_words(s)[0][j] == r[j]);
                } else {
                    assert(split_words(s)[i] == rest[i - 1]);
                }
            }
        }
    }
}

/// Law: wrapping keeps the characters of the text's words, in order, and
/// adds nothing but spaces between them.
#[verifier::rlimit(40)]
pub proof fn law_wrap_keeps_words(text: Seq<char>, width: nat)
    ensures
        unspaced(concat(wrapped(text, width))) == concat(split_words(text)),
{
    let w: nat = if width == 0 { 1 } else { width };
    let words = split_words(text);
    lemma_words_have_no_space(text);
    assert forall|i: int, j: int|
        0 <= i < words.len() && 0 <= j < words[i].len() implies #[trigger] words[i][j] != ' ' by {
        assert(!is_ws(words[i][j]));
    }
    lemma_place_words_keeps(words, w);
    let (lines, cur) = place_words(words, w);
    if cur.len() > 0 {
        lemma_concat_push(lines, cur);
    } else {
        assert(concat(lines) + cur == concat(lines));
    }
    let all = if cur.len() > 0 {
        lines.push(cur)
    } else {
        lines
    };
    if all.len() == 0 {
        assert(concat(seq![Seq::<char>::empty()]) == Seq::<char>::empty()) by {
            let one = seq![Seq::<char>::empty()];
            assert(one.drop_last() == Seq::<Seq<char>>::empty());
            assert(one.last() == Seq::<char>::empty());
            assert(concat(Seq::<Seq<char>>::empty()) == Seq::<char>::empty());
            assert(concat(one) == concat(one.drop_last()) + one.last());
        }
        assert(concat(all) == Seq::<char>::empty());
    }
}

// ---------------------------------------------------------------------------
// The query line
// ---------------------------------------------------------------------------

/// The first cell of the query shown in `visible` cells: none is hidden
/// while the query fits; else the view follows the cursor, keeping it in
/// the last cell at most and not scrolling past the query's end.
pub open spec fn scroll(query_width: nat, cursor_width: nat, visible: nat) -> nat {
    if query_width <= visible {
        0
    } else {
        let keep: nat = if visible == 0 { 0 } else { (visible - 1) as nat };
        let s: nat = if cursor_width > keep { (cursor_width - keep) as nat } else { 0 };
        if s + visible > query_width {
            (query_width - visible) as nat
        } else {
            s
        }
    }
}

/// Where the query's view starts (see `scroll`), in cells.
pub fn scroll_start(query_width: usize, cursor_width: usize, visible: usize) -> (r: usize)
    ensures
        r == scroll(query_width as nat, cursor_width as nat, visible as nat),
{
    if query_width <= visible {
        return 0;
    }
    let keep = if visible == 0 {
        0
    } else {
        visible - 1
    };
    let s = if cursor_width > keep {
        cursor_width - keep
    } else {
        0
    };
    if s > query_width - visible {
        query_width - visible
    } else {
        s
    }
}

/// The screen column of the cursor: after the prompt, less the scrolled
/// cells, in the last column at most.
pub fn cursor_column(prompt_width: u16, cursor_width: usize, start: usize, cols: u16) -> (r: u16)
    ensures
        r as nat == ({
            let last: nat = if cols == 0 { 0 } else { (cols - 1) as nat };
            let off: nat = if cursor_width > start { (cursor_width - start) as nat } else { 0 };
            let at = prompt_width + off;
            if at < last {
                at as nat
            } else {
                last
            }
        }),
{
    let last: u16 = if cols == 0 {
        0
    } else {
        cols - 1
    };
    let off: usize = if cursor_width > start {
        cursor_width - start
    } else {
        0
    };
    if prompt_width < last && off < (last - prompt_width) as usize {
        prompt_width + (off as u16)
    } else {
        last
    }
}

/// The width left for a row's text in a list `width` cells wide: two
/// cells of margin on the left, two on the right (four with a badge), at
/// least one.
pub fn row_text_width(width: usize, badge: bool) -> (r: usize)
    ensures
        r == ({
            let margin: nat = if badge { 6 } else { 4 };
            if width > margin { (width - margin) as nat } else { 1 }
        }),
{
    let margin: usize = if badge {
        6
    } else {
        4
    };
    if width > margin {
        width - margin
    } else {
        1
    }
}

// ---------------------------------------------------------------------------
// Which rows of a list are shown
// ---------------------------------------------------------------------------

/// The total of `counts[lo..hi]`.
pub open spec fn rows_in(counts: Seq<usize>, lo: int, hi: int) -> int
    decreases hi - lo,
{
    if hi <= lo {
        0
    } else {
        rows_in(counts, lo, hi - 1) + counts[hi - 1]
    }
}

/// One row is kept for the "more" line while items remain below `last`.
pub open spec fn more_row(n: int, last: int) -> int {
    if last + 1 < n {
        1
    } else {
        0
    }
}

/// Taking items below `last` while they, and a "more" row if any are still
/// left after them, fit in `available` rows.
pub open spec fn grow_down(counts: Seq<usize>, last: int, used: int, available: int) -> (int, int)
    decreases counts.len() - last,
{
    if 0 <= last && last + 1 < counts.len() && used + counts[last + 1] + more_row(
        counts.len() as int,
        last + 1,
    ) <= available {
        grow_down(counts, last + 1, used + counts[last + 1], available)
    } else {
        (last, used)
    }
}

/// Then taking items above `first` while they fit beside the rows taken.
pub open spec fn grow_up(counts: Seq<usize>, first: int, last: int, used: int, available: int) -> int
    decreases first,
{
    if first > 0 && used + counts[first - 1] + more_row(counts.len() as int, last) <= available {
        grow_up(counts, first - 1, last, used + counts[first - 1], available)
    } else {
        first
    }
}

/// The first and last item shown of a list whose items take `counts` rows,
/// with the `selected` item (the first when none) in view: the whole list
/// when it fits, else the selected item grown downwards, then upwards.
pub open spec fn window(counts: Seq<usize>, selected: Option<usize>, available: int) -> (int, int) {
    let n = counts.len() as int;
    let sel: int = match selected {
        Some(s) => if s < n { s as int } else { n - 1 },
        None => 0,
    };
    if rows_in(counts, 0, n) <= available {
        (0, n - 1)
    } else {
        let (last, used) = grow_down(counts, sel, counts[sel] as int, available);
        (grow_up(counts, sel, last, used, available), last)
    }
}

proof fn lemma_grow_down(counts: Seq<usize>, last: int, used: int, available: int)
    requires
        0 <= last < counts.len(),
    ensures
        last <= grow_down(counts, last, used, available).0 < counts.len(),
        grow_down(counts, last, used, available).1 == used + rows_in(
            counts,
            last + 1,
            grow_down(counts, last, used, available).0 + 1,
        ),
        grow_down(counts, last, used, available).0 > last ==> grow_down(
            counts,
            last,
            used,
            available,
        ).1 + more_row(counts.len() as int, grow_down(counts, last, used, available).0)
            <= available,
    decreases counts.len() - last,
{
    if last + 1 < counts.len() && used + counts[last + 1] + more_row(counts.len() as int, last + 1)
        <= available {
        lemma_grow_down(counts, last + 1, used + counts[last + 1], available);
        lemma_rows_in_front(counts, last + 1, grow_down(counts, last, used, available).0 + 1);
    }
}

/// Splitting off the first item of a range.
proof fn lemma_rows_in_front(counts: Seq<usize>, lo: int, hi: int)
    requires
        lo < hi,
    ensures
        rows_in(counts, lo, hi) == counts[lo] + rows_in(counts, lo + 1, hi),
    decreases hi - lo,
{
    if hi - 1 > lo {
        lemma_rows_in_front(counts, lo, hi - 1);
        assert(rows_in(counts, lo + 1, hi) == rows_in(counts, lo + 1, hi - 1) + counts[hi - 1]);
    } else {
        assert(rows_in(counts, lo + 1, hi) == 0);
        assert(rows_in(counts, lo, lo) == 0);
    }
}

proof fn lemma_grow_up(counts: Seq<usize>, first: int, last: int, used: int, available: int)
    requires
        0 <= first <= last < counts.len(),
    ensures
        0 <= grow_up(counts, first, last, used, available) <= first,
        grow_up(counts, first, last, used, available) < first ==> used + rows_in(
            counts,
            grow_up(counts, first, last, used, available),
            first,
        ) + more_row(counts.len() as int, last) <= available,
    decreases first,
{
    if first > 0 && used + counts[first - 1] + more_row(counts.len() as int, last) <= available {
        lemma_grow_up(counts, first - 1, last, used + counts[first - 1], available);
        let g = grow_up(counts, first - 1, last, used + counts[first - 1], available);
        assert(rows_in(counts, g, first) == rows_in(counts, g, first - 1) + counts[first - 1]);
        assert(rows_in(counts, first - 1, first - 1) == 0);
    }
}

/// A range's total is the sum of the totals of two parts.
proof fn lemma_rows_in_split(counts: Seq<usize>, lo: int, mid: int, hi: int)
    requires
        lo <= mid <= hi,
    ensures
        rows_in(counts, lo, hi) == rows_in(counts, lo, mid) + rows_in(counts, mid, hi),
    decreases hi - mid,
{
    if hi > mid {
        lemma_rows_in_split(counts, lo, mid, hi - 1);
    }
}

/// The items of a list shown in `available` rows (see `window`). The window
/// holds the selected item, and when it reaches past that item, its rows
/// and a "more" row for the items left below it fit in the rows available.
#[verifier::rlimit(40)]
pub fn list_window(counts: &Vec<usize>, selected: Option<usize>, available: usize) -> (r: (
    usize,
    usize,
))
    requires
        counts.len() > 0,
    ensures
        (r.0 as int, r.1 as int) == window(counts@, selected, available as int),
        r.0 <= r.1 < counts.len(),
        match selected {
            Some(s) => s < counts.len() ==> r.0 <= s <= r.1,
            None => r.0 == 0,
        },
        rows_in(counts@, 0, counts.len() as int) > available && r.0 < r.1 ==> rows_in(
            counts@,
            r.0 as int,
            r.1 + 1,
        ) + more_row(counts.len() as int, r.1 as int) <= available,
{
    let n = counts.len();
    // Whether the whole list fits, without adding past `available`.
    let mut total: usize = 0;
    let mut i: usize = 0;
    let mut fits = true;
    while i < n && fits
        invariant
            n == counts.len(),
            i <= n,
            total <= available,
            fits ==> total == rows_in(counts@, 0, i as int),
            !fits ==> rows_in(counts@, 0, n as int) > available,
        decreases n - i,
    {
        if counts[i] > available - total {
            proof {
                lemma_rows_in_prefix_le(counts@, i as int + 1, n as int);
            }
            fits = false;
        } else {
            total = total + counts[i];
        }
        i = i + 1;
    }
    if fits {
        return (0, n - 1);
    }
    let sel = match selected {
        Some(s) => if s < n { s } else { n - 1 },
        None => 0,
    };
    let mut last = sel;
    let mut used = counts[sel];
    proof {
        lemma_grow_down(counts@, sel as int, used as int, available as int);
    }
    while last + 1 < n
        invariant
            n == counts.len(),
            sel <= last < n,
            grow_down(counts@, sel as int, counts@[sel as int] as int, available as int)
                == grow_down(counts@, last as int, used as int, available as int),
        ensures
            sel <= last < n,
            grow_down(counts@, sel as int, counts@[sel as int] as int, available as int) == (
                last as int,
                used as int,
            ),
        decreases n - last,
    {
        let next = counts[last + 1];
        let more: usize = if last + 2 < n { 1 } else { 0 };
        if used <= available && next <= available - used && more <= available - used - next {
            last = last + 1;
            used = used + next;
        } else {
            break;
        }
    }
    let ghost down = grow_down(counts@, sel as int, counts@[sel as int] as int, available as int);
    assert(down == (last as int, used as int));
    let mut first = sel;
    proof {
        lemma_grow_up(counts@, sel as int, last as int, used as int, available as int);
    }
    while first > 0
        invariant
            n == counts.len(),
            first <= sel <= last < n,
            grow_up(counts@, sel as int, last as int, down.1, available as int) == grow_up(
                counts@,
                first as int,
                last as int,
                used as int,
                available as int,
            ),
        ensures
            first <= sel,
            grow_up(counts@, sel as int, last as int, down.1, available as int) == first,
        decreases first,
    {
        let prev = counts[first - 1];
        let more: usize = if last + 1 < n { 1 } else { 0 };
        if used <= available && prev <= available - used && more <= available - used - prev {
            first = first - 1;
            used = used + prev;
        } else {
            break;
        }
    }
    proof {
        lemma_rows_in_split(counts@, first as int, sel as int, last as int + 1);
        lemma_rows_in_front(counts@, sel as int, last as int + 1);
    }
    (first, last)
}

/// A total over more items is at least the total over fewer.
proof fn lemma_rows_in_prefix_le(counts: Seq<usize>, i: int, n: int)
    requires
        0 <= i <= n,
    ensures
        rows_in(counts, 0, i) <= rows_in(counts, 0, n),
    decreases n - i,
{
    if i < n {
        lemma_rows_in_prefix_le(counts, i + 1, n);
    }
}

/// How the window `first..=last` of a list fills `available` rows: the
/// rows printed (the items' lines in order until the rows run out), the
/// number of items left below the window, and whether a "… n more" line
/// follows (items are left and a row is still free).
pub open spec fn list_fill(counts: Seq<usize>, first: int, last: int, available: int) -> (
    int,
    int,
    bool,
) {
    let total = rows_in(counts, first, last + 1);
    let printed = if total <= available {
        total
    } else {
        available
    };
    let more = counts.len() - (last + 1);
    (printed, more, more > 0 && printed < available)
}

proof fn lemma_rows_in_nonneg(counts: Seq<usize>, lo: int, hi: int)
    ensures
        rows_in(counts, lo, hi) >= 0,
    decreases hi - lo,
{
    if hi > lo {
        lemma_rows_in_nonneg(counts, lo, hi - 1);
    }
}

/// The rows a window of a list prints (see `list_fill`).
pub fn shown_rows(counts: &Vec<usize>, first: usize, last: usize, available: usize) -> (r: (
    usize,
    usize,
    bool,
))
    requires
        first <= last < counts.len(),
    ensures
        (r.0 as int, r.1 as int, r.2) == list_fill(counts@, first as int, last as int, available as int),
{
    let mut printed: usize = 0;
    let mut i = first;
    let mut full = false;
    while i <= last
        invariant
            first <= i <= last + 1,
            last < counts.len(),
            printed <= available,
            !full ==> printed == rows_in(counts@, first as int, i as int),
            full ==> printed == available && rows_in(counts@, first as int, last + 1) >= available,
        decreases last + 1 - i,
    {
        if !full {
            if counts[i] >= available - printed {
                proof {
                    lemma_rows_in_split(counts@, first as int, i + 1, last + 1);
                    lemma_rows_in_nonneg(counts@, i + 1, last + 1);
                    assert(rows_in(counts@, first as int, i + 1) == rows_in(counts@, first as int, i as int) + counts@[i as int]);
                }
                printed = available;
                full = true;
            } else {
                printed = printed + counts[i];
            }
        }
        i = i + 1;
    }
    let more = counts.len() - (last + 1);
    (printed, more, more > 0 && printed < available)
}

} // verus!
