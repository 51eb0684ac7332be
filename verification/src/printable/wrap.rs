//! Breaking a text into lines of a bounded width.
//!
//! Words are the runs of characters between white space. A line is a
//! stretch of the text: it runs from the start of its first word to the end
//! of its last, with the white space that the text has between them. It
//! takes words as long as the stretch fits; a word that is wider than a
//! line stands alone on one. Widths are sums of the advances that the font
//! metrics give for the characters.

use vstd::prelude::*;
use vstd::string::*;

verus! {

/// Advance widths of a font at one size, in the unit of the page.
#[derive(Debug)]
pub struct FontMetrics {
    /// The advance of the character with code `i` at index `i`.
    pub advances: Vec<u32>,
    /// The advance of every character whose code is past the table.
    pub fallback: u32,
}

/// Why a text cannot be broken into lines.
#[derive(Clone, Copy, Debug, PartialEq, Eq, Structural)]
pub enum LayoutError {
    /// The width of a line is zero or less.
    NonPositiveWidth,
}

/// Whether a character separates words: whether it has the Unicode
/// property `White_Space`, as `char::is_whitespace` tells.
pub open spec fn is_space(c: char) -> bool {
    let code = c as u32;
    ||| 0x09 <= code <= 0x0D
    ||| code == 0x20
    ||| code == 0x85
    ||| code == 0xA0
    ||| code == 0x1680
    ||| 0x2000 <= code <= 0x200A
    ||| code == 0x2028
    ||| code == 0x2029
    ||| code == 0x202F
    ||| code == 0x205F
    ||| code == 0x3000
}

/// Where the word that holds position `i` ends: the first position from
/// `i` on that holds white space, or the end of the text.
pub open spec fn word_end(s: Seq<char>, i: int) -> int
    decreases s.len() - i,
{
    if i < 0 || i >= s.len() || is_space(s[i]) {
        i
    } else {
        word_end(s, i + 1)
    }
}

/// Where the words of `s` that begin at position `i` or later begin and
/// end.
pub open spec fn word_ranges_from(s: Seq<char>, i: int) -> Seq<(int, int)>
    decreases s.len() - i,
{
    if i < 0 || i >= s.len() {
        seq![]
    } else if is_space(s[i]) {
        word_ranges_from(s, i + 1)
    } else {
        let end = word_end(s, i);
        if end <= i || end > s.len() {
            seq![]
        } else {
            seq![(i, end)] + word_ranges_from(s, end)
        }
    }
}

/// Where the words of a text begin and end, in order.
pub open spec fn word_ranges(s: Seq<char>) -> Seq<(int, int)> {
    word_ranges_from(s, 0)
}

/// The stretches of `s` that the ranges mark.
pub open spec fn cut(s: Seq<char>, ranges: Seq<(int, int)>) -> Seq<Seq<char>> {
    Seq::new(ranges.len(), |j: int| s.subrange(ranges[j].0, ranges[j].1))
}

/// The words of a text, in order.
pub open spec fn words(s: Seq<char>) -> Seq<Seq<char>> {
    cut(s, word_ranges(s))
}

/// Ranges of positions as pairs of integers.
pub open spec fn as_ints(ranges: Seq<(usize, usize)>) -> Seq<(int, int)> {
    Seq::new(ranges.len(), |j: int| (ranges[j].0 as int, ranges[j].1 as int))
}

impl FontMetrics {
    /// The advance of one character.
    pub open spec fn char_width(&self, c: char) -> int {
        if (c as u32) < self.advances@.len() {
            self.advances@[c as u32 as int] as int
        } else {
            self.fallback as int
        }
    }

    /// The width of a text: the sum of the advances of its characters.
    pub open spec fn text_width(&self, s: Seq<char>) -> int
        decreases s.len(),
    {
        if s.len() == 0 {
            0
        } else {
            self.text_width(s.drop_last()) + self.char_width(s.last())
        }
    }

    /// The number of the word that the line beginning with word `first`
    /// stops before, when it has taken the words before `next`: the first
    /// word from `next` on with which the stretch from the start of word
    /// `first` no longer fits.
    pub open spec fn line_end(
        &self,
        s: Seq<char>,
        ranges: Seq<(int, int)>,
        width: int,
        first: int,
        next: int,
    ) -> int
        decreases ranges.len() - next,
    {
        if first < 0 || next <= first || next >= ranges.len() {
            next
        } else if self.text_width(s.subrange(ranges[first].0, ranges[next].1)) <= width {
            self.line_end(s, ranges, width, first, next + 1)
        } else {
            next
        }
    }

    /// Where the lines begin and end that the words from `first` on fill.
    pub open spec fn line_ranges_from(
        &self,
        s: Seq<char>,
        ranges: Seq<(int, int)>,
        width: int,
        first: int,
    ) -> Seq<(int, int)>
        decreases ranges.len() - first,
    {
        if first < 0 || first >= ranges.len() {
            seq![]
        } else {
            let end = self.line_end(s, ranges, width, first, first + 1);
            if end <= first || end > ranges.len() {
                seq![]
            } else {
                seq![(ranges[first].0, ranges[end - 1].1)] + self.line_ranges_from(
                    s,
                    ranges,
                    width,
                    end,
                )
            }
        }
    }

    /// Where the first `max_lines` of the lines begin and end that `text`
    /// fills at `width`.
    pub open spec fn line_ranges(&self, text: Seq<char>, width: int, max_lines: int) -> Seq<
        (int, int),
    > {
        let all = self.line_ranges_from(text, word_ranges(text), width, 0);
        if all.len() <= max_lines {
            all
        } else {
            all.take(max_lines)
        }
    }

    /// The first `max_lines` of the lines that `text` fills at `width`:
    /// each the stretch of the text from the start of its first word to the
    /// end of its last.
    pub open spec fn wrapped(&self, text: Seq<char>, width: int, max_lines: int) -> Seq<
        Seq<char>,
    > {
        cut(text, self.line_ranges(text, width, max_lines))
    }

    /// The advance of `c`.
    pub fn advance(&self, c: char) -> (r: u32)
        ensures
            r == self.char_width(c),
    {
        let code = c as u32 as usize;
        if code < self.advances.len() {
            self.advances[code]
        } else {
            self.fallback
        }
    }

    /// The width of the characters `from .. to` of `chars`.
    pub fn measure(&self, chars: &Vec<char>, from: usize, to: usize) -> (r: u128)
        requires
            from <= to <= chars.len(),
        ensures
            r == self.text_width(chars@.subrange(from as int, to as int)),
            r <= (to - from) * 0xFFFF_FFFF,
    {
        let mut total: u128 = 0;
        let mut i: usize = from;
        while i < to
            invariant
                from <= i <= to <= chars.len(),
                total == self.text_width(chars@.subrange(from as int, i as int)),
                total <= (i - from) * 0xFFFF_FFFF,
            decreases to - i,
        {
            assert(chars@.subrange(from as int, i + 1).drop_last() == chars@.subrange(
                from as int,
                i as int,
            ));
            total = total + self.advance(chars[i]) as u128;
            i = i + 1;
        }
        total
    }
}

/// The width of a text is the sum of the widths of its parts.
pub proof fn lemma_text_width_concat(m: &FontMetrics, a: Seq<char>, b: Seq<char>)
    ensures
        m.text_width(a + b) == m.text_width(a) + m.text_width(b),
    decreases b.len(),
{
    if b.len() == 0 {
        assert(a + b == a);
    } else {
        assert((a + b).drop_last() == a + b.drop_last());
        lemma_text_width_concat(m, a, b.drop_last());
    }
}

/// A word that begins at `i` ends after `i` and within the text; it holds
/// no white space, and what follows it, if anything, is white space.
pub proof fn lemma_word_end(s: Seq<char>, i: int)
    requires
        0 <= i < s.len(),
        !is_space(s[i]),
    ensures
        i < word_end(s, i) <= s.len(),
        forall|p: int| i <= p < word_end(s, i) ==> !is_space(#[trigger] s[p]),
        word_end(s, i) < s.len() ==> is_space(s[word_end(s, i)]),
    decreases s.len() - i,
{
    assert(word_end(s, i) == word_end(s, i + 1));
    if i + 1 < s.len() && !is_space(s[i + 1]) {
        lemma_word_end(s, i + 1);
    } else {
        assert(word_end(s, i + 1) == i + 1);
    }
}

/// The words lie within the text, one after another with white space
/// between them. Each begins and ends with a character that is no white
/// space.
pub proof fn lemma_word_ranges(s: Seq<char>, i: int)
    requires
        0 <= i,
    ensures
        forall|j: int|
            0 <= j < word_ranges_from(s, i).len() ==> {
                let r = #[trigger] word_ranges_from(s, i)[j];
                &&& i <= r.0 < r.1 <= s.len()
                &&& !is_space(s[r.0])
                &&& !is_space(s[r.1 - 1])
            },
        forall|j: int, k: int|
            0 <= j < k < word_ranges_from(s, i).len() ==> (#[trigger] word_ranges_from(s, i)[j]).1
                < (#[trigger] word_ranges_from(s, i)[k]).0,
    decreases s.len() - i,
{
    if i < s.len() {
        if is_space(s[i]) {
            assert(word_ranges_from(s, i) == word_ranges_from(s, i + 1));
            lemma_word_ranges(s, i + 1);
        } else {
            let end = word_end(s, i);
            lemma_word_end(s, i);
            lemma_word_ranges(s, end);
            assert(!is_space(s[end - 1]));
            let rest = word_ranges_from(s, end);
            let all = word_ranges_from(s, i);
            assert(all == seq![(i, end)] + rest);
            assert forall|j: int| 0 <= j < all.len() implies {
                let r = #[trigger] all[j];
                &&& i <= r.0 < r.1 <= s.len()
                &&& !is_space(s[r.0])
                &&& !is_space(s[r.1 - 1])
            } by {
                if j > 0 {
                    assert(all[j] == rest[j - 1]);
                }
            }
            assert forall|j: int, k: int| 0 <= j < k < all.len() implies (#[trigger] all[j]).1 < (
            #[trigger] all[k]).0 by {
                assert(all[k] == rest[k - 1]);
                if j > 0 {
                    assert(all[j] == rest[j - 1]);
                } else {
                    // What follows the first word is white space, and no
                    // word begins with white space.
                    assert(rest[k - 1].0 >= end);
                    assert(!is_space(s[rest[k - 1].0]));
                }
            }
        }
    }
}

/// A line stops at or after the word it has come to, and within the words.
/// If it has taken a word beyond its first, it is at most `width` wide.
pub proof fn lemma_line_end(
    m: &FontMetrics,
    s: Seq<char>,
    ranges: Seq<(int, int)>,
    width: int,
    first: int,
    next: int,
)
    requires
        0 <= first < next <= ranges.len(),
        next > first + 1 ==> m.text_width(s.subrange(ranges[first].0, ranges[next - 1].1))
            <= width,
    ensures
        ({
            let end = m.line_end(s, ranges, width, first, next);
            &&& next <= end <= ranges.len()
            &&& end > first + 1 ==> m.text_width(s.subrange(ranges[first].0, ranges[end - 1].1))
                <= width
        }),
    decreases ranges.len() - next,
{
    if next < ranges.len() && m.text_width(s.subrange(ranges[first].0, ranges[next].1)) <= width {
        lemma_line_end(m, s, ranges, width, first, next + 1);
    }
}

/// Whether every word of the text is at most `width` wide.
pub open spec fn all_fit(m: &FontMetrics, text: Seq<char>, width: int) -> bool {
    forall|k: int|
        0 <= k < word_ranges(text).len() ==> m.text_width(
            text.subrange((#[trigger] word_ranges(text)[k]).0, word_ranges(text)[k].1),
        ) <= width
}

/// Whether the stretch `line` of the text is at most `width` wide or is
/// one of its words alone.
pub open spec fn fits_or_alone(m: &FontMetrics, text: Seq<char>, width: int, line: (int, int)) -> bool {
    m.text_width(text.subrange(line.0, line.1)) <= width || word_ranges(text).contains(line)
}

/// Whether `line` is a stretch of the text that begins and ends with a
/// character that is no white space.
pub open spec fn is_trimmed_stretch(text: Seq<char>, line: (int, int)) -> bool {
    &&& 0 <= line.0 < line.1 <= text.len()
    &&& !is_space(text[line.0])
    &&& !is_space(text[line.1 - 1])
}

/// What holds of the lines that the words from `first` on fill: see
/// [`lemma_wrapped_bounds`] and [`lemma_wrapped_stretches`].
proof fn lemma_line_ranges(m: &FontMetrics, text: Seq<char>, width: int, first: int)
    requires
        0 <= first <= word_ranges(text).len(),
    ensures
        ({
            let ranges = word_ranges(text);
            let lines = m.line_ranges_from(text, ranges, width, first);
            &&& forall|j: int|
                0 <= j < lines.len() ==> {
                    &&& fits_or_alone(m, text, width, #[trigger] lines[j])
                    &&& is_trimmed_stretch(text, lines[j])
                    &&& first < ranges.len() && ranges[first].0 <= lines[j].0
                    &&& all_fit(m, text, width) ==> m.text_width(
                        text.subrange(lines[j].0, lines[j].1),
                    ) <= width
                }
            &&& forall|j: int, k: int|
                0 <= j < k < lines.len() ==> (#[trigger] lines[j]).1 < (#[trigger] lines[k]).0
        }),
    decreases word_ranges(text).len() - first,
{
    let ranges = word_ranges(text);
    let lines = m.line_ranges_from(text, ranges, width, first);
    if first < ranges.len() {
        let end = m.line_end(text, ranges, width, first, first + 1);
        lemma_line_end(m, text, ranges, width, first, first + 1);
        lemma_word_ranges(text, 0);
        let line = (ranges[first].0, ranges[end - 1].1);
        let rest = m.line_ranges_from(text, ranges, width, end);
        lemma_line_ranges(m, text, width, end);
        assert(lines == seq![line] + rest);
        assert(end == first + 1 ==> line == ranges[first]);
        assert(first < end - 1 ==> ranges[first].1 < ranges[end - 1].0);
        assert(fits_or_alone(m, text, width, line));
        assert(is_trimmed_stretch(text, line));
        assert forall|j: int| 0 <= j < lines.len() implies {
            &&& fits_or_alone(m, text, width, #[trigger] lines[j])
            &&& is_trimmed_stretch(text, lines[j])
            &&& first < ranges.len() && ranges[first].0 <= lines[j].0
            &&& all_fit(m, text, width) ==> m.text_width(text.subrange(lines[j].0, lines[j].1))
                <= width
        } by {
            if j > 0 {
                assert(lines[j] == rest[j - 1]);
                assert(ranges[first].1 < ranges[end].0);
            }
        }
        assert forall|j: int, k: int| 0 <= j < k < lines.len() implies (#[trigger] lines[j]).1 < (
        #[trigger] lines[k]).0 by {
            assert(lines[k] == rest[k - 1]);
            if j > 0 {
                assert(lines[j] == rest[j - 1]);
            } else {
                assert(ranges[end - 1].1 < ranges[end].0);
            }
        }
    }
}

/// Wrapping never gives more than `max_lines` lines. Each line is at most
/// `width` wide unless it is a single word that is wider; where no word of
/// the text is wider than `width`, every line is at most `width` wide.
pub proof fn lemma_wrapped_bounds(m: &FontMetrics, text: Seq<char>, width: int, max_lines: int)
    requires
        0 <= max_lines,
    ensures
        m.wrapped(text, width, max_lines).len() <= max_lines,
        forall|j: int|
            0 <= j < m.wrapped(text, width, max_lines).len() ==> m.text_width(
                #[trigger] m.wrapped(text, width, max_lines)[j],
            ) <= width || words(text).contains(m.wrapped(text, width, max_lines)[j]),
        all_fit(m, text, width) ==> forall|j: int|
            0 <= j < m.wrapped(text, width, max_lines).len() ==> m.text_width(
                #[trigger] m.wrapped(text, width, max_lines)[j],
            ) <= width,
{
    lemma_line_ranges(m, text, width, 0);
    let ranges = word_ranges(text);
    let lines = m.line_ranges(text, width, max_lines);
    let got = m.wrapped(text, width, max_lines);
    assert forall|j: int| 0 <= j < got.len() implies m.text_width(#[trigger] got[j]) <= width
        || words(text).contains(got[j]) by {
        assert(fits_or_alone(m, text, width, lines[j]));
        if ranges.contains(lines[j]) {
            let k = choose|k: int| 0 <= k < ranges.len() && ranges[k] == lines[j];
            assert(words(text)[k] == got[j]);
        }
    }
    if all_fit(m, text, width) {
        assert forall|j: int| 0 <= j < got.len() implies m.text_width(#[trigger] got[j])
            <= width by {
            assert(fits_or_alone(m, text, width, lines[j]));
        }
    }
}

/// Every line is a stretch of the text that begins and ends with a
/// character that is no white space, and the lines come in the order of
/// the text, with white space between one and the next.
pub proof fn lemma_wrapped_stretches(m: &FontMetrics, text: Seq<char>, width: int, max_lines: int)
    requires
        0 <= max_lines,
    ensures
        ({
            let lines = m.line_ranges(text, width, max_lines);
            &&& m.wrapped(text, width, max_lines).len() == lines.len()
            &&& forall|j: int|
                0 <= j < lines.len() ==> {
                    &&& is_trimmed_stretch(text, #[trigger] lines[j])
                    &&& m.wrapped(text, width, max_lines)[j] == text.subrange(
                        lines[j].0,
                        lines[j].1,
                    )
                }
            &&& forall|j: int, k: int|
                0 <= j < k < lines.len() ==> (#[trigger] lines[j]).1 < (#[trigger] lines[k]).0
        }),
{
    lemma_line_ranges(m, text, width, 0);
}

/// The characters of a text.
pub fn chars_of(text: &str) -> (r: Vec<char>)
    ensures
        r@ == text@,
{
    let mut chars: Vec<char> = Vec::new();
    for c in it: text.chars()
        invariant
            chars@ == it.seq().take(it.index() as int),
    {
        chars.push(c);
    }
    chars
}

/// Whether `c` separates words.
pub fn separates(c: char) -> (r: bool)
    ensures
        r == is_space(c),
{
    let code = c as u32;
    (0x09 <= code && code <= 0x0D) || code == 0x20 || code == 0x85 || code == 0xA0 || code
        == 0x1680 || (0x2000 <= code && code <= 0x200A) || code == 0x2028 || code == 0x2029
        || code == 0x202F || code == 0x205F || code == 0x3000
}

/// Where the words of `chars` begin and end.
pub fn word_bounds(chars: &Vec<char>) -> (r: Vec<(usize, usize)>)
    ensures
        as_ints(r@) == word_ranges(chars@),
        forall|j: int| 0 <= j < r.len() ==> (#[trigger] r[j]).0 < r[j].1 <= chars.len(),
        forall|j: int, k: int| 0 <= j < k < r.len() ==> (#[trigger] r[j]).1 < (#[trigger] r[k]).0,
{
    let n = chars.len();
    let mut bounds: Vec<(usize, usize)> = Vec::new();
    let mut i: usize = 0;
    while i < n
        invariant
            n == chars.len(),
            i <= n,
            as_ints(bounds@) + word_ranges_from(chars@, i as int) == word_ranges(chars@),
        decreases n - i,
    {
        if separates(chars[i]) {
            i = i + 1;
        } else {
            let start = i;
            let mut end = i + 1;
            while end < n && !separates(chars[end])
                invariant
                    n == chars.len(),
                    start < end <= n,
                    word_end(chars@, end as int) == word_end(chars@, start as int),
                decreases n - end,
            {
                end = end + 1;
            }
            proof {
                let before = as_ints(bounds@);
                let after = as_ints(bounds@.push((start, end)));
                assert(after == before + seq![(start as int, end as int)]);
            }
            bounds.push((start, end));
            i = end;
        }
    }
    proof {
        let ranges = as_ints(bounds@);
        assert(ranges + Seq::<(int, int)>::empty() == ranges);
        lemma_word_ranges(chars@, 0);
        assert forall|j: int| 0 <= j < bounds.len() implies (#[trigger] bounds[j]).0 < bounds[j].1
            <= chars.len() by {
            assert(ranges[j] == (bounds[j].0 as int, bounds[j].1 as int));
        }
        assert forall|j: int, k: int| 0 <= j < k < bounds.len() implies (#[trigger] bounds[j]).1 < (
        #[trigger] bounds[k]).0 by {
            assert(ranges[j] == (bounds[j].0 as int, bounds[j].1 as int));
            assert(ranges[k] == (bounds[k].0 as int, bounds[k].1 as int));
        }
    }
    bounds
}

/// Breaks `text` into at most `max_lines` lines of at most `width` each.
///
/// The lines are those of [`FontMetrics::wrapped`]. Each is a stretch of
/// the text, from the start of its first word to the end of its last, with
/// the white space that the text has between its words; it takes words as
/// long as that stretch is at most `width` wide, and at least one. The
/// lines after the first `max_lines` are dropped. White space is what
/// `char::is_whitespace` counts as such. A text without words and a
/// `max_lines` of zero both give no lines. A width of zero or less is
/// refused, whatever the text.
pub fn calc_line_breaks(text: &str, width: i64, max_lines: usize, metrics: &FontMetrics) -> (r:
    Result<Vec<String>, LayoutError>)
    ensures
        match r {
            Ok(lines) => width > 0 && lines.deep_view() == metrics.wrapped(
                text@,
                width as int,
                max_lines as int,
            ) && lines.len() <= max_lines,
            Err(e) => width <= 0 && e == LayoutError::NonPositiveWidth,
        },
{
    if width <= 0 {
        return Err(LayoutError::NonPositiveWidth);
    }
    let chars = chars_of(text);
    let bounds = word_bounds(&chars);
    let ghost ranges = word_ranges(text@);
    let ghost all = metrics.line_ranges_from(text@, ranges, width as int, 0);
    let ghost mut done: Seq<(int, int)> = seq![];
    let mut lines: Vec<String> = Vec::new();
    let mut first: usize = 0;
    assert(done + all == all);
    assert(lines.deep_view() == cut(text@, done));
    while first < bounds.len() && lines.len() < max_lines
        invariant
            width > 0,
            chars@ == text@,
            ranges == word_ranges(text@),
            ranges == as_ints(bounds@),
            all == metrics.line_ranges_from(text@, ranges, width as int, 0),
            forall|j: int|
                0 <= j < bounds.len() ==> (#[trigger] bounds[j]).0 < bounds[j].1 <= chars.len(),
            forall|j: int, k: int|
                0 <= j < k < bounds.len() ==> (#[trigger] bounds[j]).1 < (#[trigger] bounds[k]).0,
            first <= bounds.len(),
            lines.len() <= max_lines,
            lines.len() == done.len(),
            lines.deep_view() == cut(text@, done),
            done + metrics.line_ranges_from(text@, ranges, width as int, first as int) == all,
        decreases bounds.len() - first,
    {
        let start = bounds[first].0;
        let mut stop = bounds[first].1;
        let mut used: u128 = metrics.measure(&chars, start, stop);
        let mut next: usize = first + 1;
        let mut fits = true;
        let ghost end = metrics.line_end(text@, ranges, width as int, first as int, first + 1);
        assert(ranges[first as int] == (start as int, stop as int));
        while fits && next < bounds.len()
            invariant
                width > 0,
                chars@ == text@,
                ranges == as_ints(bounds@),
                forall|j: int|
                    0 <= j < bounds.len() ==> (#[trigger] bounds[j]).0 < bounds[j].1
                        <= chars.len(),
                forall|j: int, k: int|
                    0 <= j < k < bounds.len() ==> (#[trigger] bounds[j]).1 < (
                    #[trigger] bounds[k]).0,
                first < next <= bounds.len(),
                start == bounds[first as int].0,
                stop == bounds[next - 1].1,
                start < stop <= chars.len(),
                used == metrics.text_width(text@.subrange(start as int, stop as int)),
                used <= (stop - start) * 0xFFFF_FFFF,
                metrics.line_end(text@, ranges, width as int, first as int, next as int) == end,
                !fits ==> end == next,
            decreases bounds.len() - next + if fits { 1int } else { 0int },
        {
            let to = bounds[next].1;
            assert(ranges[next as int] == (bounds[next as int].0 as int, to as int));
            assert(ranges[first as int].0 == start);
            assert(bounds[next - 1].1 < bounds[next as int].0);
            proof {
                lemma_text_width_concat(
                    metrics,
                    text@.subrange(start as int, stop as int),
                    text@.subrange(stop as int, to as int),
                );
                assert(text@.subrange(start as int, stop as int) + text@.subrange(
                    stop as int,
                    to as int,
                ) == text@.subrange(start as int, to as int));
            }
            let more: u128 = used + metrics.measure(&chars, stop, to);
            if more <= width as u128 {
                stop = to;
                used = more;
                next = next + 1;
            } else {
                fits = false;
            }
        }
        let line = String::from_str(text.substring_char(start, stop));
        proof {
            lemma_line_end(metrics, text@, ranges, width as int, first as int, first + 1);
            assert(ranges[end - 1] == (bounds[end - 1].0 as int, stop as int));
            let here = (start as int, stop as int);
            assert(metrics.line_ranges_from(text@, ranges, width as int, first as int) == seq![
                here,
            ] + metrics.line_ranges_from(text@, ranges, width as int, end));
            assert(done.push(here) + metrics.line_ranges_from(text@, ranges, width as int, end)
                == all);
            assert(cut(text@, done.push(here)) == cut(text@, done).push(line@));
            done = done.push(here);
        }
        let ghost before = lines.deep_view();
        lines.push(line);
        assert(lines.deep_view() == before.push(line@));
        first = next;
    }
    proof {
        let rest = metrics.line_ranges_from(text@, ranges, width as int, first as int);
        if first >= bounds.len() {
            assert(done + rest == done);
        } else {
            lemma_line_end(metrics, text@, ranges, width as int, first as int, first + 1);
            assert(rest.len() >= 1);
            assert(all.take(max_lines as int) == done);
        }
    }
    Ok(lines)
}

} // verus!
