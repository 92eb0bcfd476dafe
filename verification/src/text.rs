//! White-space processing and wrap resolution for text runs.

use vstd::prelude::*;

use crate::seqs::lemma_filter_push;
use vstd::std_specs::iter::IteratorSpec;

verus! {

/// CSS `white-space`.
#[derive(Clone, Copy, Debug, PartialEq, Eq, Structural)]
pub enum TextWhiteSpace {
    Normal,
    NoWrap,
    Pre,
    PreWrap,
    PreLine,
    BreakSpaces,
}

/// CSS `word-break`.
#[derive(Clone, Copy, Debug, PartialEq, Eq, Structural)]
pub enum TextWordBreak {
    Normal,
    BreakAll,
    KeepAll,
}

/// CSS `overflow-wrap`.
#[derive(Clone, Copy, Debug, PartialEq, Eq, Structural)]
pub enum TextOverflowWrap {
    Normal,
    BreakWord,
    Anywhere,
}

/// Where a shaped line may break.
#[derive(Clone, Copy, Debug, PartialEq, Eq, Structural)]
pub enum TextWrap {
    NoWrap,
    Word,
    Glyph,
    WordOrGlyph,
}

/// A generic font family or a named one.
#[derive(Clone, Debug)]
pub enum FontFamily {
    Serif,
    SansSerif,
    Monospace,
    Cursive,
    Fantasy,
    Named(String),
}

/// The break opportunities that `white-space`, `word-break` and
/// `overflow-wrap` allow together.
pub open spec fn text_wrap_spec(
    white_space: TextWhiteSpace,
    word_break: TextWordBreak,
    overflow_wrap: TextOverflowWrap,
) -> TextWrap {
    if white_space == TextWhiteSpace::NoWrap || white_space == TextWhiteSpace::Pre {
        TextWrap::NoWrap
    } else if white_space == TextWhiteSpace::BreakSpaces {
        TextWrap::Glyph
    } else {
        match word_break {
            TextWordBreak::BreakAll => TextWrap::Glyph,
            TextWordBreak::KeepAll => TextWrap::Word,
            TextWordBreak::Normal => match overflow_wrap {
                TextOverflowWrap::Normal => TextWrap::Word,
                TextOverflowWrap::BreakWord => TextWrap::WordOrGlyph,
                TextOverflowWrap::Anywhere => TextWrap::Glyph,
            },
        }
    }
}

/// Wrap resolution, as a law: `nowrap` and `pre` never wrap;
/// `break-spaces` breaks between glyphs; under the other wrapping
/// white-space values (`normal`, `pre-wrap`, `pre-line`) the result does not
/// depend on which of them applies: `word-break: break-all` breaks between
/// glyphs, `keep-all` between words, and with `word-break: normal`
/// `overflow-wrap` decides (`normal`: words, `break-word`: words and, for
/// overlong words, glyphs, `anywhere`: glyphs).
pub proof fn lemma_wrap_rule(
    white_space: TextWhiteSpace,
    other: TextWhiteSpace,
    word_break: TextWordBreak,
    overflow_wrap: TextOverflowWrap,
)
    ensures
        white_space == TextWhiteSpace::NoWrap || white_space == TextWhiteSpace::Pre ==> text_wrap_spec(
            white_space,
            word_break,
            overflow_wrap,
        ) == TextWrap::NoWrap,
        white_space == TextWhiteSpace::BreakSpaces ==> text_wrap_spec(white_space, word_break, overflow_wrap)
            == TextWrap::Glyph,
        (white_space == TextWhiteSpace::Normal || white_space == TextWhiteSpace::PreWrap || white_space
            == TextWhiteSpace::PreLine) && (other == TextWhiteSpace::Normal || other
            == TextWhiteSpace::PreWrap || other == TextWhiteSpace::PreLine) ==> text_wrap_spec(
            white_space,
            word_break,
            overflow_wrap,
        ) == text_wrap_spec(other, word_break, overflow_wrap),
        white_space == TextWhiteSpace::Normal ==> {
            &&& text_wrap_spec(white_space, TextWordBreak::BreakAll, overflow_wrap) == TextWrap::Glyph
            &&& text_wrap_spec(white_space, TextWordBreak::KeepAll, overflow_wrap) == TextWrap::Word
            &&& text_wrap_spec(white_space, TextWordBreak::Normal, TextOverflowWrap::Normal)
                == TextWrap::Word
            &&& text_wrap_spec(white_space, TextWordBreak::Normal, TextOverflowWrap::BreakWord)
                == TextWrap::WordOrGlyph
            &&& text_wrap_spec(white_space, TextWordBreak::Normal, TextOverflowWrap::Anywhere)
                == TextWrap::Glyph
        },
{
}

pub fn resolve_text_wrap(
    white_space: TextWhiteSpace,
    word_break: TextWordBreak,
    overflow_wrap: TextOverflowWrap,
) -> (r: TextWrap)
    ensures
        r == text_wrap_spec(white_space, word_break, overflow_wrap),
{
    let wrapping_allowed = match white_space {
        TextWhiteSpace::NoWrap | TextWhiteSpace::Pre => false,
        _ => true,
    };
    if !wrapping_allowed {
        return TextWrap::NoWrap;
    }
    if white_space == TextWhiteSpace::BreakSpaces {
        return TextWrap::Glyph;
    }
    match word_break {
        TextWordBreak::BreakAll => TextWrap::Glyph,
        TextWordBreak::KeepAll => TextWrap::Word,
        TextWordBreak::Normal => match overflow_wrap {
            TextOverflowWrap::Normal => TextWrap::Word,
            TextOverflowWrap::BreakWord => TextWrap::WordOrGlyph,
            TextOverflowWrap::Anywhere => TextWrap::Glyph,
        },
    }
}

/// Unicode `White_Space`, the property that `char::is_whitespace` tests.
pub open spec fn is_white_space(c: char) -> bool {
    let u = c as u32;
    (0x9 <= u <= 0xD) || u == 0x20 || u == 0x85 || u == 0xA0 || u == 0x1680 || (0x2000 <= u
        <= 0x200A) || u == 0x2028 || u == 0x2029 || u == 0x202F || u == 0x205F || u == 0x3000
}

pub fn white_space_char(c: char) -> (r: bool)
    ensures
        r == is_white_space(c),
{
    let u = c as u32;
    (0x9 <= u && u <= 0xD) || u == 0x20 || u == 0x85 || u == 0xA0 || u == 0x1680 || (0x2000 <= u
        && u <= 0x200A) || u == 0x2028 || u == 0x2029 || u == 0x202F || u == 0x205F || u == 0x3000
}

/// The characters of a string, read one by one with `str::chars`.
pub(crate) fn chars_of(s: &str) -> (r: Vec<char>)
    ensures
        r@ == s@,
{
    broadcast use vstd::string::axiom_spec_iter, vstd::string::next_postcondition;

    let mut it = s.chars();
    let mut r: Vec<char> = Vec::new();
    loop
        invariant_except_break
            r@ + IteratorSpec::remaining(&it) == s@,
            IteratorSpec::decrease(&it) is Some,
        ensures
            r@ == s@,
        decreases IteratorSpec::decrease(&it)->0,
    {
        let ghost before = IteratorSpec::remaining(&it);
        match it.next() {
            Some(c) => {
                proof {
                    assert(r@.push(c) + IteratorSpec::remaining(&it) =~= r@ + before);
                }
                r.push(c);
            },
            None => {
                proof {
                    assert(r@ + before =~= r@);
                }
                break;
            },
        }
    }
    r
}

/// `s` without its trailing spaces.
pub open spec fn trim_trailing_spaces(s: Seq<char>) -> Seq<char>
    decreases s.len(),
{
    if s.len() > 0 && s.last() == ' ' {
        trim_trailing_spaces(s.drop_last())
    } else {
        s
    }
}

/// White-space collapsing as a left-to-right scan: the text produced so far
/// and whether a collapsed space is waiting for the next visible character.
/// Runs of white space become one space between visible characters; runs at
/// the start, at the end and (when newlines are kept) around a newline
/// vanish.
pub open spec fn collapse_scan(s: Seq<char>, preserve_newlines: bool) -> (Seq<char>, bool)
    decreases s.len(),
{
    if s.len() == 0 {
        (Seq::empty(), false)
    } else {
        let (out, pending) = collapse_scan(s.drop_last(), preserve_newlines);
        let c = s.last();
        if c == '\n' && preserve_newlines {
            (trim_trailing_spaces(out).push('\n'), false)
        } else if is_white_space(c) {
            (out, out.len() > 0 && out.last() != '\n')
        } else {
            ((if pending {
                out.push(' ')
            } else {
                out
            }).push(c), false)
        }
    }
}

pub open spec fn collapse_spec(s: Seq<char>, preserve_newlines: bool) -> Seq<char> {
    collapse_scan(s, preserve_newlines).0
}

/// Collapses white space in `text`.
pub fn collapse_white_space(text: &str, preserve_newlines: bool) -> (r: String)
    ensures
        r@ == collapse_spec(text@, preserve_newlines),
{
    let chars = chars_of(text);
    let mut result: Vec<char> = Vec::new();
    let mut pending_space = false;
    let mut i: usize = 0;
    while i < chars.len()
        invariant
            chars@ == text@,
            i <= chars@.len(),
            (result@, pending_space) == collapse_scan(chars@.subrange(0, i as int), preserve_newlines),
        decreases chars@.len() - i,
    {
        let c = chars[i];
        proof {
            assert(chars@.subrange(0, i + 1).drop_last() =~= chars@.subrange(0, i as int));
        }
        if c == '\n' && preserve_newlines {
            let ghost before = result@;
            while result.len() > 0 && result[result.len() - 1] == ' '
                invariant
                    trim_trailing_spaces(result@) == trim_trailing_spaces(before),
                decreases result@.len(),
            {
                proof {
                    assert(result@.drop_last() == result@.subrange(0, result@.len() - 1));
                }
                result.pop();
            }
            result.push('\n');
            pending_space = false;
        } else if white_space_char(c) {
            pending_space = result.len() > 0 && result[result.len() - 1] != '\n';
        } else {
            if pending_space {
                result.push(' ');
            }
            result.push(c);
            pending_space = false;
        }
        i = i + 1;
    }
    proof {
        assert(chars@.subrange(0, chars@.len() as int) =~= chars@);
    }
    crate::node_id::string_from_chars(&result)
}

/// What collapsing keeps as it is: visible characters, and newlines when
/// they are kept.
pub open spec fn kept_char(preserve_newlines: bool) -> spec_fn(char) -> bool {
    |c: char| !is_white_space(c) || (preserve_newlines && c == '\n')
}

/// The shape of collapsed text: its only white space is single spaces
/// between visible characters (and newlines, when they are kept), with no
/// space at either end.
pub open spec fn collapsed_shape(out: Seq<char>, preserve_newlines: bool) -> bool {
    &&& forall|i: int|
        0 <= i < out.len() && is_white_space(#[trigger] out[i]) ==> out[i] == ' ' || (
        preserve_newlines && out[i] == '\n')
    &&& out.len() > 0 ==> out[0] != ' ' && out.last() != ' '
    &&& forall|i: int|
        0 <= i < out.len() && #[trigger] out[i] == ' ' ==> 0 < i < out.len() - 1 && !is_white_space(
            out[i - 1],
        ) && !is_white_space(out[i + 1])
}

/// `s` less its trailing spaces is a prefix of `s` that ends in another
/// character, and only spaces follow it.
proof fn lemma_trim(s: Seq<char>)
    ensures
        trim_trailing_spaces(s).len() <= s.len(),
        trim_trailing_spaces(s) == s.subrange(0, trim_trailing_spaces(s).len() as int),
        forall|j: int| trim_trailing_spaces(s).len() <= j < s.len() ==> s[j] == ' ',
        trim_trailing_spaces(s).len() > 0 ==> trim_trailing_spaces(s).last() != ' ',
    decreases s.len(),
{
    if s.len() > 0 && s.last() == ' ' {
        let d = s.drop_last();
        lemma_trim(d);
        let t = trim_trailing_spaces(d);
        assert(d.subrange(0, t.len() as int) =~= s.subrange(0, t.len() as int));
        assert forall|j: int| t.len() <= j < s.len() implies s[j] == ' ' by {
            if j < d.len() {
                assert(s[j] == d[j]);
            }
        }
    } else {
        assert(s.subrange(0, s.len() as int) =~= s);
    }
}

/// The collapse scan keeps the collapsed shape, keeps the kept characters
/// in order, and holds a space back only after a character other than a
/// newline.
proof fn lemma_collapse_scan(s: Seq<char>, p: bool)
    ensures
        collapsed_shape(collapse_scan(s, p).0, p),
        collapse_scan(s, p).0.filter(kept_char(p)) == s.filter(kept_char(p)),
        collapse_scan(s, p).1 ==> collapse_scan(s, p).0.len() > 0 && collapse_scan(s, p).0.last()
            != '\n',
    decreases s.len(),
{
    reveal_with_fuel(Seq::filter, 1);
    if s.len() == 0 {
        assert(s.filter(kept_char(p)) =~= Seq::<char>::empty()) by {
            reveal(Seq::filter);
        }
        assert(collapse_scan(s, p).0.filter(kept_char(p)) =~= Seq::<char>::empty()) by {
            reveal(Seq::filter);
        }
    } else {
        let prev = s.drop_last();
        lemma_collapse_scan(prev, p);
        let (out, pending) = collapse_scan(prev, p);
        let c = s.last();
        assert(prev.push(c) =~= s);
        lemma_filter_push(prev, c, kept_char(p));
        assert(is_white_space(' '));
        assert(is_white_space('\n'));
        if c == '\n' && p {
            lemma_trim(out);
            let t = trim_trailing_spaces(out);
            let tail = out.subrange(t.len() as int, out.len() as int);
            assert(out =~= t + tail);
            assert forall|j: int| 0 <= j < tail.len() implies !kept_char(p)(tail[j]) by {
                assert(tail[j] == out[t.len() + j]);
            }
            tail.lemma_all_neg_filter_empty(kept_char(p));
            assert(tail.filter(kept_char(p)) =~= Seq::<char>::empty());
            Seq::filter_distributes_over_add(t, tail, kept_char(p));
            assert(t.filter(kept_char(p)) =~= out.filter(kept_char(p)));
            lemma_filter_push(t, '\n', kept_char(p));
            let n = t.push('\n');
            assert forall|i: int| 0 <= i < n.len() && #[trigger] n[i] == ' ' implies 0 < i < n.len() - 1
                && !is_white_space(n[i - 1]) && !is_white_space(n[i + 1]) by {
                assert(i < t.len());
                assert(n[i] == out[i]);
                assert(out[i] == ' ');
                assert(i + 1 < t.len()) by {
                    if i + 1 == t.len() {
                        assert(t.last() == out[i]);
                    }
                }
                assert(n[i - 1] == out[i - 1]);
                assert(n[i + 1] == out[i + 1]);
            }
            assert forall|i: int| 0 <= i < n.len() && is_white_space(#[trigger] n[i]) implies n[i]
                == ' ' || (p && n[i] == '\n') by {
                if i < t.len() {
                    assert(n[i] == out[i]);
                }
            }
            if t.len() > 0 {
                assert(n[0] == out[0]);
            }
        } else if is_white_space(c) {
        } else {
            let base = if pending {
                out.push(' ')
            } else {
                out
            };
            let n = base.push(c);
            lemma_filter_push(out, ' ', kept_char(p));
            lemma_filter_push(base, c, kept_char(p));
            if pending {
                assert(!is_white_space(out.last())) by {
                    if is_white_space(out.last()) {
                        assert(out[out.len() - 1] == out.last());
                    }
                }
            }
            assert forall|i: int| 0 <= i < n.len() && #[trigger] n[i] == ' ' implies 0 < i < n.len() - 1
                && !is_white_space(n[i - 1]) && !is_white_space(n[i + 1]) by {
                if i < out.len() {
                    assert(n[i] == out[i]);
                    assert(out[i] == ' ');
                    assert(n[i - 1] == out[i - 1]);
                    if i + 1 < out.len() {
                        assert(n[i + 1] == out[i + 1]);
                    } else {
                        assert(out.last() == out[i]);
                    }
                } else if i == out.len() && pending {
                    assert(n[i - 1] == out.last());
                    assert(n[i + 1] == c);
                } else {
                    assert(n[i] == c);
                }
            }
            assert forall|i: int| 0 <= i < n.len() && is_white_space(#[trigger] n[i]) implies n[i]
                == ' ' || (p && n[i] == '\n') by {
                if i < out.len() {
                    assert(n[i] == out[i]);
                }
            }
            if out.len() > 0 {
                assert(n[0] == out[0]);
            }
        }
    }
}

/// White-space collapsing, as a law: the result has the collapsed shape
/// (single spaces between visible characters, none at either end, newlines
/// only where they are kept), and it keeps the visible characters (and the
/// kept newlines) of the text, in order.
pub proof fn lemma_collapse_law(text: Seq<char>, preserve_newlines: bool)
    ensures
        collapsed_shape(collapse_spec(text, preserve_newlines), preserve_newlines),
        collapse_spec(text, preserve_newlines).filter(kept_char(preserve_newlines)) == text.filter(
            kept_char(preserve_newlines),
        ),
{
    lemma_collapse_scan(text, preserve_newlines);
}

/// The text as `white-space` lays it out: kept as is for the preserving
/// modes, collapsed otherwise (keeping newlines for `pre-line`).
pub open spec fn normalize_spec(text: Seq<char>, mode: TextWhiteSpace) -> Seq<char> {
    match mode {
        TextWhiteSpace::Pre | TextWhiteSpace::PreWrap | TextWhiteSpace::BreakSpaces => text,
        TextWhiteSpace::Normal | TextWhiteSpace::NoWrap => collapse_spec(text, false),
        TextWhiteSpace::PreLine => collapse_spec(text, true),
    }
}

pub fn normalize_white_space(text: &str, mode: TextWhiteSpace) -> (r: String)
    ensures
        r@ == normalize_spec(text@, mode),
{
    match mode {
        TextWhiteSpace::Pre | TextWhiteSpace::PreWrap | TextWhiteSpace::BreakSpaces => {
            text.to_owned()
        },
        TextWhiteSpace::Normal | TextWhiteSpace::NoWrap => collapse_white_space(text, false),
        TextWhiteSpace::PreLine => collapse_white_space(text, true),
    }
}

/// ASCII lower-casing, as `str::to_ascii_lowercase` does it.
pub open spec fn ascii_lower(s: Seq<char>) -> Seq<char> {
    s.map_values(|c: char| if 'A' <= c <= 'Z' {
        ((c as u32) + 32) as char
    } else {
        c
    })
}

/// The value of a [`FontFamily`].
pub enum FontFamilyView {
    Serif,
    SansSerif,
    Monospace,
    Cursive,
    Fantasy,
    Named(Seq<char>),
}

impl FontFamily {
    pub open spec fn view(&self) -> FontFamilyView {
        match self {
            FontFamily::Serif => FontFamilyView::Serif,
            FontFamily::SansSerif => FontFamilyView::SansSerif,
            FontFamily::Monospace => FontFamilyView::Monospace,
            FontFamily::Cursive => FontFamilyView::Cursive,
            FontFamily::Fantasy => FontFamilyView::Fantasy,
            FontFamily::Named(name) => FontFamilyView::Named(name@),
        }
    }
}

/// A CSS generic family keyword, matched without regard to ASCII case, or
/// the family name as written.
pub open spec fn font_family_spec(family: Seq<char>) -> FontFamilyView {
    let lower = ascii_lower(family);
    if lower == "serif"@ {
        FontFamilyView::Serif
    } else if lower == "sans-serif"@ {
        FontFamilyView::SansSerif
    } else if lower == "monospace"@ {
        FontFamilyView::Monospace
    } else if lower == "cursive"@ {
        FontFamilyView::Cursive
    } else if lower == "fantasy"@ {
        FontFamilyView::Fantasy
    } else {
        FontFamilyView::Named(family)
    }
}

pub(crate) fn chars_eq_str(a: &Vec<char>, b: &str) -> (r: bool)
    ensures
        r == (a@ == b@),
{
    let n = b.unicode_len();
    if a.len() != n {
        return false;
    }
    let mut i: usize = 0;
    while i < n
        invariant
            n == b@.len(),
            n == a@.len(),
            i <= n,
            forall|j: int| 0 <= j < i ==> a@[j] == b@[j],
        decreases n - i,
    {
        if a[i] != b.get_char(i) {
            return false;
        }
        i = i + 1;
    }
    proof {
        assert(a@ =~= b@);
    }
    true
}

/// The characters of `s`, ASCII upper case turned to lower case.
pub(crate) fn ascii_lowercase(s: &str) -> (r: Vec<char>)
    ensures
        r@ == ascii_lower(s@),
{
    let chars = chars_of(s);
    let mut lower: Vec<char> = Vec::new();
    let mut i: usize = 0;
    while i < chars.len()
        invariant
            chars@ == s@,
            i <= chars@.len(),
            lower@ == ascii_lower(chars@.subrange(0, i as int)),
        decreases chars@.len() - i,
    {
        let c = chars[i];
        let l = if 'A' <= c && c <= 'Z' {
            ((c as u32) + 32) as u8 as char
        } else {
            c
        };
        lower.push(l);
        proof {
            assert(ascii_lower(chars@.subrange(0, i + 1)) =~= ascii_lower(
                chars@.subrange(0, i as int),
            ).push(l));
        }
        i = i + 1;
    }
    proof {
        assert(chars@.subrange(0, chars@.len() as int) =~= chars@);
    }
    lower
}

pub fn font_family(family: &str) -> (r: FontFamily)
    ensures
        r@ == font_family_spec(family@),
{
    let lower = ascii_lowercase(family);
    if chars_eq_str(&lower, "serif") {
        FontFamily::Serif
    } else if chars_eq_str(&lower, "sans-serif") {
        FontFamily::SansSerif
    } else if chars_eq_str(&lower, "monospace") {
        FontFamily::Monospace
    } else if chars_eq_str(&lower, "cursive") {
        FontFamily::Cursive
    } else if chars_eq_str(&lower, "fantasy") {
        FontFamily::Fantasy
    } else {
        FontFamily::Named(family.to_owned())
    }
}

/// A run of text drawn in one style. Equal style keys stand for equal styles.
#[derive(Clone, Debug)]
pub struct TextSpan {
    pub text: String,
    pub style: u64,
}

impl TextSpan {
    pub open spec fn view(&self) -> (Seq<char>, u64) {
        (self.text@, self.style)
    }
}

pub open spec fn spans_view(spans: Seq<TextSpan>) -> Seq<(Seq<char>, u64)> {
    spans.map_values(|s: TextSpan| s@)
}

/// Each character of `text` paired with `style`.
pub open spec fn styled(text: Seq<char>, style: u64) -> Seq<(char, u64)> {
    text.map_values(|c: char| (c, style))
}

/// The styled characters of a span list, in order.
pub open spec fn flatten(spans: Seq<(Seq<char>, u64)>) -> Seq<(char, u64)>
    decreases spans.len(),
{
    if spans.len() == 0 {
        Seq::empty()
    } else {
        flatten(spans.drop_last()) + styled(spans.last().0, spans.last().1)
    }
}

/// Adds one styled character, extending the last span when its style is
/// the same.
pub open spec fn append_styled(spans: Seq<(Seq<char>, u64)>, c: char, style: u64) -> Seq<
    (Seq<char>, u64),
> {
    if spans.len() > 0 && spans.last().1 == style {
        spans.update(spans.len() - 1, (spans.last().0.push(c), style))
    } else {
        spans.push((seq![c], style))
    }
}

/// Groups styled characters into maximal runs of one style.
pub open spec fn group_styled(items: Seq<(char, u64)>) -> Seq<(Seq<char>, u64)>
    decreases items.len(),
{
    if items.len() == 0 {
        Seq::empty()
    } else {
        append_styled(group_styled(items.drop_last()), items.last().0, items.last().1)
    }
}

/// The scan state of span normalization: the characters kept so far, the
/// style of a pending collapsed space, whether any text was kept, and
/// whether the last kept character is a newline.
pub open spec fn span_scan(items: Seq<(char, u64)>, preserve_newlines: bool) -> (
    Seq<(char, u64)>,
    Option<u64>,
    bool,
    bool,
)
    decreases items.len(),
{
    if items.len() == 0 {
        (Seq::empty(), None, false, false)
    } else {
        let (out, pending, has_text, ends_nl) = span_scan(items.drop_last(), preserve_newlines);
        let (c, style) = items.last();
        if c == '\n' && preserve_newlines {
            (out.push(('\n', style)), None, true, true)
        } else if is_white_space(c) {
            if has_text && !ends_nl && pending is None {
                (out, Some(style), has_text, ends_nl)
            } else {
                (out, pending, has_text, ends_nl)
            }
        } else {
            let with_space = match pending {
                Some(ps) => out.push((' ', ps)),
                None => out,
            };
            (with_space.push((c, style)), None, true, false)
        }
    }
}

/// Spans as `white-space` lays them out: collapsed space takes the style of
/// the first white-space character of its run.
pub open spec fn normalize_spans_spec(spans: Seq<(Seq<char>, u64)>, mode: TextWhiteSpace) -> Seq<
    (Seq<char>, u64),
> {
    match mode {
        TextWhiteSpace::Pre | TextWhiteSpace::PreWrap | TextWhiteSpace::BreakSpaces => spans,
        _ => group_styled(span_scan(flatten(spans), mode == TextWhiteSpace::PreLine).0),
    }
}

/// The characters of a span list, in order.
pub open spec fn text_of(spans: Seq<(Seq<char>, u64)>) -> Seq<char> {
    flatten(spans).map_values(|x: (char, u64)| x.0)
}

/// Every span holds text, and neighbouring spans differ in style.
pub open spec fn maximal_runs(spans: Seq<(Seq<char>, u64)>) -> bool {
    &&& forall|i: int| 0 <= i < spans.len() ==> (#[trigger] spans[i]).0.len() > 0
    &&& forall|i: int| 0 < i < spans.len() ==> (#[trigger] spans[i]).1 != spans[i - 1].1
}

/// Grouping styled characters into runs loses none of them, and gives
/// maximal runs.
proof fn lemma_group_styled(items: Seq<(char, u64)>)
    ensures
        flatten(group_styled(items)) == items,
        maximal_runs(group_styled(items)),
    decreases items.len(),
{
    if items.len() > 0 {
        let prev = items.drop_last();
        lemma_group_styled(prev);
        let g = group_styled(prev);
        let (c, st) = items.last();
        assert(prev.push((c, st)) =~= items);
        if g.len() > 0 && g.last().1 == st {
            let t = g.last().0;
            let g2 = g.update(g.len() - 1, (t.push(c), st));
            assert(g2.drop_last() =~= g.drop_last());
            assert(styled(t.push(c), st) =~= styled(t, st).push((c, st)));
            assert(flatten(g2) == flatten(g2.drop_last()) + styled(t.push(c), st));
            assert(flatten(g) == flatten(g.drop_last()) + styled(t, st));
            assert(flatten(g2) =~= flatten(g).push((c, st)));
        } else {
            let g2 = g.push((seq![c], st));
            assert(g2.drop_last() =~= g);
            assert(styled(seq![c], st) =~= seq![(c, st)]);
            assert(flatten(g2) =~= flatten(g).push((c, st)));
        }
    }
}

/// Span normalization keeps exactly the characters that collapsing the
/// plain text keeps, and its pending space and flags follow the plain scan.
proof fn lemma_span_scan(items: Seq<(char, u64)>, p: bool)
    ensures
        ({
            let (out, pending, has_text, ends_nl) = span_scan(items, p);
            let (plain, plain_pending) = collapse_scan(items.map_values(|x: (char, u64)| x.0), p);
            &&& out.map_values(|x: (char, u64)| x.0) == plain
            &&& (pending is Some <==> plain_pending)
            &&& (has_text <==> plain.len() > 0)
            &&& (ends_nl <==> plain.len() > 0 && plain.last() == '\n')
        }),
    decreases items.len(),
{
    let f = |x: (char, u64)| x.0;
    if items.len() > 0 {
        let prev = items.drop_last();
        lemma_span_scan(prev, p);
        assert(items.map_values(f).drop_last() =~= prev.map_values(f));
        let chars = items.map_values(f);
        assert(chars.last() == items.last().0);
        lemma_collapse_scan(prev.map_values(f), p);
        let (out, pending, has_text, ends_nl) = span_scan(prev, p);
        let (plain, plain_pending) = collapse_scan(prev.map_values(f), p);
        let (c, st) = items.last();
        if c == '\n' && p {
            assert(trim_trailing_spaces(plain) == plain);
            assert(out.push(('\n', st)).map_values(f) =~= plain.push('\n'));
        } else if is_white_space(c) {
        } else {
            match pending {
                Some(ps) => {
                    assert(out.push((' ', ps)).push((c, st)).map_values(f) =~= plain.push(' ').push(c));
                },
                None => {
                    assert(out.push((c, st)).map_values(f) =~= plain.push(c));
                },
            }
        }
    } else {
        assert(span_scan(items, p).0.map_values(f) =~= Seq::<char>::empty());
    }
}

/// Span normalization, as a law: the spans' text is the white-space
/// normalization of their joined text, in every mode; in the collapsing
/// modes every span holds text and neighbouring spans differ in style.
pub proof fn lemma_normalize_spans_law(spans: Seq<(Seq<char>, u64)>, mode: TextWhiteSpace)
    ensures
        text_of(normalize_spans_spec(spans, mode)) == normalize_spec(text_of(spans), mode),
        !(mode == TextWhiteSpace::Pre || mode == TextWhiteSpace::PreWrap || mode
            == TextWhiteSpace::BreakSpaces) ==> maximal_runs(normalize_spans_spec(spans, mode)),
{
    match mode {
        TextWhiteSpace::Pre | TextWhiteSpace::PreWrap | TextWhiteSpace::BreakSpaces => {},
        _ => {
            let p = mode == TextWhiteSpace::PreLine;
            let items = flatten(spans);
            let out = span_scan(items, p).0;
            lemma_span_scan(items, p);
            lemma_group_styled(out);
            assert(text_of(group_styled(out)) == out.map_values(|x: (char, u64)| x.0));
            assert(text_of(spans) == items.map_values(|x: (char, u64)| x.0));
        },
    }
}

/// Appends a character, extending the last span when it has the same style.
pub fn append_styled_character(spans: &mut Vec<TextSpan>, character: char, style: u64)
    ensures
        spans_view(final(spans)@) == append_styled(spans_view(old(spans)@), character, style),
{
    let n = spans.len();
    if n > 0 && spans[n - 1].style == style {
        let mut last = spans.pop().unwrap();
        let mut chars = chars_of(last.text.as_str());
        chars.push(character);
        last.text = crate::node_id::string_from_chars(&chars);
        spans.push(last);
        proof {
            assert(spans_view(spans@) =~= append_styled(spans_view(old(spans)@), character, style));
        }
    } else {
        let mut one: Vec<char> = Vec::new();
        one.push(character);
        spans.push(TextSpan { text: crate::node_id::string_from_chars(&one), style });
        proof {
            assert(one@ =~= seq![character]);
            assert(spans_view(spans@) =~= append_styled(spans_view(old(spans)@), character, style));
        }
    }
}

fn clone_spans(spans: &Vec<TextSpan>) -> (r: Vec<TextSpan>)
    ensures
        spans_view(r@) == spans_view(spans@),
{
    let mut out: Vec<TextSpan> = Vec::new();
    let mut i: usize = 0;
    while i < spans.len()
        invariant
            i <= spans@.len(),
            out@.len() == i,
            spans_view(out@) == spans_view(spans@.subrange(0, i as int)),
        decreases spans@.len() - i,
    {
        let ghost before = out@;
        out.push(TextSpan { text: spans[i].text.clone(), style: spans[i].style });
        proof {
            assert(out@ == before.push(out@.last()));
            assert(out@.last()@ == spans@[i as int]@);
            assert(spans@.subrange(0, i + 1) =~= spans@.subrange(0, i as int).push(spans@[i as int]));
            assert forall|k: int| 0 <= k < i + 1 implies spans_view(out@)[k] == spans_view(
                spans@.subrange(0, i + 1),
            )[k] by {
                if k < i {
                    assert(out@[k] == before[k]);
                    assert(spans_view(before)[k] == spans_view(spans@.subrange(0, i as int))[k]);
                }
            }
            assert(spans_view(out@) =~= spans_view(spans@.subrange(0, i + 1)));
        }
        i = i + 1;
    }
    proof {
        assert(spans@.subrange(0, spans@.len() as int) =~= spans@);
    }
    out
}

/// Normalizes white space across a run of styled spans.
pub fn normalize_text_spans(spans: &Vec<TextSpan>, mode: TextWhiteSpace) -> (r: Vec<TextSpan>)
    ensures
        spans_view(r@) == normalize_spans_spec(spans_view(spans@), mode),
{
    match mode {
        TextWhiteSpace::Pre | TextWhiteSpace::PreWrap | TextWhiteSpace::BreakSpaces => {
            return clone_spans(spans);
        },
        _ => {},
    }
    let preserve_newlines = mode == TextWhiteSpace::PreLine;
    let mut result: Vec<TextSpan> = Vec::new();
    let mut pending_space: Option<u64> = None;
    let mut has_text = false;
    let mut ends_with_newline = false;
    let ghost mut kept: Seq<(char, u64)> = Seq::empty();
    let mut i: usize = 0;
    while i < spans.len()
        invariant
            i <= spans@.len(),
            preserve_newlines == (mode == TextWhiteSpace::PreLine),
            (kept, pending_space, has_text, ends_with_newline) == span_scan(
                flatten(spans_view(spans@.subrange(0, i as int))),
                preserve_newlines,
            ),
            spans_view(result@) == group_styled(kept),
        decreases spans@.len() - i,
    {
        let style = spans[i].style;
        let chars = chars_of(spans[i].text.as_str());
        let ghost base = flatten(spans_view(spans@.subrange(0, i as int)));
        let mut j: usize = 0;
        while j < chars.len()
            invariant
                i < spans@.len(),
                j <= chars@.len(),
                chars@ == spans@[i as int].text@,
                style == spans@[i as int].style,
                preserve_newlines == (mode == TextWhiteSpace::PreLine),
                (kept, pending_space, has_text, ends_with_newline) == span_scan(
                    base + styled(chars@.subrange(0, j as int), style),
                    preserve_newlines,
                ),
                spans_view(result@) == group_styled(kept),
            decreases chars@.len() - j,
        {
            let c = chars[j];
            let ghost items = base + styled(chars@.subrange(0, j + 1), style);
            proof {
                assert(items.drop_last() =~= base + styled(chars@.subrange(0, j as int), style));
                assert(items.last() == (c, style));
            }
            if c == '\n' && preserve_newlines {
                append_styled_character(&mut result, '\n', style);
                proof {
                    let k0 = kept;
                    kept = kept.push(('\n', style));
                    assert(kept.drop_last() =~= k0);
                    assert(group_styled(kept) == append_styled(group_styled(k0), '\n', style));
                }
                pending_space = None;
                has_text = true;
                ends_with_newline = true;
            } else if white_space_char(c) {
                if has_text && !ends_with_newline && pending_space.is_none() {
                    pending_space = Some(style);
                }
            } else {
                match pending_space {
                    Some(space_style) => {
                        append_styled_character(&mut result, ' ', space_style);
                        proof {
                            let k0 = kept;
                            kept = kept.push((' ', space_style));
                            assert(kept.drop_last() =~= k0);
                            assert(group_styled(kept) == append_styled(group_styled(k0), ' ', space_style));
                        }
                    },
                    None => {},
                }
                pending_space = None;
                append_styled_character(&mut result, c, style);
                proof {
                    let k0 = kept;
                    kept = kept.push((c, style));
                    assert(kept.drop_last() =~= k0);
                    assert(group_styled(kept) == append_styled(group_styled(k0), c, style));
                }
                has_text = true;
                ends_with_newline = false;
            }
            j = j + 1;
        }
        proof {
            assert(chars@.subrange(0, chars@.len() as int) =~= chars@);
            let pre = spans_view(spans@.subrange(0, i + 1));
            assert(pre.drop_last() =~= spans_view(spans@.subrange(0, i as int)));
            assert(pre.last() == (chars@, style));
        }
        i = i + 1;
    }
    proof {
        assert(spans@.subrange(0, spans@.len() as int) =~= spans@);
    }
    result
}

} // verus!
