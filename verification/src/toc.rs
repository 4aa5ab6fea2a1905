//! Outline (table of contents) extraction and reference-link collection.
//!
//! Both scans go line by line, as `str::lines` splits the text, and skip the
//! lines inside code fences (three backticks or three tildes). Only ATX
//! headings (`# Title`) are recognised.

use vstd::prelude::*;
use crate::text;
use crate::text::{
    back_char, back_whitespace, chars_of, push_char, push_range, scan_line, skip_whitespace,
    string_of, utf8_len_upto,
};

verus! {

/// One entry of the outline.
#[derive(Debug, Clone)]
pub struct Heading {
    /// Level, 1 to 6.
    pub level: u8,
    /// Text of the heading, without the surrounding `#` and whitespace.
    pub text: String,
    /// Byte offset in the source where the heading's line starts.
    pub byte_start: usize,
}

impl View for Heading {
    type V = (u8, Seq<char>, nat);

    open spec fn view(&self) -> (u8, Seq<char>, nat) {
        (self.level, self.text@, self.byte_start as nat)
    }
}

/// The fence character of a (left-trimmed) line that opens or closes a
/// code fence: three backticks or three tildes.
pub open spec fn fence_marker(t: Seq<char>) -> Option<char> {
    if t.len() >= 3 && ((t[0] == '`' && t[1] == '`' && t[2] == '`') || (t[0] == '~' && t[1] == '~'
        && t[2] == '~')) {
        Some(t[0])
    } else {
        None
    }
}

/// The fence state after a line whose left-trimmed text is `t`: a fence
/// line opens a fence when none is open, and closes the open fence when it
/// uses the same character.
pub open spec fn next_fence(state: Option<char>, t: Seq<char>) -> Option<char> {
    match fence_marker(t) {
        Some(m) => match state {
            None => Some(m),
            Some(open) => if open == m {
                None
            } else {
                state
            },
        },
        None => state,
    }
}

/// The line with span `sp`, without its leading whitespace.
pub open spec fn trimmed_line(x: Seq<char>, sp: (int, int)) -> Seq<char> {
    text::trim_start(text::span_text(x, sp))
}

/// The fence state after the lines `spans` of `x`.
pub open spec fn fence_after(x: Seq<char>, spans: Seq<(int, int)>) -> Option<char>
    decreases spans.len(),
{
    if spans.len() == 0 {
        None
    } else {
        next_fence(fence_after(x, spans.drop_last()), trimmed_line(x, spans.last()))
    }
}

/// Whether the last of `spans` is an ordinary line: outside any fence and
/// not itself a fence line.
pub open spec fn last_is_prose(x: Seq<char>, spans: Seq<(int, int)>) -> bool {
    &&& spans.len() > 0
    &&& fence_marker(trimmed_line(x, spans.last())) is None
    &&& fence_after(x, spans.drop_last()) is None
}

/// Number of leading `c` in `t`, at most `cap`.
pub open spec fn leading_run(t: Seq<char>, c: char, cap: nat) -> nat
    decreases cap,
{
    if cap == 0 || t.len() == 0 || t[0] != c {
        0
    } else {
        1 + leading_run(t.drop_first(), c, (cap - 1) as nat)
    }
}

/// The ATX heading on a left-trimmed line: one to six `#` (a seventh is
/// read as text), then a space or the end of the line; the text is what
/// follows, trimmed, without its trailing `#`, trimmed again, and must not
/// be empty.
pub open spec fn parse_heading(t: Seq<char>) -> Option<(u8, Seq<char>)> {
    if t.len() > 0 && t[0] == '#' {
        let level = leading_run(t, '#', 6);
        let rest = t.skip(level as int);
        if rest.len() == 0 || rest[0] == ' ' {
            let title = text::trim(text::trim_end_char(text::trim(rest), '#'));
            if title.len() > 0 {
                Some((level as u8, title))
            } else {
                None
            }
        } else {
            None
        }
    } else {
        None
    }
}

/// The headings of the lines `spans` of `x`, in order.
pub open spec fn headings_in(x: Seq<char>, spans: Seq<(int, int)>) -> Seq<(u8, Seq<char>, nat)>
    decreases spans.len(),
{
    if spans.len() == 0 {
        seq![]
    } else {
        let prev = headings_in(x, spans.drop_last());
        let sp = spans.last();
        if last_is_prose(x, spans) {
            match parse_heading(trimmed_line(x, sp)) {
                Some((level, title)) => prev.push((level, title, text::utf8_len(x.take(sp.0)))),
                None => prev,
            }
        } else {
            prev
        }
    }
}

/// The outline of the document `x`.
pub open spec fn spec_headings(x: Seq<char>) -> Seq<(u8, Seq<char>, nat)> {
    headings_in(x, text::line_spans(x))
}

/// A reference link definition `[label]: destination` on a line as it
/// stands: at most three leading spaces (CommonMark's limit; a line indented
/// further is not a definition), `[`, a non-empty label up to the first
/// `]`, then `:` and a destination that is not blank.
pub open spec fn is_link_definition_line(t: Seq<char>) -> bool {
    let s = t.skip(leading_run(t, ' ', 3) as int);
    let close = text::find_from(s, ']', 1);
    &&& s.len() > 0
    &&& s[0] == '['
    &&& 1 < close < s.len()
    &&& s.len() > close + 1
    &&& s[close + 1] == ':'
    &&& text::trim_start(s.skip(close + 2)).len() > 0
}

/// The link definition lines among the lines `spans` of `x`, each followed
/// by a newline.
pub open spec fn link_defs_in(x: Seq<char>, spans: Seq<(int, int)>) -> Seq<char>
    decreases spans.len(),
{
    if spans.len() == 0 {
        seq![]
    } else {
        let prev = link_defs_in(x, spans.drop_last());
        let line = text::span_text(x, spans.last());
        if last_is_prose(x, spans) && is_link_definition_line(line) {
            prev + line.push('\n')
        } else {
            prev
        }
    }
}

/// The link definitions of the document `x`: one per line, then a blank
/// line when there is at least one.
pub open spec fn spec_link_definitions(x: Seq<char>) -> Seq<char> {
    let defs = link_defs_in(x, text::line_spans(x));
    if defs.len() > 0 {
        defs.push('\n')
    } else {
        defs
    }
}

pub proof fn lemma_leading_run_bound(t: Seq<char>, c: char, cap: nat)
    ensures
        leading_run(t, c, cap) <= cap,
        leading_run(t, c, cap) <= t.len(),
        cap > 0 && t.len() > 0 && t[0] == c ==> leading_run(t, c, cap) >= 1,
    decreases cap,
{
    if cap > 0 && t.len() > 0 && t[0] == c {
        lemma_leading_run_bound(t.drop_first(), c, (cap - 1) as nat);
    }
}

/// The text of a heading has no whitespace at either end.
pub proof fn lemma_heading_text_trimmed(t: Seq<char>)
    ensures
        parse_heading(t) matches Some((level, title)) ==> !text::is_whitespace(title[0])
            && !text::is_whitespace(title.last()),
{
    if t.len() > 0 && t[0] == '#' {
        let rest = t.skip(leading_run(t, '#', 6) as int);
        text::lemma_trim_ends(text::trim_end_char(text::trim(rest), '#'));
    }
}

/// What every entry of `headings_in(x, spans)` is made of: a level from 1
/// to 6, a non-empty text, and the byte offset of the start of one of the
/// lines, whose left-trimmed text parses to that level and text.
pub proof fn lemma_headings_in_entries(x: Seq<char>, spans: Seq<(int, int)>)
    requires
        text::spans_in_order(x, spans),
    ensures
        headings_in(x, spans).len() <= spans.len(),
        forall|i: int|
            0 <= i < headings_in(x, spans).len() ==> {
                let h = #[trigger] headings_in(x, spans)[i];
                &&& 1 <= h.0 <= 6
                &&& h.1.len() > 0
                &&& exists|k: int|
                    0 <= k < spans.len() && h.2 == text::utf8_len(x.take(#[trigger] spans[k].0))
                        && parse_heading(trimmed_line(x, spans[k])) == Some((h.0, h.1))
            },
        forall|i: int, j: int|
            0 <= i < j < headings_in(x, spans).len() ==> (#[trigger] headings_in(x, spans)[i]).2
                < (#[trigger] headings_in(x, spans)[j]).2,
    decreases spans.len(),
{
    if spans.len() > 0 {
        let prev_spans = spans.drop_last();
        assert(text::spans_in_order(x, prev_spans));
        lemma_headings_in_entries(x, prev_spans);
        let prev = headings_in(x, prev_spans);
        let sp = spans.last();
        let t = trimmed_line(x, sp);
        let hs = headings_in(x, spans);
        // every earlier entry sits at a line before the last one
        assert forall|i: int| 0 <= i < prev.len() implies (#[trigger] prev[i]).2 < text::utf8_len(
            x.take(sp.0),
        ) by {
            let k = choose|k: int|
                0 <= k < prev_spans.len() && prev[i].2 == text::utf8_len(
                    x.take(#[trigger] prev_spans[k].0),
                ) && parse_heading(trimmed_line(x, prev_spans[k])) == Some((prev[i].0, prev[i].1));
            assert(prev_spans[k] == spans[k]);
            assert(spans[k].0 < spans[spans.len() - 1].0);
            text::lemma_utf8_len_take(x, spans[k].0, sp.0);
        }
        if last_is_prose(x, spans) && parse_heading(t) is Some {
            let (level, title) = parse_heading(t)->0;
            assert(hs == prev.push((level, title, text::utf8_len(x.take(sp.0)))));
            lemma_leading_run_bound(t, '#', 6);
            assert forall|i: int| 0 <= i < hs.len() implies {
                let h = #[trigger] hs[i];
                &&& 1 <= h.0 <= 6
                &&& h.1.len() > 0
                &&& exists|k: int|
                    0 <= k < spans.len() && h.2 == text::utf8_len(x.take(#[trigger] spans[k].0))
                        && parse_heading(trimmed_line(x, spans[k])) == Some((h.0, h.1))
            } by {
                if i < prev.len() {
                    assert(hs[i] == prev[i]);
                    let k = choose|k: int|
                        0 <= k < prev_spans.len() && prev[i].2 == text::utf8_len(
                            x.take(#[trigger] prev_spans[k].0),
                        ) && parse_heading(trimmed_line(x, prev_spans[k])) == Some(
                            (prev[i].0, prev[i].1),
                        );
                    assert(prev_spans[k] == spans[k]);
                } else {
                    assert(spans[spans.len() - 1] == sp);
                }
            }
        } else {
            assert(hs == prev);
            assert forall|i: int| 0 <= i < hs.len() implies {
                let h = #[trigger] hs[i];
                exists|k: int|
                    0 <= k < spans.len() && h.2 == text::utf8_len(x.take(#[trigger] spans[k].0))
                        && parse_heading(trimmed_line(x, spans[k])) == Some((h.0, h.1))
            } by {
                let k = choose|k: int|
                    0 <= k < prev_spans.len() && prev[i].2 == text::utf8_len(
                        x.take(#[trigger] prev_spans[k].0),
                    ) && parse_heading(trimmed_line(x, prev_spans[k])) == Some(
                        (prev[i].0, prev[i].1),
                    );
                assert(prev_spans[k] == spans[k]);
            }
        }
    }
}

/// The outline of a document has at most one entry per line, each entry
/// has a level from 1 to 6 and a non-empty text without whitespace at
/// either end, its byte offset is where
/// one of the document's lines starts and that line (left-trimmed) is the
/// heading, and the entries come in the order of the document.
pub proof fn lemma_outline_entries(x: Seq<char>)
    ensures
        spec_headings(x).len() <= text::line_spans(x).len(),
        forall|i: int|
            0 <= i < spec_headings(x).len() ==> {
                let h = #[trigger] spec_headings(x)[i];
                &&& 1 <= h.0 <= 6
                &&& h.1.len() > 0
                &&& !text::is_whitespace(h.1[0]) && !text::is_whitespace(h.1.last())
                &&& exists|k: int|
                    0 <= k < text::line_spans(x).len() && h.2 == text::utf8_len(
                        x.take(#[trigger] text::line_spans(x)[k].0),
                    ) && parse_heading(trimmed_line(x, text::line_spans(x)[k])) == Some((h.0, h.1))
            },
        forall|i: int, j: int|
            0 <= i < j < spec_headings(x).len() ==> (#[trigger] spec_headings(x)[i]).2 < (
            #[trigger] spec_headings(x)[j]).2,
{
    text::lemma_line_spans_in_order(x, 0);
    lemma_headings_in_entries(x, text::line_spans(x));
    let hs = spec_headings(x);
    let spans = text::line_spans(x);
    assert forall|i: int| 0 <= i < hs.len() implies !text::is_whitespace(
        (#[trigger] hs[i]).1[0],
    ) && !text::is_whitespace(hs[i].1.last()) by {
        let k = choose|k: int|
            0 <= k < spans.len() && hs[i].2 == text::utf8_len(x.take(#[trigger] spans[k].0))
                && parse_heading(trimmed_line(x, spans[k])) == Some((hs[i].0, hs[i].1));
        lemma_heading_text_trimmed(trimmed_line(x, spans[k]));
    }
}

/// The content of a line given without its newline: a carriage return at
/// its end is not part of it.
pub open spec fn line_content(p: Seq<char>) -> Seq<char> {
    if p.len() > 0 && p.last() == '\r' {
        p.drop_last()
    } else {
        p
    }
}

/// A plain line: no newline in it, neither a fence line nor a heading.
pub open spec fn is_plain_line(p: Seq<char>) -> bool {
    &&& !p.contains('\n')
    &&& fence_marker(text::trim_start(line_content(p))) is None
    &&& parse_heading(text::trim_start(line_content(p))) is None
}

/// The outline entry `h` with its offset moved by `off` bytes.
pub open spec fn shift_entry(h: (u8, Seq<char>, nat), off: nat) -> (u8, Seq<char>, nat) {
    (h.0, h.1, h.2 + off)
}

/// The fence state and the headings of the lines of `pre + x` that start
/// with a plain first line `s0` ending inside `pre`, up to the `i`-th line
/// of `x`: those of `x`, moved.
proof fn lemma_shifted_prefix(pre: Seq<char>, x: Seq<char>, s0: (int, int), i: int)
    requires
        0 <= i <= text::line_spans(x).len(),
        0 <= s0.0 <= s0.1 <= pre.len(),
        fence_marker(trimmed_line(pre + x, s0)) is None,
        parse_heading(trimmed_line(pre + x, s0)) is None,
    ensures
        fence_after(pre + x, seq![s0] + text::line_spans(x).map_values(
            |sp: (int, int)| text::shift_span(sp, pre.len() as int),
        ).take(i)) == fence_after(x, text::line_spans(x).take(i)),
        headings_in(pre + x, seq![s0] + text::line_spans(x).map_values(
            |sp: (int, int)| text::shift_span(sp, pre.len() as int),
        ).take(i)) == headings_in(x, text::line_spans(x).take(i)).map_values(
            |h: (u8, Seq<char>, nat)| shift_entry(h, text::utf8_len(pre)),
        ),
    decreases i,
{
    let y = pre + x;
    let off = pre.len() as int;
    let spans = text::line_spans(x);
    let f = |sp: (int, int)| text::shift_span(sp, off);
    let g = |h: (u8, Seq<char>, nat)| shift_entry(h, text::utf8_len(pre));
    let moved = spans.map_values(f);
    if i == 0 {
        assert(seq![s0] + moved.take(0) =~= seq![s0]);
        assert(seq![s0].drop_last() =~= Seq::<(int, int)>::empty());
        assert(seq![s0].last() == s0);
        assert(spans.take(0) =~= Seq::<(int, int)>::empty());
        let e = Seq::<(int, int)>::empty();
        assert(headings_in(y, e) =~= Seq::<(u8, Seq<char>, nat)>::empty());
        assert(headings_in(x, e) =~= Seq::<(u8, Seq<char>, nat)>::empty());
        assert(parse_heading(trimmed_line(y, seq![s0].last())) is None);
        assert(headings_in(y, seq![s0]) == headings_in(y, e));
        assert(headings_in(y, seq![s0]) =~= headings_in(x, spans.take(0)).map_values(g));
    } else {
        lemma_shifted_prefix(pre, x, s0, i - 1);
        text::lemma_line_spans_in_order(x, 0);
        let sp = spans[i - 1];
        assert(0 <= sp.0 <= sp.1 <= x.len());
        let ys = seq![s0] + moved.take(i);
        let xs = spans.take(i);
        assert(ys.drop_last() =~= seq![s0] + moved.take(i - 1));
        assert(xs.drop_last() =~= spans.take(i - 1));
        assert(ys.last() == f(sp));
        assert(xs.last() == sp);
        assert(text::span_text(y, f(sp)) =~= text::span_text(x, sp));
        assert(y.take(sp.0 + off) =~= pre + x.take(sp.0));
        text::lemma_encode_concat(pre, x.take(sp.0));
        let hx = headings_in(x, spans.take(i - 1));
        if last_is_prose(x, xs) && parse_heading(trimmed_line(x, sp)) is Some {
            let (lv, t) = parse_heading(trimmed_line(x, sp))->0;
            assert(hx.push((lv, t, text::utf8_len(x.take(sp.0)))).map_values(g) =~= hx.map_values(
                g,
            ).push(g((lv, t, text::utf8_len(x.take(sp.0))))));
        }
    }
}

/// Putting a plain line (and its newline) in front of a document leaves
/// its outline as it was, each offset moved by the bytes of that line.
#[verifier::spinoff_prover]
pub proof fn lemma_plain_line_shifts_outline(p: Seq<char>, x: Seq<char>)
    requires
        is_plain_line(p),
    ensures
        spec_headings(p + seq!['\n'] + x) == spec_headings(x).map_values(
            |h: (u8, Seq<char>, nat)| shift_entry(h, text::utf8_len(p) + 1),
        ),
{
    let pre = p + seq!['\n'];
    let y = pre + x;
    let off = pre.len() as int;
    let boff = text::utf8_len(p) + 1;
    // the first line of y is p
    assert(y == p + seq!['\n'] + x);
    text::lemma_find_from(y, '\n', 0);
    assert(text::find_from(y, '\n', 0) == p.len()) by {
        assert(y[p.len() as int] == '\n');
        if text::find_from(y, '\n', 0) < p.len() {
            let k = text::find_from(y, '\n', 0);
            assert(y[k] == p[k]);
        }
    }
    let s0 = (0int, text::line_end(y, 0));
    assert(text::span_text(y, s0) == line_content(p)) by {
        if p.len() > 0 && p.last() == '\r' {
            assert(y[p.len() - 1] == p.last());
            assert(y.subrange(0, p.len() - 1) =~= p.drop_last());
        } else {
            if p.len() > 0 {
                assert(y[p.len() - 1] == p.last());
            }
            assert(y.subrange(0, p.len() as int) =~= p);
        }
    }
    assert(text::next_line_start(y, 0) == off);
    let spans = text::line_spans(x);
    text::lemma_line_spans_shift(pre, x, 0);
    let f = |sp: (int, int)| text::shift_span(sp, off);
    let g = |h: (u8, Seq<char>, nat)| shift_entry(h, boff);
    let moved = spans.map_values(f);
    assert(y[p.len() as int] == '\n');
    assert(text::line_spans(y) == seq![s0] + text::line_spans_from(y, off));
    assert(text::line_spans_from(y, off) == moved);
    lemma_shifted_prefix(pre, x, s0, spans.len() as int);
    assert(spans.take(spans.len() as int) =~= spans);
    assert(moved.take(moved.len() as int) =~= moved);
    text::lemma_encode_concat(p, seq!['\n']);
    assert(boff == text::utf8_len(p) + 1) by {
        assert(vstd::utf8::encode_utf8(seq!['\n']) =~= vstd::utf8::encode_scalar('\n' as u32)
            + vstd::utf8::encode_utf8(seq!['\n'].drop_first()));
        assert(seq!['\n'].drop_first() =~= Seq::<char>::empty());
    }
}

/// The collected link definitions are whole lines followed by a blank
/// line: empty, or ending in two newlines.
pub proof fn lemma_link_definitions_end_with_blank_line(x: Seq<char>)
    ensures
        spec_link_definitions(x).len() == 0 || (spec_link_definitions(x).len() >= 2
            && spec_link_definitions(x).last() == '\n' && spec_link_definitions(x)[spec_link_definitions(x).len() - 2] == '\n'),
{
    lemma_link_defs_in_end(x, text::line_spans(x));
}

proof fn lemma_link_defs_in_end(x: Seq<char>, spans: Seq<(int, int)>)
    ensures
        link_defs_in(x, spans).len() == 0 || link_defs_in(x, spans).last() == '\n',
    decreases spans.len(),
{
    if spans.len() > 0 {
        lemma_link_defs_in_end(x, spans.drop_last());
    }
}

/// Lines, each followed by a newline.
pub open spec fn join_lines(ls: Seq<Seq<char>>) -> Seq<char>
    decreases ls.len(),
{
    if ls.len() == 0 {
        seq![]
    } else {
        join_lines(ls.drop_last()) + ls.last().push('\n')
    }
}

proof fn lemma_join_lines_front(ls: Seq<Seq<char>>)
    requires
        ls.len() > 0,
    ensures
        join_lines(ls) == ls[0].push('\n') + join_lines(ls.drop_first()),
    decreases ls.len(),
{
    if ls.len() == 1 {
        assert(ls.drop_last() =~= Seq::<Seq<char>>::empty());
        assert(ls.drop_first() =~= Seq::<Seq<char>>::empty());
        assert(ls.last() == ls[0]);
        assert(join_lines(ls) =~= ls[0].push('\n') + join_lines(ls.drop_first()));
    } else {
        lemma_join_lines_front(ls.drop_last());
        assert(ls.drop_last().drop_first() =~= ls.drop_first().drop_last());
        assert(ls.drop_first().last() == ls.last());
        assert(ls.drop_last()[0] == ls[0]);
        assert(join_lines(ls) =~= ls[0].push('\n') + join_lines(ls.drop_first()));
    }
}

/// The link definition lines among the lines `spans` of `x`.
pub open spec fn def_lines(x: Seq<char>, spans: Seq<(int, int)>) -> Seq<Seq<char>>
    decreases spans.len(),
{
    if spans.len() == 0 {
        seq![]
    } else {
        let prev = def_lines(x, spans.drop_last());
        let line = text::span_text(x, spans.last());
        if last_is_prose(x, spans) && is_link_definition_line(line) {
            prev.push(line)
        } else {
            prev
        }
    }
}

proof fn lemma_def_lines(x: Seq<char>, spans: Seq<(int, int)>)
    requires
        forall|a: int| 0 <= a < spans.len() ==> !text::span_text(x, #[trigger] spans[a]).contains('\n'),
    ensures
        link_defs_in(x, spans) == join_lines(def_lines(x, spans)),
        forall|k: int|
            0 <= k < def_lines(x, spans).len() ==> !(#[trigger] def_lines(x, spans)[k]).contains('\n')
                && is_link_definition_line(def_lines(x, spans)[k]),
    decreases spans.len(),
{
    if spans.len() > 0 {
        let prev = spans.drop_last();
        assert forall|a: int| 0 <= a < prev.len() implies !text::span_text(x, #[trigger] prev[a]).contains('\n') by {
            assert(prev[a] == spans[a]);
        }
        lemma_def_lines(x, prev);
        let line = text::span_text(x, spans.last());
        assert(spans[spans.len() - 1] == spans.last());
        if last_is_prose(x, spans) && is_link_definition_line(line) {
            let d = def_lines(x, prev);
            assert(d.push(line).drop_last() =~= d);
            assert forall|k: int| 0 <= k < d.push(line).len() implies !(#[trigger] d.push(line)[k]).contains('\n')
                && is_link_definition_line(d.push(line)[k]) by {
                if k < d.len() {
                    assert(d.push(line)[k] == d[k]);
                }
            }
        }
    }
}

/// A line that is collected as a link definition and collected again as
/// itself when the collected block is scanned.
pub open spec fn rescannable(l: Seq<char>) -> bool {
    &&& !l.contains('\n')
    &&& (l.len() == 0 || l.last() != '\r')
    &&& is_link_definition_line(l)
}

/// A link definition line is no fence line.
proof fn lemma_definition_not_fence(l: Seq<char>)
    requires
        is_link_definition_line(l),
    ensures
        fence_marker(text::trim_start(l)) is None,
{
    let lead = leading_run(l, ' ', 3) as int;
    lemma_leading_run_spaces(l, 3);
    lemma_leading_run_bound(l, ' ', 3);
    text::lemma_trim_start(l);
    let m = l.len() - text::trim_start(l).len();
    assert(l.skip(lead)[0] == '[');
    assert(l[lead] == '[');
    if m < lead {
        assert(l[m] == ' ');
        assert(text::trim_start(l)[0] == l[m]);
    } else if m > lead {
        assert(text::is_whitespace(l[lead]));
    }
    assert(text::trim_start(l)[0] == l[lead]);
}

proof fn lemma_leading_run_spaces(t: Seq<char>, cap: nat)
    ensures
        forall|j: int| 0 <= j < leading_run(t, ' ', cap) ==> #[trigger] t[j] == ' ',
    decreases cap,
{
    if cap > 0 && t.len() > 0 && t[0] == ' ' {
        lemma_leading_run_spaces(t.drop_first(), (cap - 1) as nat);
        lemma_leading_run_bound(t, ' ', cap);
        assert forall|j: int| 0 <= j < leading_run(t, ' ', cap) implies #[trigger] t[j] == ' ' by {
            if j > 0 {
                assert(t[j] == t.drop_first()[j - 1]);
            }
        }
    }
}

/// The fence state and the collected definitions of the lines of
/// `pre + x` that start with a non-fence first line `s0` ending inside
/// `pre`, up to the `i`-th line of `x`: those of `x`, after what the first
/// line gives.
proof fn lemma_defs_shifted_prefix(pre: Seq<char>, x: Seq<char>, s0: (int, int), i: int)
    requires
        0 <= i <= text::line_spans(x).len(),
        0 <= s0.0 <= s0.1 <= pre.len(),
        fence_marker(trimmed_line(pre + x, s0)) is None,
    ensures
        fence_after(pre + x, seq![s0] + text::line_spans(x).map_values(
            |sp: (int, int)| text::shift_span(sp, pre.len() as int),
        ).take(i)) == fence_after(x, text::line_spans(x).take(i)),
        link_defs_in(pre + x, seq![s0] + text::line_spans(x).map_values(
            |sp: (int, int)| text::shift_span(sp, pre.len() as int),
        ).take(i)) == (if is_link_definition_line(text::span_text(pre + x, s0)) {
            text::span_text(pre + x, s0).push('\n')
        } else {
            seq![]
        }) + link_defs_in(x, text::line_spans(x).take(i)),
    decreases i,
{
    let y = pre + x;
    let off = pre.len() as int;
    let spans = text::line_spans(x);
    let f = |sp: (int, int)| text::shift_span(sp, off);
    let moved = spans.map_values(f);
    let first = if is_link_definition_line(text::span_text(y, s0)) {
        text::span_text(y, s0).push('\n')
    } else {
        seq![]
    };
    if i == 0 {
        assert(seq![s0] + moved.take(0) =~= seq![s0]);
        assert(seq![s0].drop_last() =~= Seq::<(int, int)>::empty());
        assert(seq![s0].last() == s0);
        assert(spans.take(0) =~= Seq::<(int, int)>::empty());
        let e = Seq::<(int, int)>::empty();
        assert(link_defs_in(y, e) =~= Seq::<char>::empty());
        assert(link_defs_in(x, e) =~= Seq::<char>::empty());
        assert(link_defs_in(y, seq![s0]) =~= first + link_defs_in(x, spans.take(0)));
    } else {
        lemma_defs_shifted_prefix(pre, x, s0, i - 1);
        text::lemma_line_spans_in_order(x, 0);
        let sp = spans[i - 1];
        assert(0 <= sp.0 <= sp.1 <= x.len());
        let ys = seq![s0] + moved.take(i);
        let xs = spans.take(i);
        assert(ys.drop_last() =~= seq![s0] + moved.take(i - 1));
        assert(xs.drop_last() =~= spans.take(i - 1));
        assert(ys.last() == f(sp));
        assert(xs.last() == sp);
        assert(text::span_text(y, f(sp)) =~= text::span_text(x, sp));
        let dx = link_defs_in(x, spans.take(i - 1));
        assert(first + (dx + text::span_text(x, sp).push('\n')) =~= (first + dx) + text::span_text(
            x,
            sp,
        ).push('\n'));
    }
}

/// Scanning a block of definition lines, each with its newline, and a
/// blank line gives the lines back.
proof fn lemma_block_rescan(ls: Seq<Seq<char>>)
    requires
        forall|k: int| 0 <= k < ls.len() ==> rescannable(#[trigger] ls[k]),
    ensures
        link_defs_in(join_lines(ls) + seq!['\n'], text::line_spans(join_lines(ls) + seq!['\n']))
            == join_lines(ls),
    decreases ls.len(),
{
    let y = join_lines(ls) + seq!['\n'];
    if ls.len() == 0 {
        assert(y =~= seq!['\n']);
        text::lemma_find_from(y, '\n', 0);
        assert(text::find_from(y, '\n', 0) == 0);
        assert(text::line_spans(y) == seq![(0int, 0int)] + text::line_spans_from(y, 1));
        assert(text::line_spans_from(y, 1) =~= Seq::<(int, int)>::empty());
        let sp = seq![(0int, 0int)];
        assert(sp.drop_last() =~= Seq::<(int, int)>::empty());
        assert(text::span_text(y, (0int, 0int)) =~= Seq::<char>::empty());
        assert(!is_link_definition_line(Seq::<char>::empty()));
        assert(text::line_spans(y) =~= sp);
        assert(sp.last() == (0int, 0int));
        assert(link_defs_in(y, Seq::<(int, int)>::empty()) =~= Seq::<char>::empty());
        assert(link_defs_in(y, sp) == link_defs_in(y, sp.drop_last()));
        assert(link_defs_in(y, sp) =~= Seq::<char>::empty());
    } else {
        let l = ls[0];
        let rest = ls.drop_first();
        assert forall|k: int| 0 <= k < rest.len() implies rescannable(#[trigger] rest[k]) by {
            assert(rest[k] == ls[k + 1]);
        }
        lemma_block_rescan(rest);
        lemma_join_lines_front(ls);
        let pre = l.push('\n');
        let x = join_lines(rest) + seq!['\n'];
        assert(y =~= pre + x);
        assert(rescannable(l));
        // the first line of y is l
        text::lemma_find_from(y, '\n', 0);
        assert(y[l.len() as int] == '\n');
        assert(text::find_from(y, '\n', 0) == l.len()) by {
            if text::find_from(y, '\n', 0) < l.len() {
                let k = text::find_from(y, '\n', 0);
                assert(y[k] == l[k]);
            }
        }
        assert(l.len() > 0);
        assert(y[l.len() - 1] == l.last());
        let s0 = (0int, l.len() as int);
        assert(text::line_end(y, 0) == l.len());
        assert(text::span_text(y, s0) =~= l);
        assert(text::line_spans(y) == seq![s0] + text::line_spans_from(y, pre.len() as int));
        text::lemma_line_spans_shift(pre, x, 0);
        lemma_definition_not_fence(l);
        lemma_defs_shifted_prefix(pre, x, s0, text::line_spans(x).len() as int);
        let spans = text::line_spans(x);
        let moved = spans.map_values(|sp: (int, int)| text::shift_span(sp, pre.len() as int));
        assert(spans.take(spans.len() as int) =~= spans);
        assert(moved.take(moved.len() as int) =~= moved);
    }
}

/// Scanning the collected link definitions again gives them back, as long
/// as no definition line ends in a carriage return (which a second scan
/// would take for part of a line break).
pub proof fn lemma_link_definitions_rescan(x: Seq<char>)
    requires
        forall|k: int|
            0 <= k < def_lines(x, text::line_spans(x)).len() ==> (#[trigger] def_lines(
                x,
                text::line_spans(x),
            )[k]).len() == 0 || def_lines(x, text::line_spans(x))[k].last() != '\r',
    ensures
        spec_link_definitions(spec_link_definitions(x)) == spec_link_definitions(x),
{
    let spans = text::line_spans(x);
    text::lemma_line_spans_no_newline(x, 0);
    lemma_def_lines(x, spans);
    let ls = def_lines(x, spans);
    let d = link_defs_in(x, spans);
    if d.len() == 0 {
        assert(spec_link_definitions(x) =~= Seq::<char>::empty());
        assert(text::line_spans(Seq::<char>::empty()) =~= Seq::<(int, int)>::empty());
        assert(link_defs_in(Seq::<char>::empty(), Seq::<(int, int)>::empty()) =~= Seq::<char>::empty());
    } else {
        assert forall|k: int| 0 <= k < ls.len() implies rescannable(#[trigger] ls[k]) by {}
        lemma_block_rescan(ls);
        assert(spec_link_definitions(x) == d.push('\n'));
        assert(d.push('\n') =~= join_lines(ls) + seq!['\n']);
    }
}

/// `n` copies of `c`.
pub open spec fn repeat_char(c: char, n: nat) -> Seq<char> {
    Seq::new(n, |i: int| c)
}

proof fn lemma_leading_run_repeat(c: char, n: nat, s: Seq<char>, cap: nat)
    requires
        n <= cap,
        s.len() == 0 || s[0] != c,
    ensures
        leading_run(repeat_char(c, n) + s, c, cap) == n,
    decreases n,
{
    let t = repeat_char(c, n) + s;
    if n > 0 {
        assert(t[0] == c);
        assert(t.drop_first() =~= repeat_char(c, (n - 1) as nat) + s);
        lemma_leading_run_repeat(c, (n - 1) as nat, s, (cap - 1) as nat);
    } else {
        assert(t =~= s);
    }
}

/// The first `c` from `i` on is at `j` when there is one at `j` and none
/// in between.
proof fn lemma_find_from_at(x: Seq<char>, c: char, i: int, j: int)
    requires
        0 <= i <= j < x.len(),
        x[j] == c,
        forall|k: int| i <= k < j ==> x[k] != c,
    ensures
        text::find_from(x, c, i) == j,
    decreases j - i,
{
    if i < j {
        lemma_find_from_at(x, c, i + 1, j);
    }
}

/// The first line of `line + "\n" + rest` is `line`, when `line` holds no
/// newline and does not end in a carriage return.
proof fn lemma_first_line(line: Seq<char>, rest: Seq<char>)
    requires
        !line.contains('\n'),
        line.len() == 0 || line.last() != '\r',
    ensures
        text::line_spans(line + seq!['\n'] + rest).len() >= 1,
        text::line_spans(line + seq!['\n'] + rest)[0] == (0int, line.len() as int),
{
    let y = line + seq!['\n'] + rest;
    assert(y[line.len() as int] == '\n');
    assert forall|k: int| 0 <= k < line.len() implies y[k] != '\n' by {
        assert(y[k] == line[k]);
    }
    lemma_find_from_at(y, '\n', 0, line.len() as int);
    if line.len() > 0 {
        assert(y[line.len() - 1] == line.last());
    }
    assert(text::line_spans(y) == seq![(0int, text::line_end(y, 0))] + text::line_spans_from(
        y,
        text::next_line_start(y, 0),
    ));
}

/// The headings of the first `j` lines come first in the outline.
proof fn lemma_headings_prefix(x: Seq<char>, spans: Seq<(int, int)>, j: int)
    requires
        0 <= j <= spans.len(),
    ensures
        headings_in(x, spans.take(j)).len() <= headings_in(x, spans).len(),
        headings_in(x, spans).take(headings_in(x, spans.take(j)).len() as int) == headings_in(
            x,
            spans.take(j),
        ),
    decreases spans.len(),
{
    if j == spans.len() {
        assert(spans.take(j) =~= spans);
        assert(headings_in(x, spans).take(headings_in(x, spans).len() as int) =~= headings_in(
            x,
            spans,
        ));
    } else {
        let prev = spans.drop_last();
        assert(prev.take(j) =~= spans.take(j));
        lemma_headings_prefix(x, prev, j);
        let hp = headings_in(x, prev);
        let k = headings_in(x, spans.take(j)).len() as int;
        assert(hp.take(k) == headings_in(x, spans.take(j)));
        if last_is_prose(x, spans) && parse_heading(trimmed_line(x, spans.last())) is Some {
            let (lv, t) = parse_heading(trimmed_line(x, spans.last()))->0;
            let h = (lv, t, text::utf8_len(x.take(spans.last().0)));
            assert(hp.push(h).take(k) =~= hp.take(k));
        }
    }
}

/// The definitions of the first `j` lines come first.
proof fn lemma_link_defs_prefix(x: Seq<char>, spans: Seq<(int, int)>, j: int)
    requires
        0 <= j <= spans.len(),
    ensures
        link_defs_in(x, spans.take(j)).len() <= link_defs_in(x, spans).len(),
        link_defs_in(x, spans).take(link_defs_in(x, spans.take(j)).len() as int) == link_defs_in(
            x,
            spans.take(j),
        ),
    decreases spans.len(),
{
    if j == spans.len() {
        assert(spans.take(j) =~= spans);
        assert(link_defs_in(x, spans).take(link_defs_in(x, spans).len() as int) =~= link_defs_in(
            x,
            spans,
        ));
    } else {
        let prev = spans.drop_last();
        assert(prev.take(j) =~= spans.take(j));
        lemma_link_defs_prefix(x, prev, j);
        let dp = link_defs_in(x, prev);
        let k = link_defs_in(x, spans.take(j)).len() as int;
        let line = text::span_text(x, spans.last());
        if last_is_prose(x, spans) && is_link_definition_line(line) {
            assert((dp + line.push('\n')).take(k) =~= dp.take(k));
        }
    }
}

/// A line of one to six `#`, a space and a text `w` that is not empty,
/// has no whitespace at either end, holds no newline and does not end in
/// `#`, when it starts a document, gives the first entry of its outline:
/// level `n`, text `w` (all of it), offset 0, whatever follows.
pub proof fn lemma_atx_heading_line(n: nat, w: Seq<char>, rest: Seq<char>)
    requires
        1 <= n <= 6,
        w.len() > 0,
        !w.contains('\n'),
        !text::is_whitespace(w[0]),
        !text::is_whitespace(w.last()),
        w.last() != '#',
    ensures
        spec_headings(repeat_char('#', n) + seq![' '] + w + seq!['\n'] + rest).len() >= 1,
        spec_headings(repeat_char('#', n) + seq![' '] + w + seq!['\n'] + rest)[0] == (
            n as u8,
            w,
            0nat,
        ),
{
    let line = repeat_char('#', n) + seq![' '] + w;
    let y = line + seq!['\n'] + rest;
    assert(repeat_char('#', n) + seq![' '] + w + seq!['\n'] + rest == y);
    assert(line.last() == w.last());
    assert(!line.contains('\n')) by {
        if line.contains('\n') {
            let k = choose|k: int| 0 <= k < line.len() && line[k] == '\n';
            if k > n as int {
                assert(line[k] == w[k - n - 1]);
            }
        }
    }
    lemma_first_line(line, rest);
    let spans = text::line_spans(y);
    let s0 = (0int, line.len() as int);
    assert(text::span_text(y, s0) =~= line);
    // the line parses to (n, w)
    assert(line[0] == '#');
    assert(text::trim_start(line) == line);
    lemma_leading_run_repeat('#', n, seq![' '] + w, 6);
    assert(line =~= repeat_char('#', n) + (seq![' '] + w));
    let r = line.skip(n as int);
    assert(r =~= seq![' '] + w);
    assert(r.drop_first() =~= w);
    assert(text::trim_start(r) == text::trim_start(w));
    assert(text::trim_start(w) == w);
    assert(text::trim_end(w) == w);
    assert(text::trim(r) == w);
    assert(text::trim_end_char(w, '#') == w);
    assert(text::trim(w) == w);
    assert(parse_heading(line) == Some((n as u8, w)));
    assert(fence_marker(line) is None);
    // the first line's entry
    let first = spans.take(1);
    assert(first =~= seq![s0]);
    assert(first.drop_last() =~= Seq::<(int, int)>::empty());
    assert(y.take(0) =~= Seq::<char>::empty());
    assert(vstd::utf8::encode_utf8(Seq::<char>::empty()) =~= Seq::<u8>::empty());
    assert(headings_in(y, Seq::<(int, int)>::empty()) =~= Seq::<(u8, Seq<char>, nat)>::empty());
    assert(headings_in(y, first) =~= seq![(n as u8, w, 0nat)]);
    lemma_headings_prefix(y, spans, 1);
    assert(spec_headings(y).take(1)[0] == spec_headings(y)[0]);
}

/// A line of at most three spaces, `[`, a non-empty label without `]`
/// (any other characters, spaces included), `]:` and a destination that is
/// not blank, holds no newline and does not end in a carriage return,
/// when it starts a document, is collected as a definition, first, as it
/// stands and followed by a newline, whatever follows.
#[verifier::spinoff_prover]
#[verifier::rlimit(40)]
pub proof fn lemma_definition_line_collected(
    k: nat,
    label: Seq<char>,
    dest: Seq<char>,
    rest: Seq<char>,
)
    requires
        k <= 3,
        label.len() > 0,
        !label.contains(']'),
        !label.contains('\n'),
        !dest.contains('\n'),
        text::trim_start(dest).len() > 0,
        dest.last() != '\r',
    ensures
        ({
            let line = repeat_char(' ', k) + seq!['['] + label + seq![']', ':'] + dest;
            let defs = spec_link_definitions(line + seq!['\n'] + rest);
            &&& defs.len() >= line.len() + 1
            &&& defs.take(line.len() + 1 as int) == line.push('\n')
        }),
{
    let line = repeat_char(' ', k) + seq!['['] + label + seq![']', ':'] + dest;
    let y = line + seq!['\n'] + rest;
    let tail = seq!['['] + label + seq![']', ':'] + dest;
    assert(line =~= repeat_char(' ', k) + tail);
    assert(tail[0] == '[');
    lemma_leading_run_repeat(' ', k, tail, 3);
    assert(line.skip(k as int) =~= tail);
    let close: int = 1 + label.len() as int;
    assert(tail[close] == ']');
    assert forall|j: int| 1 <= j < close implies tail[j] != ']' by {
        assert(tail[j] == label[j - 1]);
    }
    lemma_find_from_at(tail, ']', 1, close);
    assert(tail[close + 1] == ':');
    assert(tail.skip(close + 2) =~= dest);
    assert(is_link_definition_line(line));
    // one line
    assert(dest.len() > 0);
    assert(line.last() == dest.last());
    assert(!line.contains('\n')) by {
        if line.contains('\n') {
            let j = choose|j: int| 0 <= j < line.len() && line[j] == '\n';
            if j >= k + close + 2 {
                assert(line[j] == dest[j - k - close - 2]);
            } else if k < j < k + close {
                assert(line[j] == label[j - k - 1]);
            }
        }
    }
    lemma_first_line(line, rest);
    let spans = text::line_spans(y);
    let s0 = (0int, line.len() as int);
    assert(text::span_text(y, s0) =~= line);
    lemma_definition_not_fence(line);
    let first = spans.take(1);
    assert(first =~= seq![s0]);
    assert(first.drop_last() =~= Seq::<(int, int)>::empty());
    assert(link_defs_in(y, Seq::<(int, int)>::empty()) =~= Seq::<char>::empty());
    assert(link_defs_in(y, first) =~= line.push('\n'));
    lemma_link_defs_prefix(y, spans, 1);
    let d = link_defs_in(y, spans);
    assert(d.push('\n').take(line.len() + 1 as int) =~= d.take(line.len() + 1 as int));
}

/// The fence character of the line `v[lo..hi]`, if it is a fence line.
fn fence_marker_at(v: &Vec<char>, lo: usize, hi: usize) -> (r: Option<char>)
    requires
        lo <= hi <= v.len(),
    ensures
        r == fence_marker(v@.subrange(lo as int, hi as int)),
{
    if hi - lo >= 3 && ((v[lo] == '`' && v[lo + 1] == '`' && v[lo + 2] == '`') || (v[lo] == '~'
        && v[lo + 1] == '~' && v[lo + 2] == '~')) {
        Some(v[lo])
    } else {
        None
    }
}

/// The heading on the left-trimmed line `v[lo..hi]`, if any.
fn parse_heading_at(v: &Vec<char>, lo: usize, hi: usize) -> (r: Option<(u8, String)>)
    requires
        lo <= hi <= v.len(),
    ensures
        r is Some <==> parse_heading(v@.subrange(lo as int, hi as int)) is Some,
        r matches Some((level, title)) ==> parse_heading(v@.subrange(lo as int, hi as int)) == Some(
            (level, title@),
        ),
{
    let ghost t = v@.subrange(lo as int, hi as int);
    if lo == hi || v[lo] != '#' {
        return None;
    }
    let mut level: u8 = 1;
    let mut s = lo + 1;
    proof {
        assert(t.drop_first() =~= v@.subrange(lo + 1, hi as int));
    }
    while s < hi && v[s] == '#' && level < 6
        invariant
            lo < s <= hi <= v.len(),
            1 <= level <= 6,
            s == lo + level,
            leading_run(t, '#', 6) == level + leading_run(
                v@.subrange(s as int, hi as int),
                '#',
                (6 - level) as nat,
            ),
        decreases hi - s,
    {
        assert(v@.subrange(s as int, hi as int).drop_first() =~= v@.subrange(s + 1, hi as int));
        s = s + 1;
        level = level + 1;
    }
    assert(t.skip(level as int) =~= v@.subrange(s as int, hi as int));
    if s < hi && v[s] != ' ' {
        return None;
    }
    // trim, drop the closing hashes, trim again
    let a = skip_whitespace(v, s, hi);
    let b = back_whitespace(v, a, hi);
    let b2 = back_char(v, a, b, '#');
    let a2 = skip_whitespace(v, a, b2);
    let b3 = back_whitespace(v, a2, b2);
    if a2 == b3 {
        return None;
    }
    Some((level, string_of(v, a2, b3)))
}

/// Whether the line `v[lo..hi]` is a reference link definition.
fn is_link_definition(v: &Vec<char>, lo: usize, hi: usize) -> (r: bool)
    requires
        lo <= hi <= v.len(),
    ensures
        r == is_link_definition_line(v@.subrange(lo as int, hi as int)),
{
    let ghost t = v@.subrange(lo as int, hi as int);
    // at most three leading spaces
    let mut s = lo;
    let mut leading: usize = 0;
    while leading < 3 && s < hi && v[s] == ' '
        invariant
            lo <= s <= hi <= v.len(),
            s == lo + leading,
            leading <= 3,
            leading_run(t, ' ', 3) == leading + leading_run(
                v@.subrange(s as int, hi as int),
                ' ',
                (3 - leading) as nat,
            ),
        decreases hi - s,
    {
        assert(v@.subrange(s as int, hi as int).drop_first() =~= v@.subrange(s + 1, hi as int));
        s = s + 1;
        leading = leading + 1;
    }
    let ghost rest = v@.subrange(s as int, hi as int);
    assert(t.skip(leading_run(t, ' ', 3) as int) =~= rest);
    if s >= hi || v[s] != '[' {
        return false;
    }
    // the closing bracket
    let mut close = s + 1;
    while close < hi && v[close] != ']'
        invariant
            s < close <= hi <= v.len(),
            rest == v@.subrange(s as int, hi as int),
            text::find_from(rest, ']', 1) == text::find_from(rest, ']', close - s),
        decreases hi - close,
    {
        assert(rest[close - s] == v@[close as int]);
        close = close + 1;
    }
    proof {
        text::lemma_find_from(rest, ']', 1);
    }
    if close >= hi || close == s + 1 {
        return false;
    }
    if close + 1 >= hi || v[close + 1] != ':' {
        return false;
    }
    let d = skip_whitespace(v, close + 2, hi);
    assert(rest.skip(close - s + 2) =~= v@.subrange(close + 2, hi as int));
    d < hi
}

/// The outline of a Markdown document: its ATX headings outside code
/// fences, in order.
pub fn extract_headings(markdown: &str) -> (out: Vec<Heading>)
    ensures
        out@.map_values(|h: Heading| h@) == spec_headings(markdown@),
{
    let v = chars_of(markdown);
    let n = v.len();
    let total = markdown.as_bytes().len();
    let mut out: Vec<Heading> = Vec::new();
    let mut fence: Option<char> = None;
    let mut pos: usize = 0;
    let mut byte_pos: usize = 0;
    let ghost mut done: Seq<(int, int)> = seq![];
    proof {
        assert(done + text::line_spans(v@) =~= text::line_spans(v@));
        assert(v@.take(0) =~= Seq::<char>::empty());
        assert(text::utf8_len(Seq::<char>::empty()) == 0);
    }
    while pos < n
        invariant
            v@ == markdown@,
            n == v.len(),
            total == text::utf8_len(v@),
            pos <= n,
            done + text::line_spans_from(v@, pos as int) == text::line_spans(v@),
            fence == fence_after(v@, done),
            out@.map_values(|h: Heading| h@) == headings_in(v@, done),
            byte_pos == text::utf8_len(v@.take(pos as int)),
        decreases n - pos,
    {
        let (end, next) = scan_line(&v, pos);
        let ghost sp = (pos as int, end as int);
        let ghost done2 = done.push(sp);
        assert(text::line_spans_from(v@, pos as int) == seq![sp] + text::line_spans_from(v@, next as int));
        assert(done2 + text::line_spans_from(v@, next as int) =~= done + text::line_spans_from(v@, pos as int));
        assert(done2.drop_last() =~= done);
        let t = skip_whitespace(&v, pos, end);
        assert(trimmed_line(v@, sp) == v@.subrange(t as int, end as int));
        match fence_marker_at(&v, t, end) {
            Some(m) => {
                fence = match fence {
                    None => Some(m),
                    Some(open) => if open == m {
                        None
                    } else {
                        Some(open)
                    },
                };
            },
            None => {
                if fence.is_none() {
                    match parse_heading_at(&v, t, end) {
                        Some((level, title)) => {
                            let ghost before = out@;
                            out.push(Heading { level, text: title, byte_start: byte_pos });
                            assert(out@.map_values(|h: Heading| h@) =~= before.map_values(
                                |h: Heading| h@,
                            ).push((level, title@, byte_pos as nat)));
                        },
                        None => {},
                    }
                }
            },
        }
        byte_pos = utf8_len_upto(&v, pos, next, byte_pos, total);
        proof {
            done = done2;
        }
        pos = next;
    }
    proof {
        assert(done =~= text::line_spans(v@));
    }
    out
}

/// The reference link definitions (`[label]: destination`) of a Markdown
/// document outside code fences, each line followed by a newline, and the
/// block followed by a blank line, ready to be put in front of any part of
/// the document.
pub fn extract_link_definitions(markdown: &str) -> (defs: String)
    ensures
        defs@ == spec_link_definitions(markdown@),
{
    let v = chars_of(markdown);
    let n = v.len();
    let mut defs = String::new();
    let mut found = false;
    let mut fence: Option<char> = None;
    let mut pos: usize = 0;
    let ghost mut done: Seq<(int, int)> = seq![];
    proof {
        assert(done + text::line_spans(v@) =~= text::line_spans(v@));
    }
    while pos < n
        invariant
            v@ == markdown@,
            n == v.len(),
            pos <= n,
            done + text::line_spans_from(v@, pos as int) == text::line_spans(v@),
            fence == fence_after(v@, done),
            defs@ == link_defs_in(v@, done),
            found == (defs@.len() > 0),
        decreases n - pos,
    {
        let (end, next) = scan_line(&v, pos);
        let ghost sp = (pos as int, end as int);
        let ghost done2 = done.push(sp);
        assert(text::line_spans_from(v@, pos as int) == seq![sp] + text::line_spans_from(v@, next as int));
        assert(done2 + text::line_spans_from(v@, next as int) =~= done + text::line_spans_from(v@, pos as int));
        assert(done2.drop_last() =~= done);
        let t = skip_whitespace(&v, pos, end);
        assert(trimmed_line(v@, sp) == v@.subrange(t as int, end as int));
        match fence_marker_at(&v, t, end) {
            Some(m) => {
                fence = match fence {
                    None => Some(m),
                    Some(open) => if open == m {
                        None
                    } else {
                        Some(open)
                    },
                };
            },
            None => {
                if fence.is_none() && is_link_definition(&v, pos, end) {
                    let ghost before = defs@;
                    push_range(&mut defs, &v, pos, end);
                    push_char(&mut defs, '\n');
                    assert(defs@ =~= before + v@.subrange(pos as int, end as int).push('\n'));
                    found = true;
                }
            },
        }
        proof {
            done = done2;
        }
        pos = next;
    }
    proof {
        assert(done =~= text::line_spans(v@));
    }
    if found {
        push_char(&mut defs, '\n');
    }
    defs
}

} // verus!
