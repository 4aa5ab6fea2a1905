//! Character-level building blocks shared by the scanners: Unicode
//! whitespace, trimming, line splitting and UTF-8 byte lengths.

use vstd::prelude::*;
use vstd::utf8::*;

verus! {

broadcast use vstd::utf8::char_is_scalar;

/// The Unicode `White_Space` property, the set that `char::is_whitespace`
/// tests for.
pub open spec fn is_whitespace(c: char) -> bool {
    ||| c == '\t'
    ||| c == '\n'
    ||| c == '\u{0B}'
    ||| c == '\u{0C}'
    ||| c == '\r'
    ||| c == ' '
    ||| c == '\u{85}'
    ||| c == '\u{A0}'
    ||| c == '\u{1680}'
    ||| ('\u{2000}' <= c && c <= '\u{200A}')
    ||| c == '\u{2028}'
    ||| c == '\u{2029}'
    ||| c == '\u{202F}'
    ||| c == '\u{205F}'
    ||| c == '\u{3000}'
}

/// Whether `c` is Unicode whitespace.
pub fn is_whitespace_char(c: char) -> (r: bool)
    ensures
        r == is_whitespace(c),
{
    c == '\t' || c == '\n' || c == '\u{0B}' || c == '\u{0C}' || c == '\r' || c == ' ' || c
        == '\u{85}' || c == '\u{A0}' || c == '\u{1680}' || ('\u{2000}' <= c && c <= '\u{200A}')
        || c == '\u{2028}' || c == '\u{2029}' || c == '\u{202F}' || c == '\u{205F}' || c
        == '\u{3000}'
}

/// `x` without its leading whitespace (`str::trim_start`).
pub open spec fn trim_start(x: Seq<char>) -> Seq<char>
    decreases x.len(),
{
    if x.len() > 0 && is_whitespace(x[0]) {
        trim_start(x.drop_first())
    } else {
        x
    }
}

/// `x` without its trailing whitespace (`str::trim_end`).
pub open spec fn trim_end(x: Seq<char>) -> Seq<char>
    decreases x.len(),
{
    if x.len() > 0 && is_whitespace(x.last()) {
        trim_end(x.drop_last())
    } else {
        x
    }
}

/// `x` without whitespace at either end (`str::trim`).
pub open spec fn trim(x: Seq<char>) -> Seq<char> {
    trim_end(trim_start(x))
}

/// What `trim_start` leaves is a suffix of `x` that does not start with
/// whitespace.
pub proof fn lemma_trim_start(x: Seq<char>)
    ensures
        trim_start(x).len() <= x.len(),
        trim_start(x) == x.skip(x.len() - trim_start(x).len()),
        forall|j: int| 0 <= j < x.len() - trim_start(x).len() ==> is_whitespace(#[trigger] x[j]),
        trim_start(x).len() > 0 ==> !is_whitespace(trim_start(x)[0]),
    decreases x.len(),
{
    if x.len() > 0 && is_whitespace(x[0]) {
        lemma_trim_start(x.drop_first());
        assert(x.drop_first().skip(x.drop_first().len() - trim_start(x).len()) =~= x.skip(
            x.len() - trim_start(x).len(),
        ));
        assert forall|j: int| 0 <= j < x.len() - trim_start(x).len() implies is_whitespace(
            #[trigger] x[j],
        ) by {
            if j > 0 {
                assert(x[j] == x.drop_first()[j - 1]);
            }
        }
    } else {
        assert(x.skip(0) =~= x);
    }
}

/// What `trim_end` leaves is a prefix of `x` that does not end with
/// whitespace.
pub proof fn lemma_trim_end(x: Seq<char>)
    ensures
        trim_end(x).len() <= x.len(),
        trim_end(x) == x.take(trim_end(x).len() as int),
        trim_end(x).len() > 0 ==> !is_whitespace(trim_end(x).last()),
    decreases x.len(),
{
    if x.len() > 0 && is_whitespace(x.last()) {
        lemma_trim_end(x.drop_last());
        assert(x.drop_last().take(trim_end(x).len() as int) =~= x.take(trim_end(x).len() as int));
    } else {
        assert(x.take(x.len() as int) =~= x);
    }
}

/// `trim` leaves no whitespace at either end.
pub proof fn lemma_trim_ends(x: Seq<char>)
    ensures
        trim(x).len() > 0 ==> !is_whitespace(trim(x)[0]) && !is_whitespace(trim(x).last()),
{
    let y = trim_start(x);
    lemma_trim_start(x);
    lemma_trim_end(y);
    if trim(x).len() > 0 {
        assert(trim(x)[0] == y.take(trim(x).len() as int)[0]);
        assert(y.len() > 0);
        assert(y[0] == y.take(trim(x).len() as int)[0]);
    }
}

/// `x` without the trailing run of `c` (`str::trim_end_matches(c)`).
pub open spec fn trim_end_char(x: Seq<char>, c: char) -> Seq<char>
    decreases x.len(),
{
    if x.len() > 0 && x.last() == c {
        trim_end_char(x.drop_last(), c)
    } else {
        x
    }
}

/// Index of the first `c` in `x` at or after `i`, or `x.len()` when there is none.
pub open spec fn find_from(x: Seq<char>, c: char, i: int) -> int
    decreases x.len() - i,
{
    if i < 0 || i >= x.len() {
        x.len() as int
    } else if x[i] == c {
        i
    } else {
        find_from(x, c, i + 1)
    }
}

pub proof fn lemma_find_from(x: Seq<char>, c: char, i: int)
    requires
        0 <= i <= x.len(),
    ensures
        i <= find_from(x, c, i) <= x.len(),
        find_from(x, c, i) < x.len() ==> x[find_from(x, c, i)] == c,
        forall|k: int| i <= k < find_from(x, c, i) ==> x[k] != c,
    decreases x.len() - i,
{
    if i < x.len() && x[i] != c {
        lemma_find_from(x, c, i + 1);
    }
}

/// End (exclusive) of the content of the line that starts at `start`: the
/// next `'\n'`, or the end of the text, with a `'\r'` just before a
/// `'\n'` left out.
pub open spec fn line_end(x: Seq<char>, start: int) -> int {
    let nl = find_from(x, '\n', start);
    if nl < x.len() && nl > start && x[nl - 1] == '\r' {
        nl - 1
    } else {
        nl
    }
}

/// Where the line after the one that starts at `start` begins.
pub open spec fn next_line_start(x: Seq<char>, start: int) -> int {
    let nl = find_from(x, '\n', start);
    if nl < x.len() {
        nl + 1
    } else {
        x.len() as int
    }
}

/// The lines of `x` from `start` on, as `(start, end)` pairs of the content
/// of each line; the lines are those that `str::lines` yields.
pub open spec fn line_spans_from(x: Seq<char>, start: int) -> Seq<(int, int)>
    decreases x.len() - start,
{
    if start < 0 || start >= x.len() {
        seq![]
    } else {
        proof {
            lemma_find_from(x, '\n', start);
        }
        seq![(start, line_end(x, start))] + line_spans_from(x, next_line_start(x, start))
    }
}

/// Spans that lie inside `x`, each with its start before its end, and
/// come in order of their starts.
pub open spec fn spans_in_order(x: Seq<char>, spans: Seq<(int, int)>) -> bool {
    &&& forall|a: int| 0 <= a < spans.len() ==> 0 <= #[trigger] spans[a].0 <= spans[a].1 <= x.len()
    &&& forall|a: int, b: int| 0 <= a < b < spans.len() ==> #[trigger] spans[a].0 < #[trigger] spans[b].0
}

/// The lines from `start` on lie in `x`, in order, and start at `start` or later.
pub proof fn lemma_line_spans_in_order(x: Seq<char>, start: int)
    requires
        0 <= start,
    ensures
        spans_in_order(x, line_spans_from(x, start)),
        forall|a: int|
            0 <= a < line_spans_from(x, start).len() ==> start <= #[trigger] line_spans_from(
                x,
                start,
            )[a].0,
    decreases x.len() - start,
{
    if start < x.len() {
        lemma_find_from(x, '\n', start);
        let next = next_line_start(x, start);
        lemma_line_spans_in_order(x, next);
        let rest = line_spans_from(x, next);
        let all = line_spans_from(x, start);
        assert(all == seq![(start, line_end(x, start))] + rest);
        assert forall|a: int, b: int| 0 <= a < b < all.len() implies #[trigger] all[a].0
            < #[trigger] all[b].0 by {
            assert(all[b] == rest[b - 1]);
            if a > 0 {
                assert(all[a] == rest[a - 1]);
            }
        }
        assert forall|a: int| 0 <= a < all.len() implies 0 <= #[trigger] all[a].0 <= all[a].1
            <= x.len() && start <= all[a].0 by {
            if a > 0 {
                assert(all[a] == rest[a - 1]);
            }
        }
    }
}

/// Searching a text with something put in front finds the same places,
/// moved by the length of what was put in front.
pub proof fn lemma_find_from_shift(pre: Seq<char>, x: Seq<char>, c: char, k: int)
    requires
        0 <= k <= x.len(),
    ensures
        find_from(pre + x, c, pre.len() + k) == pre.len() + find_from(x, c, k),
    decreases x.len() - k,
{
    if k < x.len() {
        assert((pre + x)[pre.len() + k] == x[k]);
        if x[k] != c {
            lemma_find_from_shift(pre, x, c, k + 1);
        }
    }
}

/// The span `sp` moved right by `off`.
pub open spec fn shift_span(sp: (int, int), off: int) -> (int, int) {
    (sp.0 + off, sp.1 + off)
}

/// The lines of a text with something put in front, from a point after
/// it, are those of the text, moved by its length.
pub proof fn lemma_line_spans_shift(pre: Seq<char>, x: Seq<char>, k: int)
    requires
        0 <= k <= x.len(),
    ensures
        line_spans_from(pre + x, pre.len() + k) == line_spans_from(x, k).map_values(
            |sp: (int, int)| shift_span(sp, pre.len() as int),
        ),
    decreases x.len() - k,
{
    let y = pre + x;
    let off = pre.len() as int;
    if k < x.len() {
        lemma_find_from(x, '\n', k);
        lemma_find_from_shift(pre, x, '\n', k);
        let nl = find_from(x, '\n', k);
        if nl < x.len() && nl > k {
            assert(y[off + nl - 1] == x[nl - 1]);
        }
        let next = next_line_start(x, k);
        assert(next_line_start(y, off + k) == off + next);
        assert(line_end(y, off + k) == off + line_end(x, k));
        lemma_line_spans_shift(pre, x, next);
        let rest = line_spans_from(x, next);
        let f = |sp: (int, int)| shift_span(sp, off);
        assert(line_spans_from(x, k) == seq![(k, line_end(x, k))] + rest);
        assert(line_spans_from(y, off + k) == seq![(off + k, line_end(y, off + k))] + line_spans_from(
            y,
            off + next,
        ));
        assert((seq![(k, line_end(x, k))] + rest).map_values(f) =~= seq![f((k, line_end(x, k)))]
            + rest.map_values(f));
    } else {
        assert(line_spans_from(x, k).map_values(|sp: (int, int)| shift_span(sp, off)) =~= Seq::<
            (int, int),
        >::empty());
    }
}

/// No line holds a newline.
pub proof fn lemma_line_spans_no_newline(x: Seq<char>, start: int)
    requires
        0 <= start,
    ensures
        forall|a: int|
            0 <= a < line_spans_from(x, start).len() ==> !span_text(
                x,
                #[trigger] line_spans_from(x, start)[a],
            ).contains('\n'),
    decreases x.len() - start,
{
    if start < x.len() {
        lemma_find_from(x, '\n', start);
        let next = next_line_start(x, start);
        lemma_line_spans_no_newline(x, next);
        let rest = line_spans_from(x, next);
        let all = line_spans_from(x, start);
        assert(all == seq![(start, line_end(x, start))] + rest);
        assert forall|a: int| 0 <= a < all.len() implies !span_text(x, #[trigger] all[a]).contains(
            '\n',
        ) by {
            if a > 0 {
                assert(all[a] == rest[a - 1]);
            } else {
                let t = span_text(x, all[0]);
                if t.contains('\n') {
                    let k = choose|k: int| 0 <= k < t.len() && t[k] == '\n';
                    assert(t[k] == x[start + k]);
                }
            }
        }
    }
}

/// The lines of `x`, as `str::lines` splits them.
pub open spec fn line_spans(x: Seq<char>) -> Seq<(int, int)> {
    line_spans_from(x, 0)
}

/// The text of the line with span `sp`.
pub open spec fn span_text(x: Seq<char>, sp: (int, int)) -> Seq<char> {
    x.subrange(sp.0, sp.1)
}

/// Number of bytes of the UTF-8 encoding of `x`.
pub open spec fn utf8_len(x: Seq<char>) -> nat {
    encode_utf8(x).len()
}

pub proof fn lemma_encode_concat(a: Seq<char>, b: Seq<char>)
    ensures
        encode_utf8(a + b) == encode_utf8(a) + encode_utf8(b),
    decreases a.len(),
{
    if a.len() == 0 {
        assert(a + b =~= b);
        assert(encode_utf8(a) =~= Seq::<u8>::empty());
        assert(encode_utf8(a) + encode_utf8(b) =~= encode_utf8(b));
    } else {
        lemma_encode_concat(a.drop_first(), b);
        assert((a + b).drop_first() =~= a.drop_first() + b);
        assert(encode_utf8(a + b) =~= encode_scalar(a[0] as u32) + encode_utf8(a.drop_first() + b));
    }
}

/// Each character takes one to four bytes.
pub proof fn lemma_encode_scalar_len(c: char)
    ensures
        1 <= encode_scalar(c as u32).len() <= 4,
{
}

pub proof fn lemma_utf8_len_push(a: Seq<char>, c: char)
    ensures
        utf8_len(a.push(c)) == utf8_len(a) + encode_scalar(c as u32).len(),
{
    lemma_encode_concat(a, seq![c]);
    assert(a + seq![c] =~= a.push(c));
    assert(seq![c].drop_first() =~= Seq::<char>::empty());
    assert(encode_utf8(Seq::<char>::empty()) =~= Seq::<u8>::empty());
    assert(encode_utf8(seq![c]) =~= encode_scalar(c as u32) + encode_utf8(seq![c].drop_first()));
    assert(encode_utf8(seq![c]) =~= encode_scalar(c as u32));
}

/// Taking more characters never takes fewer bytes, and every character
/// takes at least one.
pub proof fn lemma_utf8_len_take(x: Seq<char>, i: int, j: int)
    requires
        0 <= i <= j <= x.len(),
    ensures
        utf8_len(x.take(i)) + (j - i) <= utf8_len(x.take(j)),
        utf8_len(x.take(j)) <= utf8_len(x),
    decreases j - i,
{
    if i < j {
        lemma_utf8_len_take(x, i, j - 1);
        lemma_utf8_len_push(x.take(j - 1), x[j - 1]);
        assert(x.take(j - 1).push(x[j - 1]) =~= x.take(j));
        lemma_encode_scalar_len(x[j - 1]);
    }
    lemma_encode_concat(x.take(j), x.skip(j));
    assert(x.take(j) + x.skip(j) =~= x);
}

/// Number of bytes of the UTF-8 encoding of `c` (`char::len_utf8`).
pub fn char_utf8_len(c: char) -> (r: usize)
    ensures
        r == encode_scalar(c as u32).len(),
        1 <= r <= 4,
{
    let u = c as u32;
    if u < 0x80 {
        1
    } else if u < 0x800 {
        2
    } else if u < 0x10000 {
        3
    } else {
        4
    }
}

/// Collects the characters of `s` into a vector, in order.
pub fn chars_of(s: &str) -> (v: Vec<char>)
    ensures
        v@ == s@,
{
    let mut v: Vec<char> = Vec::new();
    for c in it: s.chars()
        invariant
            v@ == it.seq().take(it.index()),
    {
        v.push(c);
    }
    v
}

/// The lower-case form of an ASCII character.
pub open spec fn ascii_lower(c: char) -> char {
    if 'A' <= c && c <= 'Z' {
        ((c as u32) + 32) as char
    } else {
        c
    }
}

/// What `str::to_lowercase` gives for `s`.
pub uninterp spec fn spec_to_lowercase(s: Seq<char>) -> Seq<char>;

/// `str::to_lowercase`. The contract names the result; it also says that
/// the result is no shorter, as every character lower-cases to one or
/// more characters, and that ASCII text lower-cases letter by letter.
#[verifier::external_body]
pub fn to_lowercase(s: &str) -> (r: String)
    ensures
        r@ == spec_to_lowercase(s@),
        r@.len() >= s@.len(),
        is_ascii_chars(s@) ==> r@ == s@.map_values(|c: char| ascii_lower(c)),
{
    s.to_lowercase()
}

/// Appends `c` to `s` (`String::push`).
#[verifier::external_body]
pub fn push_char(s: &mut String, c: char)
    ensures
        final(s)@ == old(s)@.push(c),
{
    s.push(c);
}

/// A new string holding `v[lo..hi]`.
pub fn string_of(v: &Vec<char>, lo: usize, hi: usize) -> (s: String)
    requires
        lo <= hi <= v.len(),
    ensures
        s@ == v@.subrange(lo as int, hi as int),
{
    let mut s = String::new();
    let mut i = lo;
    while i < hi
        invariant
            lo <= i <= hi <= v.len(),
            s@ == v@.subrange(lo as int, i as int),
        decreases hi - i,
    {
        push_char(&mut s, v[i]);
        assert(v@.subrange(lo as int, i + 1) =~= v@.subrange(lo as int, i as int).push(v@[i as int]));
        i = i + 1;
    }
    s
}

/// Appends `v[lo..hi]` to `s`.
pub fn push_range(s: &mut String, v: &Vec<char>, lo: usize, hi: usize)
    requires
        lo <= hi <= v.len(),
    ensures
        final(s)@ == old(s)@ + v@.subrange(lo as int, hi as int),
{
    let mut i = lo;
    while i < hi
        invariant
            lo <= i <= hi <= v.len(),
            s@ == old(s)@ + v@.subrange(lo as int, i as int),
        decreases hi - i,
    {
        push_char(s, v[i]);
        assert(v@.subrange(lo as int, i + 1) =~= v@.subrange(lo as int, i as int).push(v@[i as int]));
        assert(old(s)@ + v@.subrange(lo as int, i + 1) =~= (old(s)@ + v@.subrange(lo as int, i as int)).push(v@[i as int]));
        i = i + 1;
    }
}

/// First index in `[lo, hi)` whose character is not whitespace, or `hi`.
pub fn skip_whitespace(v: &Vec<char>, lo: usize, hi: usize) -> (r: usize)
    requires
        lo <= hi <= v.len(),
    ensures
        lo <= r <= hi,
        trim_start(v@.subrange(lo as int, hi as int)) == v@.subrange(r as int, hi as int),
{
    let mut i = lo;
    while i < hi && is_whitespace_char(v[i])
        invariant
            lo <= i <= hi <= v.len(),
            trim_start(v@.subrange(lo as int, hi as int)) == trim_start(v@.subrange(i as int, hi as int)),
        decreases hi - i,
    {
        assert(v@.subrange(i as int, hi as int).drop_first() =~= v@.subrange(i + 1, hi as int));
        i = i + 1;
    }
    i
}

/// End of `v[lo..hi]` once its trailing whitespace is left out.
pub fn back_whitespace(v: &Vec<char>, lo: usize, hi: usize) -> (r: usize)
    requires
        lo <= hi <= v.len(),
    ensures
        lo <= r <= hi,
        trim_end(v@.subrange(lo as int, hi as int)) == v@.subrange(lo as int, r as int),
{
    let mut j = hi;
    while j > lo && is_whitespace_char(v[j - 1])
        invariant
            lo <= j <= hi <= v.len(),
            trim_end(v@.subrange(lo as int, hi as int)) == trim_end(v@.subrange(lo as int, j as int)),
        decreases j - lo,
    {
        assert(v@.subrange(lo as int, j as int).drop_last() =~= v@.subrange(lo as int, j - 1));
        j = j - 1;
    }
    j
}

/// End of `v[lo..hi]` once its trailing run of `c` is left out.
pub fn back_char(v: &Vec<char>, lo: usize, hi: usize, c: char) -> (r: usize)
    requires
        lo <= hi <= v.len(),
    ensures
        lo <= r <= hi,
        trim_end_char(v@.subrange(lo as int, hi as int), c) == v@.subrange(lo as int, r as int),
{
    let mut j = hi;
    while j > lo && v[j - 1] == c
        invariant
            lo <= j <= hi <= v.len(),
            trim_end_char(v@.subrange(lo as int, hi as int), c) == trim_end_char(
                v@.subrange(lo as int, j as int),
                c,
            ),
        decreases j - lo,
    {
        assert(v@.subrange(lo as int, j as int).drop_last() =~= v@.subrange(lo as int, j - 1));
        j = j - 1;
    }
    j
}

/// The line that starts at `start`: the end of its content and where the
/// next line starts.
pub fn scan_line(v: &Vec<char>, start: usize) -> (r: (usize, usize))
    requires
        start < v.len(),
    ensures
        r.0 == line_end(v@, start as int),
        r.1 == next_line_start(v@, start as int),
        start <= r.0 <= r.1 <= v.len(),
        start < r.1,
{
    let n = v.len();
    let mut j = start;
    while j < n && v[j] != '\n'
        invariant
            start <= j <= n == v.len(),
            find_from(v@, '\n', start as int) == find_from(v@, '\n', j as int),
        decreases n - j,
    {
        j = j + 1;
    }
    proof {
        lemma_find_from(v@, '\n', start as int);
    }
    let end = if j < n && j > start && v[j - 1] == '\r' {
        j - 1
    } else {
        j
    };
    let next = if j < n {
        j + 1
    } else {
        n
    };
    (end, next)
}

/// Number of bytes of the UTF-8 encoding of `v[lo..hi]`, given that of `v[..lo]`.
pub fn utf8_len_upto(v: &Vec<char>, lo: usize, hi: usize, at_lo: usize, total: usize) -> (r: usize)
    requires
        lo <= hi <= v.len(),
        at_lo == utf8_len(v@.take(lo as int)),
        total == utf8_len(v@),
    ensures
        r == utf8_len(v@.take(hi as int)),
{
    let mut i = lo;
    let mut b = at_lo;
    while i < hi
        invariant
            lo <= i <= hi <= v.len(),
            b == utf8_len(v@.take(i as int)),
            total == utf8_len(v@),
        decreases hi - i,
    {
        proof {
            lemma_utf8_len_push(v@.take(i as int), v@[i as int]);
            assert(v@.take(i as int).push(v@[i as int]) =~= v@.take(i + 1));
            lemma_utf8_len_take(v@, i + 1, v@.len() as int);
        }
        b = b + char_utf8_len(v[i]);
        i = i + 1;
    }
    b
}

} // verus!
