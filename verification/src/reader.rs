//! The reader's own decisions: keyboard shortcuts, the outline markers, the
//! text statistics, the search hit count and the window title.

use vstd::prelude::*;
use vstd::string::StringExecFns;
use crate::text;
use crate::text::{chars_of, scan_line, to_lowercase};

verus! {

/// The keys that have a shortcut.
#[derive(Debug, Clone, Copy, PartialEq, Eq, Structural)]
pub enum Key {
    O,
    L,
    F,
    Equals,
    Minus,
    Num0,
    F9,
    Escape,
}

/// What a shortcut asks for.
#[derive(Debug, Clone, Copy, PartialEq, Eq, Structural)]
pub enum Command {
    OpenFile,
    ToggleTheme,
    OpenFind,
    ZoomIn,
    ZoomOut,
    ResetZoom,
    ToggleToc,
    CloseFind,
}

/// The command of a key press: Ctrl (or Command) with O, L, F, `=`, `-`
/// or 0; F9 alone; Escape while the find bar is open.
pub open spec fn spec_command_for_key(key: Key, command_held: bool, find_open: bool) -> Option<
    Command,
> {
    match key {
        Key::O => if command_held {
            Some(Command::OpenFile)
        } else {
            None
        },
        Key::L => if command_held {
            Some(Command::ToggleTheme)
        } else {
            None
        },
        Key::F => if command_held {
            Some(Command::OpenFind)
        } else {
            None
        },
        Key::Equals => if command_held {
            Some(Command::ZoomIn)
        } else {
            None
        },
        Key::Minus => if command_held {
            Some(Command::ZoomOut)
        } else {
            None
        },
        Key::Num0 => if command_held {
            Some(Command::ResetZoom)
        } else {
            None
        },
        Key::F9 => Some(Command::ToggleToc),
        Key::Escape => if find_open {
            Some(Command::CloseFind)
        } else {
            None
        },
    }
}

/// Without Ctrl (or Command) held, only F9, and Escape while the find bar
/// is open, ask for anything; F9 toggles the outline whatever is held,
/// Escape closes the find bar exactly when it is open, and with Ctrl held
/// each of the other keys asks for a command of its own.
pub proof fn lemma_shortcut_keys(key: Key, find_open: bool)
    ensures
        key != Key::F9 && key != Key::Escape ==> spec_command_for_key(key, false, find_open)
            is None,
        spec_command_for_key(Key::F9, false, find_open) == Some(Command::ToggleToc),
        spec_command_for_key(Key::F9, true, find_open) == Some(Command::ToggleToc),
        spec_command_for_key(Key::Escape, true, find_open) is Some <==> find_open,
        spec_command_for_key(Key::Escape, false, find_open) is Some <==> find_open,
        key != Key::F9 && key != Key::Escape ==> spec_command_for_key(key, true, find_open) is Some,
        forall|k1: Key, k2: Key|
            k1 != k2 && spec_command_for_key(k1, true, find_open) is Some && spec_command_for_key(
                k2,
                true,
                find_open,
            ) is Some ==> #[trigger] spec_command_for_key(k1, true, find_open)
                != #[trigger] spec_command_for_key(k2, true, find_open),
{
}

/// The command that a key press asks for, if any.
pub fn command_for_key(key: Key, command_held: bool, find_open: bool) -> (r: Option<Command>)
    ensures
        r == spec_command_for_key(key, command_held, find_open),
{
    match key {
        Key::O => if command_held {
            Some(Command::OpenFile)
        } else {
            None
        },
        Key::L => if command_held {
            Some(Command::ToggleTheme)
        } else {
            None
        },
        Key::F => if command_held {
            Some(Command::OpenFind)
        } else {
            None
        },
        Key::Equals => if command_held {
            Some(Command::ZoomIn)
        } else {
            None
        },
        Key::Minus => if command_held {
            Some(Command::ZoomOut)
        } else {
            None
        },
        Key::Num0 => if command_held {
            Some(Command::ResetZoom)
        } else {
            None
        },
        Key::F9 => Some(Command::ToggleToc),
        Key::Escape => if find_open {
            Some(Command::CloseFind)
        } else {
            None
        },
    }
}

/// The symbol put in front of an outline entry of the given level.
pub open spec fn spec_marker(level: u8) -> Seq<char> {
    if level == 1 {
        "▍"@
    } else if level == 2 {
        "▪"@
    } else {
        "·"@
    }
}

/// The symbol put in front of an outline entry of the given level.
pub fn marker(level: u8) -> (r: &'static str)
    ensures
        r@ == spec_marker(level),
{
    match level {
        1 => "▍",
        2 => "▪",
        _ => "·",
    }
}

/// Number of lines of `text`, as `str::lines` counts them.
pub fn count_lines(text: &str) -> (r: usize)
    ensures
        r == text::line_spans(text@).len(),
{
    let v = chars_of(text);
    let n = v.len();
    let mut pos: usize = 0;
    let mut count: usize = 0;
    while pos < n
        invariant
            n == v.len(),
            v@ == text@,
            pos <= n,
            count <= pos,
            count + text::line_spans_from(v@, pos as int).len() == text::line_spans(v@).len(),
        decreases n - pos,
    {
        let (_end, next) = scan_line(&v, pos);
        assert(text::line_spans_from(v@, pos as int).len() == 1 + text::line_spans_from(
            v@,
            next as int,
        ).len());
        count = count + 1;
        pos = next;
    }
    count
}

/// Number of non-overlapping occurrences of the non-empty `needle` in `h`
/// from `i` on, taken from left to right.
pub open spec fn occurrences_from(h: Seq<char>, needle: Seq<char>, i: int) -> nat
    decreases h.len() - i,
{
    if needle.len() == 0 || i < 0 || i + needle.len() > h.len() {
        0
    } else if h.subrange(i, i + needle.len()) == needle {
        1 + occurrences_from(h, needle, i + needle.len())
    } else {
        occurrences_from(h, needle, i + 1)
    }
}

/// Number of non-overlapping occurrences of the non-empty `needle` in `h`.
pub open spec fn occurrences(h: Seq<char>, needle: Seq<char>) -> nat {
    occurrences_from(h, needle, 0)
}

/// The number of search hits shown in the find bar: none for an empty
/// query, else the non-overlapping occurrences of the lower-cased query in
/// the lower-cased text.
pub open spec fn spec_count_matches(text: Seq<char>, query: Seq<char>) -> nat {
    if query.len() == 0 {
        0
    } else {
        occurrences(text::spec_to_lowercase(text), text::spec_to_lowercase(query))
    }
}

/// `s` with its ASCII letters lower-cased.
pub open spec fn ascii_lowered(s: Seq<char>) -> Seq<char> {
    s.map_values(|c: char| text::ascii_lower(c))
}

/// The search hits, read for ASCII text and query through ASCII
/// lower-casing: none for an empty query, else the non-overlapping
/// occurrences of the lower-cased query in the lower-cased text.
pub open spec fn spec_search_hits(text: Seq<char>, query: Seq<char>) -> nat {
    if query.len() == 0 {
        0
    } else if vstd::utf8::is_ascii_chars(text) && vstd::utf8::is_ascii_chars(query) {
        occurrences(ascii_lowered(text), ascii_lowered(query))
    } else {
        occurrences(text::spec_to_lowercase(text), text::spec_to_lowercase(query))
    }
}

/// `needle` stands in `h` at `i`, ignoring ASCII case.
pub open spec fn matches_ignoring_case(h: Seq<char>, needle: Seq<char>, i: int) -> bool {
    &&& 0 <= i
    &&& i + needle.len() <= h.len()
    &&& forall|j: int|
        0 <= j < needle.len() ==> text::ascii_lower(#[trigger] h[i + j]) == text::ascii_lower(
            needle[j],
        )
}

/// There are occurrences from `i` on exactly when the needle stands
/// somewhere from `i` on.
proof fn lemma_occurrences_from_positive(h: Seq<char>, needle: Seq<char>, i: int)
    requires
        needle.len() > 0,
        0 <= i,
    ensures
        occurrences_from(h, needle, i) > 0 <==> exists|k: int|
            i <= k && k + needle.len() <= h.len() && #[trigger] h.subrange(k, k + needle.len())
                == needle,
    decreases h.len() - i,
{
    if i + needle.len() <= h.len() {
        lemma_occurrences_from_positive(h, needle, i + 1);
        if h.subrange(i, i + needle.len()) != needle {
            if exists|k: int|
                i <= k && k + needle.len() <= h.len() && #[trigger] h.subrange(k, k + needle.len())
                    == needle {
                let k = choose|k: int|
                    i <= k && k + needle.len() <= h.len() && #[trigger] h.subrange(
                        k,
                        k + needle.len(),
                    ) == needle;
                assert(k != i);
            }
        }
    }
}

/// The search ignores the case of an ASCII query: two queries that differ
/// only in the case of their letters find the same number of hits.
pub proof fn lemma_search_ignores_query_case(t: Seq<char>, q1: Seq<char>, q2: Seq<char>)
    requires
        vstd::utf8::is_ascii_chars(t),
        vstd::utf8::is_ascii_chars(q1),
        vstd::utf8::is_ascii_chars(q2),
        q1.len() == q2.len(),
        forall|j: int| 0 <= j < q1.len() ==> text::ascii_lower(#[trigger] q1[j]) == text::ascii_lower(q2[j]),
    ensures
        spec_search_hits(t, q1) == spec_search_hits(t, q2),
{
    assert(ascii_lowered(q1) =~= ascii_lowered(q2));
}

/// For an ASCII text and a non-empty ASCII query there are hits exactly
/// when the query stands somewhere in the text, ignoring the case of the
/// letters on either side.
pub proof fn lemma_search_hits_found(t: Seq<char>, q: Seq<char>)
    requires
        vstd::utf8::is_ascii_chars(t),
        vstd::utf8::is_ascii_chars(q),
        q.len() > 0,
    ensures
        spec_search_hits(t, q) > 0 <==> exists|i: int| #[trigger] matches_ignoring_case(t, q, i),
{
    let h = ascii_lowered(t);
    let n = ascii_lowered(q);
    lemma_occurrences_from_positive(h, n, 0);
    if spec_search_hits(t, q) > 0 {
        let k = choose|k: int|
            0 <= k && k + n.len() <= h.len() && #[trigger] h.subrange(k, k + n.len()) == n;
        assert forall|j: int| 0 <= j < q.len() implies text::ascii_lower(#[trigger] t[k + j])
            == text::ascii_lower(q[j]) by {
            assert(h.subrange(k, k + n.len())[j] == n[j]);
        }
        assert(matches_ignoring_case(t, q, k));
    }
    if exists|i: int| #[trigger] matches_ignoring_case(t, q, i) {
        let i = choose|i: int| #[trigger] matches_ignoring_case(t, q, i);
        assert(h.subrange(i, i + n.len()) =~= n) by {
            assert forall|j: int| 0 <= j < n.len() implies h.subrange(i, i + n.len())[j] == n[j] by {
                assert(text::ascii_lower(t[i + j]) == text::ascii_lower(q[j]));
            }
        }
    }
}

/// Whether `needle` occurs in `h` at `i`.
fn matches_at(h: &Vec<char>, needle: &Vec<char>, i: usize) -> (r: bool)
    requires
        i + needle.len() <= h.len(),
    ensures
        r == (h@.subrange(i as int, i + needle.len()) == needle@),
{
    let m = needle.len();
    let mut k: usize = 0;
    while k < m
        invariant
            m == needle.len(),
            i + m <= h.len(),
            k <= m,
            forall|j: int| 0 <= j < k ==> h@[i + j] == needle@[j],
        decreases m - k,
    {
        if h[i + k] != needle[k] {
            assert(h@.subrange(i as int, i + m)[k as int] != needle@[k as int]);
            return false;
        }
        k = k + 1;
    }
    assert(h@.subrange(i as int, i + m) =~= needle@);
    true
}

/// Number of non-overlapping occurrences of the non-empty `needle` in
/// `haystack`, found from left to right (as `str::matches` counts them).
pub fn count_occurrences(haystack: &str, needle: &str) -> (r: usize)
    requires
        needle@.len() > 0,
    ensures
        r == occurrences(haystack@, needle@),
{
    let h = chars_of(haystack);
    let pat = chars_of(needle);
    let n = h.len();
    let m = pat.len();
    let mut i: usize = 0;
    let mut count: usize = 0;
    while m <= n && i <= n - m
        invariant
            n == h.len(),
            m == pat.len(),
            m > 0,
            h@ == haystack@,
            pat@ == needle@,
            count <= i,
            i <= n,
            count + occurrences_from(h@, pat@, i as int) == occurrences_from(h@, pat@, 0),
        decreases n - i,
    {
        if matches_at(&h, &pat, i) {
            count = count + 1;
            i = i + m;
        } else {
            i = i + 1;
        }
    }
    count
}

/// Case-insensitive count of the search hits of `query` in `text`; an
/// empty query has none.
pub fn count_matches(text: &str, query: &str) -> (r: usize)
    ensures
        r == spec_count_matches(text@, query@),
        r == spec_search_hits(text@, query@),
{
    if query.is_empty() {
        return 0;
    }
    let lower_text = to_lowercase(text);
    let lower_query = to_lowercase(query);
    count_occurrences(lower_text.as_str(), lower_query.as_str())
}

/// The window title: the name of the open file (or a stand-in when it
/// has no readable name) followed by the application name, or the
/// application name alone when no file is open.
pub open spec fn spec_window_title(file_name: Option<Option<Seq<char>>>) -> Seq<char> {
    match file_name {
        None => "MD 阅读器"@,
        Some(None) => "未知文件"@ + " - MD 阅读器"@,
        Some(Some(name)) => name + " - MD 阅读器"@,
    }
}

/// The window title for the open file, given as its name when it has a
/// readable one.
pub fn window_title(file_name: Option<Option<&str>>) -> (r: String)
    ensures
        r@ == spec_window_title(
            match file_name {
                None => None,
                Some(None) => Some(None),
                Some(Some(name)) => Some(Some(name@)),
            },
        ),
{
    match file_name {
        None => String::from_str("MD 阅读器"),
        Some(None) => String::from_str("未知文件").concat(" - MD 阅读器"),
        Some(Some(name)) => String::from_str(name).concat(" - MD 阅读器"),
    }
}

/// How often the open file is checked for changes, in milliseconds.
pub const RELOAD_INTERVAL_MS: u64 = 800;

/// Whether it is time to look at the open file's modification time: a file
/// is open and at least `RELOAD_INTERVAL_MS` passed since the last look.
pub fn reload_check_due(has_file: bool, elapsed_ms: u64) -> (due: bool)
    ensures
        due == (has_file && elapsed_ms >= RELOAD_INTERVAL_MS),
{
    has_file && elapsed_ms >= RELOAD_INTERVAL_MS
}

/// Whether the open file must be read again: its modification time (in
/// nanoseconds from the Unix epoch) could be read and differs from the one
/// last recorded.
pub fn reload_needed(last: Option<i128>, now: Option<i128>) -> (r: bool)
    ensures
        r == (now matches Some(m) && last != Some(m)),
{
    match now {
        Some(m) => match last {
            Some(l) => l != m,
            None => true,
        },
        None => false,
    }
}

/// The modification time recorded after a reload: the new one when the
/// file could be read again, else the one recorded before.
pub fn mtime_after_reload(last: Option<i128>, now: i128, read_ok: bool) -> (r: Option<i128>)
    ensures
        r == if read_ok {
            Some(now)
        } else {
            last
        },
{
    if read_ok {
        Some(now)
    } else {
        last
    }
}

/// The text of an optional string.
pub open spec fn opt_text(s: Option<String>) -> Option<Seq<char>> {
    match s {
        Some(t) => Some(t@),
        None => None,
    }
}

/// The file opened at start-up: the one named on the command line, else
/// the file opened last, when it still exists and is a Markdown file.
pub fn startup_file(
    cli: Option<String>,
    last: Option<String>,
    last_exists: bool,
    last_is_markdown: bool,
) -> (r: Option<String>)
    ensures
        opt_text(r) == match cli {
            Some(p) => Some(p@),
            None => if last_exists && last_is_markdown {
                opt_text(last)
            } else {
                None
            },
        },
{
    match cli {
        Some(p) => Some(p),
        None => if last_exists && last_is_markdown {
            last
        } else {
            None
        },
    }
}

} // verus!
