//! Turning the bytes of a Markdown file into text, and recognising
//! Markdown files by their extension.
//!
//! Decoding tries, in order: strict UTF-8 once a UTF-8 byte order mark is
//! removed; GBK (common on Chinese Windows); and UTF-8 with the malformed
//! sequences replaced, so that the reader always shows something.

use vstd::prelude::*;
use vstd::string::StringExecFns;
use crate::text;
use crate::text::to_lowercase;

verus! {

/// Whether `b` starts with the UTF-8 byte order mark `EF BB BF`.
pub open spec fn has_utf8_bom(b: Seq<u8>) -> bool {
    b.len() >= 3 && b[0] == 0xEF && b[1] == 0xBB && b[2] == 0xBF
}

/// `b` without a leading UTF-8 byte order mark.
pub open spec fn without_utf8_bom(b: Seq<u8>) -> Seq<u8> {
    if has_utf8_bom(b) {
        b.skip(3)
    } else {
        b
    }
}

/// Removes one leading UTF-8 byte order mark (`EF BB BF`), if there is one.
pub fn strip_utf8_bom(bytes: &[u8]) -> (r: &[u8])
    ensures
        r@ == without_utf8_bom(bytes@),
{
    if bytes.len() >= 3 && bytes[0] == 0xEF && bytes[1] == 0xBB && bytes[2] == 0xBF {
        vstd::slice::slice_subrange(bytes, 3, bytes.len())
    } else {
        bytes
    }
}

/// The text and the had-errors flag that `encoding_rs::GBK.decode` gives
/// for `bytes`.
pub uninterp spec fn gbk_decoding(bytes: Seq<u8>) -> (Seq<char>, bool);

/// The text that `String::from_utf8_lossy` gives for `bytes`.
pub uninterp spec fn utf8_lossy(bytes: Seq<u8>) -> Seq<char>;

/// `std::str::from_utf8`: the text whose UTF-8 encoding is `bytes`, when
/// `bytes` is valid UTF-8.
#[verifier::external_body]
fn utf8_str(bytes: &[u8]) -> (r: Option<&str>)
    ensures
        r is Some <==> vstd::utf8::valid_utf8(bytes@),
        r matches Some(s) ==> s@ == vstd::utf8::decode_utf8(bytes@),
{
    std::str::from_utf8(bytes).ok()
}

/// `encoding_rs::GBK.decode`: the decoded text and whether malformed
/// sequences were met. The contract names the result and says nothing of
/// how the text is decoded (this includes the byte-order-mark sniffing
/// that `Encoding::decode` does). The call panics when the buffer it sizes
/// (three bytes per input byte, plus one) exceeds `isize::MAX`, hence the
/// bound.
#[verifier::external_body]
fn decode_gbk(bytes: &[u8]) -> (r: (String, bool))
    requires
        3 * bytes@.len() + 1 <= isize::MAX,
    ensures
        (r.0@, r.1) == gbk_decoding(bytes@),
{
    let (text, _encoding, had_errors) = encoding_rs::GBK.decode(bytes);
    (text.into_owned(), had_errors)
}

/// `String::from_utf8_lossy`: `bytes` decoded as UTF-8 with every
/// malformed sequence replaced by U+FFFD. The contract names the result;
/// on valid UTF-8 it is the plain decoding, as the documentation says.
#[verifier::external_body]
fn decode_utf8_lossy(bytes: &[u8]) -> (r: String)
    ensures
        r@ == utf8_lossy(bytes@),
        vstd::utf8::valid_utf8(bytes@) ==> r@ == vstd::utf8::decode_utf8(bytes@),
{
    String::from_utf8_lossy(bytes).into_owned()
}

/// What is shown once the GBK attempt came back: its text when it met no
/// malformed sequence, else the lossy UTF-8 decoding of `bytes`.
pub open spec fn text_after_gbk(decoded: Seq<char>, had_errors: bool, bytes: Seq<u8>) -> Seq<
    char,
> {
    if !had_errors {
        decoded
    } else {
        utf8_lossy(bytes)
    }
}

/// The text of a Markdown file whose content is `b`.
pub open spec fn markdown_text(b: Seq<u8>) -> Seq<char> {
    let body = without_utf8_bom(b);
    if vstd::utf8::valid_utf8(body) {
        vstd::utf8::decode_utf8(body)
    } else {
        text_after_gbk(gbk_decoding(body).0, gbk_decoding(body).1, body)
    }
}

/// Chooses between the GBK decoding of `bytes` (given as `decoded` and
/// `had_errors`) and the lossy UTF-8 decoding.
pub fn fallback_after_gbk(decoded: String, had_errors: bool, bytes: &[u8]) -> (r: String)
    ensures
        r@ == text_after_gbk(decoded@, had_errors, bytes@),
{
    if !had_errors {
        decoded
    } else {
        decode_utf8_lossy(bytes)
    }
}

/// Decodes the content of a Markdown file: UTF-8 without its byte order
/// mark when that is valid, else GBK when that meets no malformed sequence,
/// else lossy UTF-8.
pub fn decode_markdown(bytes: &[u8]) -> (r: String)
    requires
        vstd::utf8::valid_utf8(without_utf8_bom(bytes@)) || 3 * bytes@.len() + 1 <= isize::MAX,
    ensures
        r@ == markdown_text(bytes@),
{
    let body = strip_utf8_bom(bytes);
    match utf8_str(body) {
        Some(s) => {
            s.to_owned()
        },
        None => {
            let (decoded, had_errors) = decode_gbk(body);
            fallback_after_gbk(decoded, had_errors, body)
        },
    }
}

/// The byte order mark is the encoding of U+FEFF and of no other character.
proof fn lemma_bom_is_feff(v: u32)
    requires
        vstd::utf8::is_scalar(v),
        vstd::utf8::encode_scalar(v).len() >= 3,
        vstd::utf8::encode_scalar(v)[0] == 0xEF,
        vstd::utf8::encode_scalar(v)[1] == 0xBB,
        vstd::utf8::encode_scalar(v)[2] == 0xBF,
    ensures
        v == 0xFEFF,
{
    if vstd::utf8::has_width_3_encoding(v) {
        assert(vstd::utf8::encode_scalar(v)[0] == (0xE0 | ((v >> 12) & 0x0F) as u8));
        assert(vstd::utf8::encode_scalar(v)[1] == (0x80 | ((v >> 6) & 0x3F) as u8));
        assert(vstd::utf8::encode_scalar(v)[2] == (0x80 | (v & 0x3F) as u8));
        assert((0xE0 | ((v >> 12) & 0x0F) as u8) == 0xEF && (0x80 | ((v >> 6) & 0x3F) as u8)
            == 0xBB && (0x80 | (v & 0x3F) as u8) == 0xBF && 0x800 <= v <= 0xFFFF ==> v == 0xFEFF)
            by (bit_vector);
    } else if vstd::utf8::has_width_4_encoding(v) {
        assert(vstd::utf8::encode_scalar(v)[0] == (0xF0 | ((v >> 18) & 0x7) as u8));
        assert((0xF0 | ((v >> 18) & 0x7) as u8) != 0xEF) by (bit_vector);
    }
}

/// A file in UTF-8 reads back as its text: with a byte order mark in
/// front always, and without one when the text does not itself begin with
/// U+FEFF (whose encoding is the mark).
pub proof fn lemma_utf8_file_reads_back(s: Seq<char>)
    ensures
        markdown_text(seq![0xEFu8, 0xBBu8, 0xBFu8] + vstd::utf8::encode_utf8(s)) == s,
        s.len() == 0 || s[0] != '\u{FEFF}' ==> markdown_text(vstd::utf8::encode_utf8(s)) == s,
{
    let e = vstd::utf8::encode_utf8(s);
    vstd::utf8::encode_utf8_valid_utf8(s);
    vstd::utf8::encode_utf8_decode_utf8(s);
    let with_bom = seq![0xEFu8, 0xBBu8, 0xBFu8] + e;
    assert(has_utf8_bom(with_bom));
    assert(with_bom.skip(3) =~= e);
    if s.len() > 0 && s[0] != '\u{FEFF}' {
        let c = s[0];
        let u = c as u32;
        vstd::utf8::char_is_scalar(c);
        assert(e == vstd::utf8::encode_scalar(c as u32) + vstd::utf8::encode_utf8(s.drop_first()));
        if has_utf8_bom(e) {
            let first = vstd::utf8::encode_scalar(c as u32);
            if first.len() >= 3 {
                assert(first[0] == e[0] && first[1] == e[1] && first[2] == e[2]);
                lemma_bom_is_feff(c as u32);
                vstd::utf8::char_u32_cast(c, c as u32);
                assert(c == ('\u{FEFF}' as u32) as char);
            } else if first.len() == 1 {
                assert(first[0] == e[0]);
                assert((u & 0x7F) as u8 != 0xEF) by (bit_vector);
            } else {
                assert(first[0] == e[0]);
                assert((0xC0 | ((u >> 6) & 0x1F) as u8) != 0xEF) by (bit_vector);
            }
        }
    }
}

/// Index of the last `c` among the first `j` characters of `x`, or -1.
pub open spec fn rfind_before(x: Seq<char>, c: char, j: int) -> int
    decreases j,
{
    if j <= 0 || j > x.len() {
        -1
    } else if x[j - 1] == c {
        j - 1
    } else {
        rfind_before(x, c, j - 1)
    }
}

pub proof fn lemma_rfind_before(x: Seq<char>, c: char, j: int)
    requires
        0 <= j <= x.len(),
    ensures
        -1 <= rfind_before(x, c, j) < j,
    decreases j,
{
    if j > 0 && x[j - 1] != c {
        lemma_rfind_before(x, c, j - 1);
    }
}

/// The file name of a path whose last component is the same on every
/// platform: the path holds no `\` and no `:` (so it has no Windows
/// prefix), does not start with `//` (a UNC prefix on Windows), and what
/// follows its last `/` is neither empty (a trailing `/`), `.` nor `..`.
/// Then that part is the file name; for other paths, none is given here.
pub open spec fn portable_file_name(p: Seq<char>) -> Option<Seq<char>> {
    let name = p.skip(rfind_before(p, '/', p.len() as int) + 1);
    if !p.contains('\\') && !p.contains(':') && !(p.len() >= 2 && p[0] == '/' && p[1] == '/')
        && name.len() > 0 && name != "."@ && name != ".."@ {
        Some(name)
    } else {
        None
    }
}

/// Whether `c` separates path components on some platform.
pub open spec fn is_separator(c: char) -> bool {
    c == '/' || c == '\\'
}

/// Where the part of `p` after its last separator (of either kind) starts.
pub open spec fn last_segment_start(p: Seq<char>) -> int {
    let a = rfind_before(p, '/', p.len() as int);
    let b = rfind_before(p, '\\', p.len() as int);
    (if a > b {
        a
    } else {
        b
    }) + 1
}

/// What follows the last `.` of `p`, when that is the extension of `p` on
/// every platform: the `.` comes after the last separator (of either kind)
/// with a non-empty name before it that holds no `:` (so no Windows drive
/// stands in it), what follows it is not empty and holds no `:`, and `p`
/// does not start with two separators (a Windows UNC or device prefix).
pub open spec fn trailing_extension(p: Seq<char>) -> Option<Seq<char>> {
    let dot = rfind_before(p, '.', p.len() as int);
    let seg = last_segment_start(p);
    if dot > seg && !p.subrange(seg, dot).contains(':') && p.len() > dot + 1 && !p.skip(
        dot + 1,
    ).contains(':') && !(p.len() >= 2 && is_separator(p[0]) && is_separator(p[1])) {
        Some(p.skip(dot + 1))
    } else {
        None
    }
}

/// Searching back from `j` to `j0` finds nothing new when none of the
/// characters in between is `c`.
proof fn lemma_rfind_skip(x: Seq<char>, c: char, j0: int, j: int)
    requires
        0 <= j0 <= j <= x.len(),
        forall|k: int| j0 <= k < j ==> x[k] != c,
    ensures
        rfind_before(x, c, j) == rfind_before(x, c, j0),
    decreases j - j0,
{
    if j > j0 {
        lemma_rfind_skip(x, c, j0, j - 1);
    }
}

/// Searching back from `j` looks at the first `j` characters only.
proof fn lemma_rfind_prefix(x: Seq<char>, y: Seq<char>, c: char, j: int)
    requires
        0 <= j <= x.len(),
        j <= y.len(),
        forall|k: int| 0 <= k < j ==> x[k] == y[k],
    ensures
        rfind_before(x, c, j) == rfind_before(y, c, j),
    decreases j,
{
    if j > 0 {
        lemma_rfind_prefix(x, y, c, j - 1);
    }
}

/// The last `c` of `a + b`, when `b` holds none, is the last `c` of `a`.
proof fn lemma_rfind_concat(a: Seq<char>, b: Seq<char>, c: char)
    requires
        !b.contains(c),
    ensures
        rfind_before(a + b, c, (a + b).len() as int) == rfind_before(a, c, a.len() as int),
{
    let x = a + b;
    assert forall|k: int| a.len() <= k < x.len() implies x[k] != c by {
        assert(x[k] == b[k - a.len()]);
    }
    lemma_rfind_skip(x, c, a.len() as int, x.len() as int);
    lemma_rfind_prefix(x, a, c, a.len() as int);
}

/// A path made of a directory part (empty, or ending in `/` or `\`), a
/// non-empty name without separators or `:`, a `.` and an extension
/// without `.`, separators or `:`, that does not start with two
/// separators, has that extension on every platform, whatever the
/// directory part holds.
pub proof fn lemma_extension_after_directories(pre: Seq<char>, name: Seq<char>, e: Seq<char>)
    requires
        pre.len() == 0 || is_separator(pre.last()),
        name.len() > 0,
        !name.contains('/') && !name.contains('\\') && !name.contains(':'),
        e.len() > 0,
        !e.contains('.') && !e.contains('/') && !e.contains('\\') && !e.contains(':'),
        !((pre + name + seq!['.'] + e).len() >= 2 && is_separator((pre + name + seq!['.'] + e)[0])
            && is_separator((pre + name + seq!['.'] + e)[1])),
    ensures
        trailing_extension(pre + name + seq!['.'] + e) == Some(e),
{
    let p = pre + name + seq!['.'] + e;
    let head = pre + name + seq!['.'];
    assert(p == head + e);
    lemma_rfind_concat(head, e, '.');
    assert(rfind_before(head, '.', head.len() as int) == pre.len() + name.len());
    let dot: int = pre.len() + name.len() as int;
    let tail = name + seq!['.'] + e;
    assert(p =~= pre + tail);
    assert(!tail.contains('/')) by {
        if tail.contains('/') {
            let k = choose|k: int| 0 <= k < tail.len() && tail[k] == '/';
            if k < name.len() {
                assert(tail[k] == name[k]);
            } else if k > name.len() {
                assert(tail[k] == e[k - name.len() - 1]);
            }
        }
    }
    assert(!tail.contains('\\')) by {
        if tail.contains('\\') {
            let k = choose|k: int| 0 <= k < tail.len() && tail[k] == '\\';
            if k < name.len() {
                assert(tail[k] == name[k]);
            } else if k > name.len() {
                assert(tail[k] == e[k - name.len() - 1]);
            }
        }
    }
    lemma_rfind_concat(pre, tail, '/');
    lemma_rfind_concat(pre, tail, '\\');
    lemma_rfind_before(pre, '/', pre.len() as int);
    lemma_rfind_before(pre, '\\', pre.len() as int);
    assert(last_segment_start(p) == pre.len());
    assert(p.subrange(pre.len() as int, dot) =~= name);
    assert(p.skip(dot + 1) =~= e);
}

/// The extension of a plain file name, as `Path::extension` documents it:
/// none without a `.`, none when the only `.` starts the name, else what
/// follows the last `.`.
pub open spec fn plain_name_extension(p: Seq<char>) -> Option<Seq<char>> {
    let dot = rfind_before(p, '.', p.len() as int);
    if dot <= 0 {
        None
    } else {
        Some(p.skip(dot + 1))
    }
}

/// `Path::extension`: the part of the file name after its last `.`.
/// Which characters separate the components depends on the platform, so
/// the result gets no name; the contract says what holds everywhere: the
/// extension holds no `.` and stands in the path right after a `.`; and on
/// a path whose file name is the same on every platform (`/` separates
/// components everywhere), it is what the documentation gives for that
/// name: none without a `.`, none when the only `.` starts the name, else
/// what follows the last `.`. The same holds of a path, with `/` or `\`
/// separators, whose last `.` follows a non-empty name after the last
/// separator: when neither that name nor the extension holds a `:` and the
/// path does not start with two separators, no platform reads a prefix in
/// it, the last component ends in that name and extension, and the
/// extension is what follows the last `.`.
#[verifier::external_body]
fn path_extension(path: &str) -> (r: Option<&str>)
    ensures
        trailing_extension(path@) is Some ==> r is Some && r->0@ == trailing_extension(path@)->0,
        portable_file_name(path@) matches Some(name) ==> match r {
            Some(e) => plain_name_extension(name) == Some(e@),
            None => plain_name_extension(name) is None,
        },
        r matches Some(e) ==> {
            &&& !e@.contains('.')
            &&& exists|i: int|
                0 <= i && i + 1 + e@.len() <= path@.len() && path@[i] == '.' && #[trigger] path@.subrange(
                    i + 1,
                    i + 1 + e@.len(),
                ) == e@
        },
{
    std::path::Path::new(path).extension()?.to_str()
}

/// The lower-cased extensions of Markdown files.
pub open spec fn is_markdown_extension_text(e: Seq<char>) -> bool {
    e == "md"@ || e == "markdown"@ || e == "mdown"@ || e == "mkd"@
}

/// Whether a lower-cased file extension is one of Markdown's.
pub fn is_markdown_extension_lowercase(lower: &str) -> (r: bool)
    ensures
        r == is_markdown_extension_text(lower@),
{
    let lower = String::from_str(lower);
    lower == String::from_str("md") || lower == String::from_str("markdown") || lower
        == String::from_str("mdown") || lower == String::from_str("mkd")
}

/// Whether a file extension marks a Markdown file, ignoring case.
pub fn is_markdown_extension(ext: &str) -> (r: bool)
    ensures
        r == is_markdown_extension_text(text::spec_to_lowercase(ext@)),
        vstd::utf8::is_ascii_chars(ext@) ==> r == is_markdown_extension_text(
            ext@.map_values(|c: char| text::ascii_lower(c)),
        ),
{
    let lower = to_lowercase(ext);
    is_markdown_extension_lowercase(lower.as_str())
}

/// Whether `path` names a Markdown file, judged by its extension.
pub fn is_markdown_file(path: &str) -> (r: bool)
    ensures
        trailing_extension(path@) matches Some(e) ==> r == is_markdown_extension_text(
            text::spec_to_lowercase(e),
        ),
        vstd::utf8::is_ascii_chars(path@) ==> (trailing_extension(path@) matches Some(e) ==> r
            == is_markdown_extension_text(e.map_values(|c: char| text::ascii_lower(c)))),
        portable_file_name(path@) matches Some(name) ==> r == (plain_name_extension(name) matches Some(
            e,
        ) && is_markdown_extension_text(text::spec_to_lowercase(e))),
        vstd::utf8::is_ascii_chars(path@) ==> (portable_file_name(path@) matches Some(name) ==> r == (
        plain_name_extension(name) matches Some(e) && is_markdown_extension_text(
            e.map_values(|c: char| text::ascii_lower(c)),
        ))),
        r ==> exists|e: Seq<char>|
            #![trigger is_markdown_extension_text(text::spec_to_lowercase(e))]
            {
                &&& is_markdown_extension_text(text::spec_to_lowercase(e))
                &&& exists|i: int|
                    0 <= i && i + 1 + e.len() <= path@.len() && path@[i] == '.'
                        && #[trigger] path@.subrange(i + 1, i + 1 + e.len()) == e
            },
{
    match path_extension(path) {
        Some(ext) => {
            proof {
                if trailing_extension(path@) is Some && vstd::utf8::is_ascii_chars(path@) {
                    let dot = rfind_before(path@, '.', path@.len() as int);
                    lemma_rfind_before(path@, '.', path@.len() as int);
                    assert(ext@ == path@.skip(dot + 1));
                    assert forall|i: int| 0 <= i < ext@.len() implies '\0' <= #[trigger] ext@[i] <= '\u{7f}' by {
                        assert(ext@[i] == path@[dot + 1 + i]);
                    }
                }
                if portable_file_name(path@) is Some && vstd::utf8::is_ascii_chars(path@) {
                    let slash = rfind_before(path@, '/', path@.len() as int);
                    lemma_rfind_before(path@, '/', path@.len() as int);
                    let name = path@.skip(slash + 1);
                    let dot = rfind_before(name, '.', name.len() as int);
                    lemma_rfind_before(name, '.', name.len() as int);
                    assert(ext@ == name.skip(dot + 1));
                    assert forall|i: int| 0 <= i < ext@.len() implies '\0' <= #[trigger] ext@[i] <= '\u{7f}' by {
                        assert(ext@[i] == name[dot + 1 + i]);
                        assert(name[dot + 1 + i] == path@[slash + 1 + dot + 1 + i]);
                    }
                }
            }
            is_markdown_extension(ext)
        },
        None => false,
    }
}

} // verus!
