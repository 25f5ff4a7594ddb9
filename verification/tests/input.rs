use std::collections::BTreeSet;

use hunkpick::error::AppError;
use hunkpick::input::{
    load_and_parse, read_limited, reject_non_diff, utf16_or_32_bom, utf16_without_bom,
    UTF16_SNIFF_BYTES,
};
use hunkpick::parser;

#[test]
fn read_limited_accepts_input_at_max_limit() {
    // `limit == u64::MAX` must not wrap `limit + 1` to 0 (which would read nothing
    // and silently treat any input as empty). The whole input must be returned.
    let data = b"diff --git a/f b/f\n";
    let got = read_limited(&data[..], u64::MAX).unwrap();
    assert_eq!(got, data);
}

/// The four marks, each named exactly. The order of the arms is what makes this work:
/// a UTF-32LE stream opens with the UTF-16LE mark, so a rearranged `match` would call it
/// UTF-16LE and hand the user an `iconv -f UTF-16LE` that cannot restore their file. A test
/// asserting only that the message says "UTF-16" passes on exactly that mistake.
#[test]
fn every_byte_order_mark_is_named_by_its_own_encoding() {
    let cases: [(&[u8], Option<&str>); 6] = [
        (&[0xFF, 0xFE, 0x00, 0x00, b'-'], Some("UTF-32LE")),
        (&[0x00, 0x00, 0xFE, 0xFF, b'-'], Some("UTF-32BE")),
        (&[0xFF, 0xFE, b'-', 0x00], Some("UTF-16LE")),
        (&[0xFE, 0xFF, 0x00, b'-'], Some("UTF-16BE")),
        (b"diff --git a/f b/f", None),
        (&[0xEF, 0xBB, 0xBF, b'd'], None),
    ];
    for (input, expected) in cases {
        assert_eq!(
            utf16_or_32_bom(input),
            expected,
            "byte-order mark {:02X?}",
            &input[..input.len().min(4)]
        );
    }
}

/// A `git format-patch` mail is a supported input, and its first lines are the mail headers:
/// the diff marker only turns up after them, past the commit message and the diffstat.
/// Sniffing a fixed 256 bytes stopped short of it, and a mail written in UTF-16 was answered
/// with "binary input" — the very message this sniffing exists to replace.
///
/// The mail is sized from what such a mail carries, not from [`UTF16_SNIFF_BYTES`]: a window
/// narrowed back towards the value the defect returns at then fails this test, whereas a
/// fixture built from the constant would follow it down and keep passing.
#[test]
fn a_utf16_mail_is_named_by_its_encoding_and_not_called_binary() {
    const MARKER: &str = "diff --git ";
    // The window the mail was called binary input at, in the bytes the constant is written
    // in. Below this the defect is back whatever the fixture says.
    const WINDOW_THE_DEFECT_RETURNS_AT: usize = 256;

    let mut mail = String::from("From: Someone <someone@example.invalid>\n");
    mail.push_str("Subject: [PATCH] a change across a good part of the tree\n");
    mail.push_str("Date: Mon, 1 Sep 2026 00:00:00 +0300\n\n");
    mail.push_str("The commit message, and then the diffstat git writes before the diff:\n\n");
    for i in 0..40 {
        mail.push_str(&format!(
            " src/a/rather/long/path/file{i:02}.rs | 12 ++++++------\n"
        ));
    }
    mail.push_str(" 40 files changed, 240 insertions(+), 240 deletions(-)\n\n");
    mail.push_str(MARKER);
    mail.push_str("a/f b/f\n--- a/f\n+++ b/f\n@@ -1 +1 @@\n-a\n+b\n");

    // One code unit per ASCII character, so the offset in the encoded stream is twice this.
    let marker_at = mail.find(MARKER).expect("the mail carries a diff") * 2;
    assert!(
        marker_at > WINDOW_THE_DEFECT_RETURNS_AT,
        "the marker has to sit past the window this test is about: {marker_at} bytes"
    );
    assert!(
        marker_at < UTF16_SNIFF_BYTES,
        "the window is narrower than a format-patch mail needs: the marker is {marker_at} \
         bytes in, the window is {UTF16_SNIFF_BYTES}"
    );

    let utf16: Vec<u8> = mail.bytes().flat_map(|b| [b, 0]).collect();
    assert_eq!(utf16_without_bom(&utf16), Some("UTF-16LE"));
}

/// A `@@ ` with bytes after it that are no hunk header carries a marker and nothing the
/// marker promises. It is the case the reading of a hunk header is here for: what follows
/// the marker is not whitespace, so every rule that asked only whether the line says
/// something past its marker answered such a run of NUL-padded bytes with an
/// `iconv -f UTF-16LE` for a stream that is not UTF-16 at all.
#[test]
fn a_hunk_marker_without_a_header_after_it_is_not_called_utf16() {
    assert_eq!(utf16_without_bom(b"@\x00@\x00 \x00\xff\xff"), None);
}

/// A commit whose subject or message is not in English is an ordinary one, and the mail
/// `git format-patch` writes for it is UTF-16 like any other when written that way. The
/// scan reaches the diff marker past such text, rather than ending at the first unit that
/// is not ASCII and leaving the mail to be answered as binary input.
#[test]
fn a_utf16_mail_with_non_ascii_headers_is_named_by_its_encoding() {
    let mut mail = String::from("From: Someone <someone@example.invalid>\n");
    mail.push_str("Subject: [PATCH] Исправление разбора хвоста\n");
    mail.push_str("Date: Mon, 1 Sep 2026 00:00:00 +0300\n\n");
    mail.push_str("Запись без ханков читается как доходящая до своей последней строки.\n\n");
    mail.push_str("diff --git a/f b/f\n--- a/f\n+++ b/f\n@@ -1 +1 @@\n-a\n+b\n");

    let utf16 = as_utf16le(&mail);
    assert_eq!(utf16_without_bom(&utf16), Some("UTF-16LE"));
}

/// A rename, a mode change and a binary file carry no `---`, `+++` or `@@` line, so the
/// `diff --git` line is the only marker such an entry has — and it holds the paths, which
/// are the part of a diff most likely not to be ASCII. Read as "the whole line decoded",
/// a path in another script leaves the entry with no marker line at all and the patch is
/// answered as binary input.
#[test]
fn a_utf16_rename_of_a_path_in_another_script_is_named_by_its_encoding() {
    let rename = "diff --git a/файл.md b/новый.md\n\
                  similarity index 100%\n\
                  rename from файл.md\n\
                  rename to новый.md\n";

    let utf16 = as_utf16le(rename);
    assert_eq!(utf16_without_bom(&utf16), Some("UTF-16LE"));
}

/// A diff written as UTF-16 is UTF-16 from its first byte. Binary data that happens to hold
/// a NUL-padded marker line somewhere inside it — here a PNG signature, a marker line, and
/// the signature again — is not, and answering it with an `iconv` names an encoding the
/// stream is not in.
#[test]
fn a_marker_line_inside_binary_data_is_not_called_utf16() {
    let png_then_a_marker_then_png =
        b"\x89\x50\x0a\x00@\x00@\x00 \x00-\x001\x00\x0a\x00\x89\x50";
    assert_eq!(utf16_without_bom(png_then_a_marker_then_png), None);
}

/// The same binary data with `--- ` in place of `@@ `. A hunk header states its shape in
/// full and a path states nothing, so a rule that reads one line and asks what its marker
/// promises refuses the first and accepts the second — while both are the same accident of
/// a NUL-padded run inside a PNG.
#[test]
fn a_path_marker_inside_binary_data_is_not_called_utf16() {
    let png_then_a_marker_then_png =
        b"\x89\x50\x0a\x00-\x00-\x00-\x00 \x00x\x00\x0a\x00\x89\x50";
    assert_eq!(utf16_without_bom(png_then_a_marker_then_png), None);
}

/// The headers of a mail come in no fixed order, and the first of them may be the subject —
/// which is where a commit written in another script carries that script. Judged by whether
/// its first line reads as ASCII, such a mail is answered as binary input for no reason
/// beyond the order git happened to write two headers in.
///
/// Written with each of [`LINE_ENDINGS`].
#[test]
fn a_utf16_mail_whose_first_header_is_not_ascii_is_named_by_its_encoding() {
    for ending in LINE_ENDINGS {
        let mail = format!(
            "Subject: [PATCH] Исправление разбора хвоста{ending}\
             From: Someone <someone@example.invalid>{ending}{ending}\
             diff --git a/f b/f{ending}--- a/f{ending}+++ b/f{ending}\
             @@ -1 +1 @@{ending}-a{ending}+b{ending}"
        );

        let utf16 = as_utf16le(&mail);
        assert_eq!(utf16_without_bom(&utf16), Some("UTF-16LE"), "{ending:?}");
    }
}

/// A stream that opens with a line break is text whose first line is empty, not a stream
/// that fails to open as text: `git format-patch` output pasted into a file and a diff
/// written after a blank line both start this way.
///
/// Written with each of [`LINE_ENDINGS`].
#[test]
fn a_utf16_diff_that_opens_with_a_blank_line_is_named_by_its_encoding() {
    for ending in LINE_ENDINGS {
        let diff = format!(
            "{ending}diff --git a/f b/f{ending}--- a/f{ending}+++ b/f{ending}\
             @@ -1 +1 @@{ending}-a{ending}+b{ending}"
        );

        let utf16 = as_utf16le(&diff);
        assert_eq!(utf16_without_bom(&utf16), Some("UTF-16LE"), "{ending:?}");
    }
}

/// Every marker the parser knows, as the bare marker and as a line carrying what that
/// marker promises. The cases below are asserted against each pair rather than against one
/// marker written out by hand: every revision of this check so far has read one marker
/// closely and the rest loosely, and passed a corpus that only ever asked about the marker
/// it read closely.
///
/// That the pairs are every marker is asserted rather than stated, by
/// [`every_marker_the_parser_knows_has_a_pair`]: the example line beside each marker has to
/// be written by hand, so the set cannot be read off the parser outright, and a list that
/// only claims to be complete falls behind the one it stands for.
const MARKER_LINES: [(&str, &str); 8] = [
    ("diff --git ", "diff --git a/f b/f"),
    ("--- ", "--- a/f"),
    ("+++ ", "+++ b/f"),
    ("@@ ", "@@ -1 +1 @@"),
    ("Binary files ", "Binary files a/f and b/f differ"),
    ("diff --cc ", "diff --cc f"),
    ("diff --combined ", "diff --combined f"),
    ("@@@", "@@@ -1,1 -1,1 +1,1 @@@"),
];

/// A marker the parser learns and the pairs above do not is a gap in every case asserted
/// over them: the corpus keeps passing while nothing ever asks about the new marker. The
/// two sets are compared whole rather than counted, because a marker paired twice would
/// otherwise stand in for one that is missing.
#[test]
fn every_marker_the_parser_knows_has_a_pair() {
    let paired: BTreeSet<&[u8]> = MARKER_LINES
        .iter()
        .map(|(bare, _)| bare.as_bytes())
        .collect();
    assert_eq!(paired, parser::markers().into_iter().collect::<BTreeSet<_>>());
}

/// The lengths [`parser::headers_ascii_follows`] and [`parser::headers_a_path_follows`]
/// are expected to have. Both lists are private to their own module, so the length is
/// written here rather than taken; named once rather than at each of the two cases that
/// hand the list in, and named at all for the reason [`weighed_list`] weighs it. The count of
/// markers needs no constant: [`MARKER_LINES`] holds it.
const HEADERS_ASCII_FOLLOWS_LEN: usize = 7;
const HEADERS_A_PATH_FOLLOWS_LEN: usize = 4;

/// The ways a line of the window may end. Every rule these cases weigh reads the tail of a
/// line, and the stream the check exists for — what PowerShell 5.1 writes — ends its lines
/// with a carriage return, so each rule is asked with that return standing in the tail and
/// without it. Named once rather than written out at each case: spelled out, the set
/// answered for whichever cases happened to spell it and was free to stay that way.
const LINE_ENDINGS: [&str; 2] = ["\n", "\r\n"];

/// `text` as UTF-16, in the byte order `to_bytes` writes.
fn as_utf16(text: &str, to_bytes: fn(u16) -> [u8; 2]) -> Vec<u8> {
    text.encode_utf16().flat_map(to_bytes).collect()
}

/// `text` as UTF-16LE, the order the cases that name one byte order are written in: it is
/// what `iconv -t UTF-16LE` and `UnicodeEncoding($false, $false)` write.
fn as_utf16le(text: &str) -> Vec<u8> {
    as_utf16(text, u16::to_le_bytes)
}

/// `lines` as UTF-16 between two code units that are not ASCII: the shape binary data takes
/// when it happens to carry a NUL-padded run of text. `to_bytes` writes the byte order.
fn between_binary_noise(lines: &str, to_bytes: fn(u16) -> [u8; 2]) -> Vec<u8> {
    const NOISE: [u8; 2] = [0x89, 0x50];
    let mut window = NOISE.to_vec();
    window.extend(as_utf16("\n", to_bytes));
    window.extend(as_utf16(lines, to_bytes));
    window.extend(NOISE);
    window
}

/// A window holding `line` twice and nothing else that reads, each ended with `ending`: the
/// shape both halves of the count of two are asked on — the lines that say nothing and the
/// lines that say something are the same window with a different line in it.
///
/// The byte order is named rather than taken, as [`as_utf16le`] names it: the answer is the
/// same in either order, and these cases weigh the line in the one `iconv -t UTF-16LE`
/// writes.
fn two_lines_le(line: &str, ending: &str) -> Vec<u8> {
    between_binary_noise(&format!("{line}{ending}{line}{ending}"), u16::to_le_bytes)
}

/// The lines of `lines` as text. The list is weighed against `how_many` — the length it is
/// expected to have — before any of its lines is read.
///
/// The cases handing a list in differ in that list and in nothing else, and every list
/// answers the same on a bare line, so one list handed in twice would leave another unasked
/// and the set green. The lists are of different lengths, so naming the length catches that.
/// A length of none is refused outright: a list that turned up empty would ask nothing at
/// all and pass, which is what naming the length exists to catch.
fn weighed_list(lines: impl Iterator<Item = &'static [u8]>, how_many: usize) -> Vec<String> {
    assert!(how_many > 0, "the length handed in");

    let lines: Vec<_> = lines
        .map(|line| String::from_utf8_lossy(line).into_owned())
        .collect();
    assert_eq!(lines.len(), how_many, "the list handed in");
    lines
}

/// Every line of `lines`, written twice and nothing else, says nothing about the stream it
/// was read out of: two lines that were never read are two lines binary data holds as
/// readily as a patch does.
///
/// Asked with each of [`LINE_ENDINGS`], since every rule these lists are weighed by reads
/// the tail of the line, and a carriage return standing there is what a patch written under
/// Windows leaves. Asked of two lines rather than one, since a single line is refused by the
/// count whatever the reading of its tail says. The list itself is weighed by [`weighed_list`].
fn two_bare_lines_say_nothing(lines: impl Iterator<Item = &'static [u8]>, how_many: usize) {
    let lines = weighed_list(lines, how_many);

    for ending in LINE_ENDINGS {
        for line in &lines {
            let window = two_lines_le(line, ending);
            assert_eq!(
                utf16_without_bom(&window),
                None,
                "two `{line}` and {ending:?}"
            );
        }
    }
}

/// Every line of `lines` with each of `tails` written past it, twice and nothing else, names
/// the stream: a line carrying what stands after it is a line that was read, and two of them
/// are the count. The other half of [`two_bare_lines_say_nothing`], asked the same way and
/// weighing its list the same way.
///
/// A tail stands for the content of a real patch, which the rule does not weigh: what is
/// required past the header is something that is not whitespace, so a single character says
/// as much as an object name or a mode does. Where the content is read further — a path,
/// which is required to be in the line — the tails say what may stand there. No tails at all
/// would ask nothing, for the reason the length of the list is weighed, so a tail is
/// required.
fn two_lines_carrying_a_tail_name_the_encoding(
    lines: impl Iterator<Item = &'static [u8]>,
    how_many: usize,
    tails: &[&str],
) {
    let lines = weighed_list(lines, how_many);
    assert!(!tails.is_empty(), "the tails handed in");

    for ending in LINE_ENDINGS {
        for line in &lines {
            for tail in tails {
                let window = two_lines_le(&format!("{line}{tail}"), ending);
                assert_eq!(
                    utf16_without_bom(&window),
                    Some("UTF-16LE"),
                    "two `{line}{tail}` and {ending:?}"
                );
            }
        }
    }
}

/// One diff line is what binary data holds by accident, whichever marker opens it. A rule
/// that accepts a stream on the strength of a single line answers a PNG with an `iconv` for
/// an encoding it is not in.
///
/// Written with each of [`LINE_ENDINGS`] to keep the shape of its neighbours, not because
/// the ending decides: what refuses this window is the count of two.
#[test]
fn a_single_diff_line_inside_binary_data_is_not_called_utf16() {
    for ending in LINE_ENDINGS {
        for (_, line) in MARKER_LINES {
            let window = between_binary_noise(&format!("{line}{ending}"), u16::to_le_bytes);
            assert_eq!(
                utf16_without_bom(&window),
                None,
                "a lone `{line}` and {ending:?}"
            );
        }
    }
}

/// A line that is the marker and nothing else says nothing beyond the marker, and two such
/// lines say it twice. Counting lines rather than reading them accepts exactly this.
///
/// What the line ending has to do with it is stated where the window is built, at
/// [`two_bare_lines_say_nothing`]: counting a carriage return as content past the marker
/// would let every bare marker line through.
#[test]
fn bare_marker_lines_are_not_called_utf16() {
    two_bare_lines_say_nothing(parser::markers().into_iter(), MARKER_LINES.len());
}

/// The edge of the count, stated so that moving it is a decision rather than an accident: a
/// patch whose paths are not ASCII, written without the `a/` `b/` prefixes and without an
/// `index ` line, has one line left to read. Its `---` and `+++` are read no further than
/// the unit where the path changes script, which leaves them bare, and the hunk header is
/// all that carries what it promises. One line is what binary data holds by accident, so
/// the stream is answered as binary input — the cost of the count, paid by a patch git
/// writes this way only when told to.
///
/// Written with each of [`LINE_ENDINGS`].
#[test]
fn a_utf16_patch_with_one_line_left_to_read_is_not_named() {
    for ending in LINE_ENDINGS {
        let diff = format!(
            "--- \u{444}{ending}+++ \u{444}{ending}\
             @@ -1 +1 @@{ending}-a{ending}+b{ending}"
        );

        let utf16 = as_utf16le(&diff);
        assert_eq!(utf16_without_bom(&utf16), None, "{ending:?}");
    }
}

/// Two headers that carry nothing are two lines that were never read, and binary data holds
/// a NUL-padded `index ` as readily as a patch does. Counting lines is evidence only where
/// each line counted said something.
///
/// Asked of every header the parser reads that way rather than of the three that were
/// written out here: the answer is the same for all of them, which is exactly what let a
/// corpus naming three keep passing while a header the parser learned went untried. The
/// window these headers are weighed in is built by [`two_bare_lines_say_nothing`].
#[test]
fn bare_extended_headers_are_not_called_utf16() {
    two_bare_lines_say_nothing(parser::headers_ascii_follows().into_iter(), HEADERS_ASCII_FOLLOWS_LEN);
}

/// The other half for the same headers: one carrying what stands after it counts, and two of
/// them name the stream. Asked by traversing the list, as the bare half is — the half that
/// passes stood on one header written out by hand, so a header the parser learnt would have
/// been weighed bare and never in company. What the tail stands for is written at
/// [`two_lines_carrying_a_tail_name_the_encoding`].
#[test]
fn extended_headers_carrying_something_are_named_by_their_encoding() {
    two_lines_carrying_a_tail_name_the_encoding(
        parser::headers_ascii_follows().into_iter(),
        HEADERS_ASCII_FOLLOWS_LEN,
        &["1"],
    );
}

/// A header a path follows is read on its own head by the parser, which is handed the line
/// already read; here the line is still whole, so the path is required to stand in it. Two
/// bare headers are two lines that name nothing, and binary data holds a NUL-padded
/// `rename from ` as readily as a patch does.
///
/// What the path is required to be is something past the header that is not whitespace, so
/// the carriage return [`two_bare_lines_say_nothing`] writes into the tail is what this case
/// turns on: read as a unit like any other, that return is a path of one character.
#[test]
fn bare_headers_a_path_follows_are_not_called_utf16() {
    two_bare_lines_say_nothing(parser::headers_a_path_follows().into_iter(), HEADERS_A_PATH_FOLLOWS_LEN);
}

/// The other half of the same rule, so that requiring the path cannot be tightened into
/// refusing the patch it was written for: where the path stands in the line, the header
/// counts, whatever script the path is in. These two lines are all a rename of a path in
/// another script has past its `diff --git` line, and the count of two rests on them.
///
/// Asked with the carriage return in the tail as well as without it, by
/// [`two_lines_carrying_a_tail_name_the_encoding`]: a rule refusing what stands before that
/// return would refuse this patch entirely.
#[test]
fn headers_a_path_follows_are_named_by_their_encoding_where_the_path_stands_in_the_line() {
    two_lines_carrying_a_tail_name_the_encoding(
        parser::headers_a_path_follows().into_iter(),
        HEADERS_A_PATH_FOLLOWS_LEN,
        &["\u{444}", "f"],
    );
}

/// A diff writes its lines in company: whatever marker opens an entry, another line of the
/// diff follows it. That second line is what a patch has and binary data does not, and it
/// is read the same way in both byte orders.
///
/// Written with each of [`LINE_ENDINGS`].
#[test]
fn a_diff_line_in_company_is_named_by_its_encoding() {
    for ending in LINE_ENDINGS {
        for (_, line) in MARKER_LINES {
            let lines = format!("{line}{ending}index 111..222 100644{ending}");
            for (to_bytes, encoding) in [
                (u16::to_le_bytes as fn(u16) -> [u8; 2], "UTF-16LE"),
                (u16::to_be_bytes as fn(u16) -> [u8; 2], "UTF-16BE"),
            ] {
                let window = between_binary_noise(&lines, to_bytes);
                assert_eq!(
                    utf16_without_bom(&window),
                    Some(encoding),
                    "`{line}` with a header, {encoding} and {ending:?}"
                );
            }
        }
    }
}

#[test]
fn read_limited_rejects_oversized_input() {
    let data = b"0123456789";
    let err = read_limited(&data[..], 4).unwrap_err();
    assert!(matches!(err, AppError::Usage(_)));
}

/// A limit of 0 reads everything; a source of exactly the limit is accepted; one byte more is
/// refused with the limit in the message.
#[test]
fn read_limited_edges_and_message() {
    let data = b"0123456789";
    assert_eq!(read_limited(&data[..], 0).unwrap(), data);
    assert_eq!(read_limited(&data[..], 10).unwrap(), data);
    match read_limited(&data[..], 9) {
        Err(AppError::Usage(m)) => assert_eq!(
            m,
            "input exceeds limit of 9 bytes (override with --max-input-bytes)"
        ),
        other => panic!("expected a usage error, got {other:?}"),
    }
}

fn usage_message(r: Result<(), AppError>) -> String {
    match r {
        Err(AppError::Usage(m)) => m,
        other => panic!("expected a usage error, got {other:?}"),
    }
}

#[test]
fn a_byte_order_mark_is_refused_with_the_iconv_to_run() {
    let m = usage_message(reject_non_diff(&[0xFF, 0xFE, b'-', 0x00]));
    assert_eq!(
        m,
        "input starts with a UTF-16LE byte-order mark; hunkpick reads a UTF-8 (or any \
         ASCII-compatible) byte stream -- re-encode the diff, e.g. `iconv -f UTF-16LE -t UTF-8`"
    );
}

#[test]
fn utf16_without_a_mark_is_refused_with_the_iconv_to_run() {
    let diff = "--- a/f\n+++ b/f\n@@ -1 +1 @@\n-a\n+b\n";
    let be: Vec<u8> = diff.encode_utf16().flat_map(u16::to_be_bytes).collect();
    let m = usage_message(reject_non_diff(&be));
    assert_eq!(
        m,
        "input looks like UTF-16BE without a byte-order mark; hunkpick reads a UTF-8 (or any \
         ASCII-compatible) byte stream -- re-encode the diff, e.g. `iconv -f UTF-16BE -t UTF-8`"
    );
}

#[test]
fn a_nul_byte_is_binary_input() {
    let m = usage_message(reject_non_diff(b"--- a/f\n\x00\n"));
    assert_eq!(m, "binary input: NUL byte found, expected a unified diff");
}

#[test]
fn text_without_a_marker_is_no_diff() {
    let m = usage_message(reject_non_diff(b"hello\nworld\n"));
    assert_eq!(m, "input does not look like a unified diff (no diff markers found)");
    assert!(reject_non_diff(b"--- a/f\n+++ b/f\n").is_ok());
}

#[test]
fn blank_input_parses_to_nothing() {
    assert!(matches!(load_and_parse(b""), Ok(None)));
    assert!(matches!(load_and_parse(b" \n\t\r\n"), Ok(None)));
}

#[test]
fn a_diff_loads_into_its_files() {
    let p = load_and_parse(b"--- a/f\n+++ b/f\n@@ -1 +1 @@\n-a\n+b\n")
        .unwrap()
        .expect("a diff");
    assert_eq!(p.files.len(), 1);
}

#[test]
fn a_parse_error_is_a_usage_error_naming_the_parse() {
    match load_and_parse(b"--- a/f\n+++ b/f\n@@ bogus @@\n-a\n") {
        Err(AppError::Usage(m)) => assert!(
            m.starts_with("parse error: malformed hunk header: "),
            "{m}"
        ),
        other => panic!("expected a usage error, got {other:?}"),
    }
}

#[test]
fn a_refused_input_keeps_its_reason() {
    match load_and_parse(b"plain text\n") {
        Err(AppError::Usage(m)) => {
            assert_eq!(m, "input does not look like a unified diff (no diff markers found)")
        },
        other => panic!("expected a usage error, got {other:?}"),
    }
}
