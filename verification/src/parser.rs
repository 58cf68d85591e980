//! The ingestion pipeline: classify a file by extension and magic bytes,
//! extract its text per format, sanitize it, and build the [`Document`].
//!
//! Reading bytes from the host is the caller's business: everything here
//! works on values already in memory.

use vstd::prelude::*;

use crate::state::{Document, FileType};
use crate::text::{
    chars_to_string, lower_chars, lower_seq, str_chars, str_eq, trim_chars, trim_spec,
    word_count_of,
};

verus! {

/// The largest accepted file: 50 MiB.  Larger files are rejected before
/// any content is read.
pub const MAX_FILE_SIZE: u64 = 50 * 1024 * 1024;

/// Why one file could not be ingested.  Each failure is terminal for that
/// file alone: sibling ingestions in a batch are unaffected.
#[derive(Debug)]
pub enum ParseError {
    /// The file exceeds [`MAX_FILE_SIZE`].
    FileTooLarge,
    /// The extension (lower-cased) names no supported format.
    UnsupportedType(String),
    /// The source bytes could not be read.
    ReadError(String),
    /// The format-specific decode failed.
    ParseError(String),
    /// The leading bytes contradict the extension's magic number.
    InvalidFormat,
}

impl ParseError {
    /// The human-readable reason, reported per file.
    pub fn message(&self) -> (r: String)
        ensures
            match *self {
                ParseError::FileTooLarge => r@ == "File too large (max 50MB)"@,
                ParseError::UnsupportedType(ref s) => r@ == "Unsupported file type: "@ + s@,
                ParseError::ReadError(ref s) => r@ == "Failed to read file: "@ + s@,
                ParseError::ParseError(ref s) => r@ == "Failed to parse file: "@ + s@,
                ParseError::InvalidFormat => r@ == "Invalid file format"@,
            },
    {
        match self {
            ParseError::FileTooLarge => "File too large (max 50MB)".to_owned(),
            ParseError::UnsupportedType(s) => {
                let mut m = "Unsupported file type: ".to_owned();
                m.append(s.as_str());
                m
            },
            ParseError::ReadError(s) => {
                let mut m = "Failed to read file: ".to_owned();
                m.append(s.as_str());
                m
            },
            ParseError::ParseError(s) => {
                let mut m = "Failed to parse file: ".to_owned();
                m.append(s.as_str());
                m
            },
            ParseError::InvalidFormat => "Invalid file format".to_owned(),
        }
    }
}

/// The segment of `s` after the last occurrence of `c`; all of `s` when
/// `c` does not occur.
pub open spec fn after_last(s: Seq<char>, c: char) -> Seq<char>
    decreases s.len(),
{
    if s.len() == 0 {
        s
    } else if s[s.len() - 1] == c {
        Seq::empty()
    } else {
        after_last(s.take(s.len() - 1), c).push(s[s.len() - 1])
    }
}

/// The segment of `s` before the last occurrence of `c`; empty when `c`
/// does not occur.
pub open spec fn before_last(s: Seq<char>, c: char) -> Seq<char>
    decreases s.len(),
{
    if s.len() == 0 {
        s
    } else if s[s.len() - 1] == c {
        s.take(s.len() - 1)
    } else {
        before_last(s.take(s.len() - 1), c)
    }
}

/// A filename's extension as matched against the supported formats: the
/// part after the last dot (the whole name when there is no dot),
/// ASCII-lower-cased.
pub open spec fn ext_lower_of(name: Seq<char>) -> Seq<char> {
    lower_seq(after_last(name, '.'))
}

/// The format a lower-cased extension names, if any.
pub open spec fn ftype_of_ext(ext: Seq<char>) -> Option<FileType> {
    if ext == seq!['t', 'x', 't'] {
        Option::Some(FileType::Txt)
    } else if ext == seq!['m', 'd'] || ext == seq!['m', 'a', 'r', 'k', 'd', 'o', 'w', 'n'] {
        Option::Some(FileType::Md)
    } else if ext == seq!['p', 'd', 'f'] {
        Option::Some(FileType::Pdf)
    } else if ext == seq!['d', 'o', 'c', 'x'] {
        Option::Some(FileType::Docx)
    } else {
        Option::None
    }
}

/// The magic-number check: a PDF must begin with `%PDF`, a DOCX with the
/// ZIP local-file-header signature; text formats are unconstrained bytes.
/// A file too short to hold its magic number fails the check.
pub open spec fn magic_ok(ft: FileType, head: Seq<u8>) -> bool {
    match ft {
        FileType::Txt => true,
        FileType::Md => true,
        FileType::Pdf => head.len() >= 4 && head[0] == 0x25 && head[1] == 0x50 && head[2] == 0x44
            && head[3] == 0x46,
        FileType::Docx => head.len() >= 4 && head[0] == 0x50 && head[1] == 0x4b && head[2] == 0x03
            && head[3] == 0x04,
    }
}

/// A document's title: the filename with any path prefix stripped (after
/// the last `/` and `\`) and the final extension removed — earlier dots
/// stay, and a name without a dot yields an empty title.
pub open spec fn title_of(name: Seq<char>) -> Seq<char> {
    before_last(after_last(after_last(name, '/'), '\\'), '.')
}

proof fn lemma_after_last_found(s: Seq<char>, c: char, p: int)
    requires
        0 <= p < s.len(),
        s[p] == c,
        forall|m: int| p < m < s.len() ==> s[m] != c,
    ensures
        after_last(s, c) == s.skip(p + 1),
    decreases s.len(),
{
    if p == s.len() - 1 {
        assert(s.skip(p + 1) =~= Seq::<char>::empty());
    } else {
        lemma_after_last_found(s.take(s.len() - 1), c, p);
        assert(s.take(s.len() - 1).skip(p + 1) =~= s.skip(p + 1).take(s.len() - 1 - p - 1));
        assert(s.skip(p + 1).take(s.len() - 1 - p - 1).push(s[s.len() - 1]) =~= s.skip(p + 1));
    }
}

proof fn lemma_after_last_absent(s: Seq<char>, c: char)
    requires
        forall|m: int| 0 <= m < s.len() ==> s[m] != c,
    ensures
        after_last(s, c) == s,
    decreases s.len(),
{
    if s.len() > 0 {
        lemma_after_last_absent(s.take(s.len() - 1), c);
        assert(s.take(s.len() - 1).push(s[s.len() - 1]) =~= s);
    }
}

proof fn lemma_before_last_found(s: Seq<char>, c: char, p: int)
    requires
        0 <= p < s.len(),
        s[p] == c,
        forall|m: int| p < m < s.len() ==> s[m] != c,
    ensures
        before_last(s, c) == s.take(p),
    decreases s.len(),
{
    if p == s.len() - 1 {
    } else {
        lemma_before_last_found(s.take(s.len() - 1), c, p);
        assert(s.take(s.len() - 1).take(p) =~= s.take(p));
    }
}

proof fn lemma_before_last_absent(s: Seq<char>, c: char)
    requires
        forall|m: int| 0 <= m < s.len() ==> s[m] != c,
    ensures
        before_last(s, c) == Seq::<char>::empty(),
    decreases s.len(),
{
    if s.len() > 0 {
        lemma_before_last_absent(s.take(s.len() - 1), c);
    }
}

/// The characters after the last occurrence of `c`, or all of them.
fn after_last_exec(s: &Vec<char>, c: char) -> (r: Vec<char>)
    ensures
        r@ == after_last(s@, c),
{
    let mut p: usize = s.len();
    while p > 0 && s[p - 1] != c
        invariant
            p <= s@.len(),
            forall|m: int| p <= m < s@.len() ==> s@[m] != c,
        decreases p,
    {
        p = p - 1;
    }
    proof {
        if p == 0 {
            lemma_after_last_absent(s@, c);
        } else {
            lemma_after_last_found(s@, c, p - 1);
        }
    }
    let mut out: Vec<char> = Vec::new();
    let mut i: usize = p;
    while i < s.len()
        invariant
            p <= i <= s@.len(),
            out@ == s@.subrange(p as int, i as int),
        decreases s@.len() - i,
    {
        out.push(s[i]);
        i = i + 1;
        proof {
            assert(s@.subrange(p as int, i as int) =~= s@.subrange(p as int, i - 1).push(
                s@[i - 1]));
        }
    }
    proof {
        assert(out@ =~= s@.skip(p as int));
        if p > 0 {
            assert(after_last(s@, c) == s@.skip(p as int));
        }
    }
    out
}

/// The characters before the last occurrence of `c`, or none.
fn before_last_exec(s: &Vec<char>, c: char) -> (r: Vec<char>)
    ensures
        r@ == before_last(s@, c),
{
    let mut p: usize = s.len();
    while p > 0 && s[p - 1] != c
        invariant
            p <= s@.len(),
            forall|m: int| p <= m < s@.len() ==> s@[m] != c,
        decreases p,
    {
        p = p - 1;
    }
    proof {
        if p == 0 {
            lemma_before_last_absent(s@, c);
        } else {
            lemma_before_last_found(s@, c, p - 1);
        }
    }
    let mut out: Vec<char> = Vec::new();
    if p == 0 {
        return out;
    }
    let mut i: usize = 0;
    while i < p - 1
        invariant
            p >= 1,
            i <= p - 1 <= s@.len(),
            out@ == s@.subrange(0, i as int),
        decreases p - i,
    {
        out.push(s[i]);
        i = i + 1;
        proof {
            assert(s@.subrange(0, i as int) =~= s@.subrange(0, i - 1).push(s@[i - 1]));
        }
    }
    proof {
        assert(out@ =~= s@.take(p - 1));
    }
    out
}

/// Strip path and extension from a filename, per [`title_of`].
pub fn extract_title(name: &str) -> (r: String)
    ensures
        r@ == title_of(name@),
{
    let chars = str_chars(name);
    let no_slash = after_last_exec(&chars, '/');
    let no_back = after_last_exec(&no_slash, '\\');
    let base = before_last_exec(&no_back, '.');
    chars_to_string(&base)
}

/// Classify one file by size, extension (case-insensitively), and its
/// leading bytes' magic number, reading nothing itself.
pub fn classify(name: &str, size: u64, head: &Vec<u8>) -> (r: Result<FileType, ParseError>)
    ensures
        size > MAX_FILE_SIZE ==> (r matches Result::Err(e) && e is FileTooLarge),
        size <= MAX_FILE_SIZE ==> match ftype_of_ext(ext_lower_of(name@)) {
            Option::None => r matches Result::Err(e) && (e matches ParseError::UnsupportedType(s)
                && s@ == ext_lower_of(name@)),
            Option::Some(ft) => if magic_ok(ft, head@) {
                r matches Result::Ok(f) && f == ft
            } else {
                r matches Result::Err(e) && e is InvalidFormat
            },
        },
{
    if size > MAX_FILE_SIZE {
        return Result::Err(ParseError::FileTooLarge);
    }
    let chars = str_chars(name);
    let raw_ext = after_last_exec(&chars, '.');
    let ext = lower_chars(&raw_ext);
    let ext_string = chars_to_string(&ext);
    proof {
        reveal_strlit("txt");
        reveal_strlit("md");
        reveal_strlit("markdown");
        reveal_strlit("pdf");
        reveal_strlit("docx");
        assert("txt"@ =~= seq!['t', 'x', 't']);
        assert("md"@ =~= seq!['m', 'd']);
        assert("markdown"@ =~= seq!['m', 'a', 'r', 'k', 'd', 'o', 'w', 'n']);
        assert("pdf"@ =~= seq!['p', 'd', 'f']);
        assert("docx"@ =~= seq!['d', 'o', 'c', 'x']);
    }
    let ft = if str_eq(ext_string.as_str(), "txt") {
        FileType::Txt
    } else if str_eq(ext_string.as_str(), "md") || str_eq(ext_string.as_str(), "markdown") {
        FileType::Md
    } else if str_eq(ext_string.as_str(), "pdf") {
        FileType::Pdf
    } else if str_eq(ext_string.as_str(), "docx") {
        FileType::Docx
    } else {
        return Result::Err(ParseError::UnsupportedType(ext_string));
    };
    let magic = match ft {
        FileType::Txt => true,
        FileType::Md => true,
        FileType::Pdf => head.len() >= 4 && head[0] == 0x25 && head[1] == 0x50 && head[2] == 0x44
            && head[3] == 0x46,
        FileType::Docx => head.len() >= 4 && head[0] == 0x50 && head[1] == 0x4b && head[2] == 0x03
            && head[3] == 0x04,
    };
    if magic {
        Result::Ok(ft)
    } else {
        Result::Err(ParseError::InvalidFormat)
    }
}

/// One event of the markdown event stream, as far as extraction cares:
/// literal text, code-block boundaries, line breaks, anything else.
pub enum MdEvent {
    Text(String),
    CodeStart,
    CodeEnd,
    Break,
    Other,
}

/// What the CommonMark parser emits for a given text, mapped onto
/// [`MdEvent`].  A function of the input text alone.
pub uninterp spec fn md_events_of(s: Seq<char>) -> Seq<MdEvent>;

/// Relies on `pulldown_cmark::Parser` with default options: the event
/// stream is deterministic in the input text.  Events are converted one
/// arm each — literal text, code-block start and end, soft and hard
/// breaks — and everything else to `Other`.
#[verifier::external_body]
fn md_events(s: &str) -> (r: Vec<MdEvent>)
    ensures
        r@ == md_events_of(s@),
{
    pulldown_cmark::Parser::new(s)
        .map(|ev| match ev {
            pulldown_cmark::Event::Text(t) => MdEvent::Text(t.into_string()),
            pulldown_cmark::Event::Start(pulldown_cmark::Tag::CodeBlock(_)) => MdEvent::CodeStart,
            pulldown_cmark::Event::End(pulldown_cmark::TagEnd::CodeBlock) => MdEvent::CodeEnd,
            pulldown_cmark::Event::SoftBreak | pulldown_cmark::Event::HardBreak => MdEvent::Break,
            _ => MdEvent::Other,
        })
        .collect()
}

/// Flattening an event stream to text: literal text outside code blocks
/// is kept, each text run and each break becomes a single space, and
/// text inside fenced or indented code blocks is excluded.
pub open spec fn md_fold(events: Seq<MdEvent>, in_code: bool) -> Seq<char>
    decreases events.len(),
{
    if events.len() == 0 {
        Seq::empty()
    } else {
        match events[0] {
            MdEvent::Text(t) => if in_code {
                md_fold(events.skip(1), in_code)
            } else {
                t@ + seq![' '] + md_fold(events.skip(1), in_code)
            },
            MdEvent::CodeStart => md_fold(events.skip(1), true),
            MdEvent::CodeEnd => md_fold(events.skip(1), false),
            MdEvent::Break => seq![' '] + md_fold(events.skip(1), in_code),
            MdEvent::Other => md_fold(events.skip(1), in_code),
        }
    }
}

/// The human-readable text of a markdown document: the flattened event
/// stream, trimmed of leading and trailing whitespace.
pub open spec fn md_text_of(s: Seq<char>) -> Seq<char> {
    trim_spec(md_fold(md_events_of(s), false))
}

/// Flatten markdown to plain text, excluding code blocks, per
/// [`md_text_of`].
pub fn extract_markdown(s: &str) -> (r: String)
    ensures
        r@ == md_text_of(s@),
{
    let events = md_events(s);
    let ghost evs = events@;
    let mut out: Vec<char> = Vec::new();
    let mut in_code = false;
    let mut i: usize = 0;
    proof {
        assert(evs.skip(0) =~= evs);
        assert(Seq::<char>::empty() + md_fold(evs, false) =~= md_fold(evs, false));
    }
    while i < events.len()
        invariant
            i <= evs.len(),
            evs == events@,
            md_fold(evs, false) == out@ + md_fold(evs.skip(i as int), in_code),
        decreases evs.len() - i,
    {
        proof {
            assert(evs.skip(i as int)[0] == evs[i as int]);
            assert(evs.skip(i as int).skip(1) =~= evs.skip(i + 1));
        }
        let ghost out0 = out@;
        match &events[i] {
            MdEvent::Text(t) => {
                if !in_code {
                    let mut chars = str_chars(t.as_str());
                    out.append(&mut chars);
                    out.push(' ');
                    proof {
                        assert(out@ =~= out0 + t@ + seq![' ']);
                        assert(out0 + (t@ + seq![' '] + md_fold(evs.skip(i + 1), in_code))
                            =~= out@ + md_fold(evs.skip(i + 1), in_code));
                    }
                }
            },
            MdEvent::CodeStart => {
                in_code = true;
            },
            MdEvent::CodeEnd => {
                in_code = false;
            },
            MdEvent::Break => {
                out.push(' ');
                proof {
                    assert(out@ =~= out0 + seq![' ']);
                    assert(out0 + (seq![' '] + md_fold(evs.skip(i + 1), in_code)) =~= out@
                        + md_fold(evs.skip(i + 1), in_code));
                }
            },
            MdEvent::Other => {},
        }
        i = i + 1;
    }
    proof {
        assert(evs.skip(evs.len() as int) =~= Seq::<MdEvent>::empty());
        assert(out@ + Seq::<char>::empty() =~= out@);
    }
    let trimmed = trim_chars(&out);
    chars_to_string(&trimmed)
}

/// What sanitization leaves of a text.  A function of the text alone.
pub uninterp spec fn clean_of(s: Seq<char>) -> Seq<char>;

/// Relies on `ammonia::clean` with its default builder: strips markup and
/// script-bearing constructs with a conservative allow-list; total, and
/// deterministic in the input text.
#[verifier::external_body]
pub(crate) fn sanitize_content(content: &str) -> (r: String)
    ensures
        r@ == clean_of(content@),
{
    ammonia::clean(content)
}

/// The text a classified file's raw text yields before sanitization:
/// markdown is flattened, every other format's text passes through (for
/// PDF and DOCX the host's extractor has already produced it).
pub open spec fn extracted(ft: FileType, raw: Seq<char>) -> Seq<char> {
    match ft {
        FileType::Md => md_text_of(raw),
        _ => raw,
    }
}

/// Ingest one file already read into memory: classify it by size,
/// extension, and magic bytes, extract its text per format, sanitize,
/// and build the document.  For PDF and DOCX, `raw_text` is what the
/// host's extraction capability returned for the file's bytes; for TXT
/// and MD it is the file's text.
pub fn parse_file(name: &str, size: u64, head: &Vec<u8>, raw_text: &str) -> (r: Result<
    Document,
    ParseError,
>)
    ensures
        size > MAX_FILE_SIZE ==> (r matches Result::Err(e) && e is FileTooLarge),
        size <= MAX_FILE_SIZE ==> match ftype_of_ext(ext_lower_of(name@)) {
            Option::None => r matches Result::Err(e) && (e matches ParseError::UnsupportedType(s)
                && s@ == ext_lower_of(name@)),
            Option::Some(ft) => if magic_ok(ft, head@) {
                r matches Result::Ok(d) && d@.title == title_of(name@) && d@.content == clean_of(
                    extracted(ft, raw_text@),
                ) && d@.file_type == ft && d@.word_count == word_count_of(
                    clean_of(extracted(ft, raw_text@)),
                ) && d@.progress == 0 && d@.last_position == 0 && d@.author is None
                    && d@.last_read is None
            } else {
                r matches Result::Err(e) && e is InvalidFormat
            },
        },
{
    let ft = match classify(name, size, head) {
        Result::Ok(ft) => ft,
        Result::Err(e) => {
            return Result::Err(e);
        },
    };
    let content = match ft {
        FileType::Md => extract_markdown(raw_text),
        _ => raw_text.to_owned(),
    };
    let sanitized = sanitize_content(content.as_str());
    let title = extract_title(name);
    let doc = Document::new(title, sanitized, ft);
    Result::Ok(doc)
}

} // verus!
