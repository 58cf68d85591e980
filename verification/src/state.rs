//! The `Document` record: the immutable result of ingesting one file,
//! together with its identifier generation.

use vstd::prelude::*;

use crate::host::{now_rfc3339, now_unix_millis, random_bytes};
use crate::text::{count_words, split_words, split_ws, str_chars, word_count_of};

verus! {

/// The supported document formats.
#[derive(Clone, Copy, Debug, PartialEq, Eq, Structural)]
pub enum FileType {
    Txt,
    Md,
    Pdf,
    Docx,
}

impl FileType {
    /// The type's name as it appears in a stored record.
    pub open spec fn name_chars(self) -> Seq<char> {
        match self {
            FileType::Txt => seq!['T', 'X', 'T'],
            FileType::Md => seq!['M', 'D'],
            FileType::Pdf => seq!['P', 'D', 'F'],
            FileType::Docx => seq!['D', 'O', 'C', 'X'],
        }
    }

    pub fn as_str(&self) -> (r: &'static str)
        ensures
            r@ == self.name_chars(),
    {
        match self {
            FileType::Txt => {
                proof {
                    reveal_strlit("TXT");
                    assert("TXT"@ =~= seq!['T', 'X', 'T']);
                }
                "TXT"
            },
            FileType::Md => {
                proof {
                    reveal_strlit("MD");
                    assert("MD"@ =~= seq!['M', 'D']);
                }
                "MD"
            },
            FileType::Pdf => {
                proof {
                    reveal_strlit("PDF");
                    assert("PDF"@ =~= seq!['P', 'D', 'F']);
                }
                "PDF"
            },
            FileType::Docx => {
                proof {
                    reveal_strlit("DOCX");
                    assert("DOCX"@ =~= seq!['D', 'O', 'C', 'X']);
                }
                "DOCX"
            },
        }
    }
}

/// The mathematical value of a [`Document`]: every string field as its
/// character sequence.
#[verifier::ext_equal]
pub ghost struct DocView {
    pub id: Seq<char>,
    pub title: Seq<char>,
    pub author: Option<Seq<char>>,
    pub content: Seq<char>,
    pub file_type: FileType,
    pub progress: u32,
    pub last_position: u64,
    pub last_read: Option<Seq<char>>,
    pub created_at: Seq<char>,
    pub word_count: u64,
}

/// One ingested document.  Immutable once built: a change is a replacement.
///
/// `progress` is a percentage in `[0, 100]`; `word_count` is the number of
/// whitespace-separated tokens of `content` at creation time.
pub struct Document {
    pub id: String,
    pub title: String,
    pub author: Option<String>,
    pub content: String,
    pub file_type: FileType,
    pub progress: u32,
    pub last_position: u64,
    pub last_read: Option<String>,
    pub created_at: String,
    pub word_count: u64,
}

/// The view of an optional string field.
pub open spec fn opt_view(o: Option<String>) -> Option<Seq<char>> {
    match o {
        Option::None => Option::None,
        Option::Some(s) => Option::Some(s@),
    }
}

fn opt_str_eq(a: &Option<String>, b: &Option<String>) -> (r: bool)
    ensures
        r == (opt_view(*a) == opt_view(*b)),
{
    match a {
        Option::None => match b {
            Option::None => true,
            Option::Some(_) => false,
        },
        Option::Some(x) => match b {
            Option::Some(y) => *x == *y,
            Option::None => false,
        },
    }
}

impl View for Document {
    type V = DocView;

    open spec fn view(&self) -> DocView {
        DocView {
            id: self.id@,
            title: self.title@,
            author: opt_view(self.author),
            content: self.content@,
            file_type: self.file_type,
            progress: self.progress,
            last_position: self.last_position,
            last_read: opt_view(self.last_read),
            created_at: self.created_at@,
            word_count: self.word_count,
        }
    }
}

impl PartialEq for Document {
    fn eq(&self, other: &Self) -> (r: bool) {
        let r = self.id == other.id && self.title == other.title
            && opt_str_eq(&self.author, &other.author) && self.content == other.content
            && self.file_type == other.file_type && self.progress == other.progress
            && self.last_position == other.last_position
            && opt_str_eq(&self.last_read, &other.last_read)
            && self.created_at == other.created_at && self.word_count == other.word_count;
        proof {
            if r {
                assert(self@ =~= other@);
            }
        }
        r
    }
}

impl vstd::std_specs::cmp::PartialEqSpecImpl for Document {
    open spec fn obeys_eq_spec() -> bool {
        true
    }

    open spec fn eq_spec(&self, other: &Document) -> bool {
        self@ == other@
    }
}

/// The two lowercase hex digits of one byte.
pub open spec fn hexd_char(n: u8) -> char
    recommends
        n < 16,
{
    if n < 10 {
        (0x30 + n) as char
    } else {
        (0x57 + n) as char
    }
}

pub open spec fn hex_byte_chars(x: u8) -> Seq<char> {
    seq![hexd_char(x / 16), hexd_char(x % 16)]
}

/// The dashed-hex identifier derived from 16 bytes: four little-endian
/// groups of 8-4-4-4 hex digits and a final 12-digit group.
pub open spec fn uuid_chars(b: Seq<u8>) -> Seq<char>
    recommends
        b.len() == 16,
{
    hex_byte_chars(b[3]) + hex_byte_chars(b[2]) + hex_byte_chars(b[1]) + hex_byte_chars(b[0])
        + seq!['-'] + hex_byte_chars(b[5]) + hex_byte_chars(b[4]) + seq!['-']
        + hex_byte_chars(b[7]) + hex_byte_chars(b[6]) + seq!['-'] + hex_byte_chars(b[9])
        + hex_byte_chars(b[8]) + seq!['-'] + hex_byte_chars(b[15]) + hex_byte_chars(b[14])
        + hex_byte_chars(b[13]) + hex_byte_chars(b[12]) + hex_byte_chars(b[11])
        + hex_byte_chars(b[10])
}

fn hexd_char_exec(n: u8) -> (r: char)
    requires
        n < 16,
    ensures
        r == hexd_char(n),
{
    if n < 10 {
        ((0x30 + n) as char)
    } else {
        ((0x57 + n) as char)
    }
}

fn push_hex_byte(out: &mut Vec<char>, x: u8)
    ensures
        final(out)@ == old(out)@ + hex_byte_chars(x),
{
    out.push(hexd_char_exec(x / 16));
    out.push(hexd_char_exec(x % 16));
    proof {
        assert(final(out)@ =~= old(out)@ + hex_byte_chars(x));
    }
}

/// Format 16 bytes as the dashed-hex identifier.
fn uuid_from_bytes(b: &Vec<u8>) -> (r: String)
    requires
        b@.len() == 16,
    ensures
        r@ == uuid_chars(b@),
{
    let mut out: Vec<char> = Vec::new();
    push_hex_byte(&mut out, b[3]);
    push_hex_byte(&mut out, b[2]);
    push_hex_byte(&mut out, b[1]);
    push_hex_byte(&mut out, b[0]);
    out.push('-');
    push_hex_byte(&mut out, b[5]);
    push_hex_byte(&mut out, b[4]);
    out.push('-');
    push_hex_byte(&mut out, b[7]);
    push_hex_byte(&mut out, b[6]);
    out.push('-');
    push_hex_byte(&mut out, b[9]);
    push_hex_byte(&mut out, b[8]);
    out.push('-');
    push_hex_byte(&mut out, b[15]);
    push_hex_byte(&mut out, b[14]);
    push_hex_byte(&mut out, b[13]);
    push_hex_byte(&mut out, b[12]);
    push_hex_byte(&mut out, b[11]);
    push_hex_byte(&mut out, b[10]);
    proof {
        assert(out@ =~= uuid_chars(b@));
    }
    chars_to_string_local(&out)
}

/// The eight little-endian bytes of a 64-bit value.
pub open spec fn le_bytes_u64(x: u64) -> Seq<u8> {
    seq![
        (x & 0xff) as u8,
        ((x >> 8) & 0xff) as u8,
        ((x >> 16) & 0xff) as u8,
        ((x >> 24) & 0xff) as u8,
        ((x >> 32) & 0xff) as u8,
        ((x >> 40) & 0xff) as u8,
        ((x >> 48) & 0xff) as u8,
        ((x >> 56) & 0xff) as u8,
    ]
}

pub(crate) fn push_le_bytes_u64(out: &mut Vec<u8>, x: u64)
    ensures
        final(out)@ == old(out)@ + le_bytes_u64(x),
{
    out.push((x & 0xff) as u8);
    out.push(((x >> 8) & 0xff) as u8);
    out.push(((x >> 16) & 0xff) as u8);
    out.push(((x >> 24) & 0xff) as u8);
    out.push(((x >> 32) & 0xff) as u8);
    out.push(((x >> 40) & 0xff) as u8);
    out.push(((x >> 48) & 0xff) as u8);
    out.push(((x >> 56) & 0xff) as u8);
    proof {
        assert(final(out)@ =~= old(out)@ + le_bytes_u64(x));
    }
}

fn chars_to_string_local(v: &Vec<char>) -> (r: String)
    ensures
        r@ == v@,
{
    crate::text::chars_to_string(v)
}

/// A fresh identifier: sixteen random bytes when the host's strong random
/// source answers, and a timestamp-derived (documented as lower-uniqueness)
/// pseudo-identifier when it does not.  Identifier creation never fails.
pub(crate) fn fresh_id() -> (r: String)
    ensures
        exists|b: Seq<u8>| b.len() == 16 && r@ == uuid_chars(b),
{
    let bytes: Vec<u8> = match random_bytes(16) {
        Option::Some(v) => v,
        Option::None => {
            let now = now_unix_millis();
            let alt = now.wrapping_mul(31337);
            let mut fallback: Vec<u8> = Vec::new();
            push_le_bytes_u64(&mut fallback, now);
            push_le_bytes_u64(&mut fallback, alt);
            fallback
        },
    };
    let r = uuid_from_bytes(&bytes);
    proof {
        assert(bytes@.len() == 16 && r@ == uuid_chars(bytes@));
    }
    r
}

impl Document {
    /// Assemble the immutable record for freshly ingested content.
    ///
    /// `word_count` is derived from `content` once, here; `progress` and
    /// `last_position` start at zero, `author` and `last_read` empty.
    /// The identifier is fresh (see [`fresh_id`]); `created_at` is the
    /// current UTC time, of which nothing is stated.
    pub fn new(title: String, content: String, file_type: FileType) -> (r: Document)
        ensures
            r@.title == title@,
            r@.content == content@,
            r@.file_type == file_type,
            r@.author is None,
            r@.progress == 0,
            r@.last_position == 0,
            r@.last_read is None,
            r@.word_count == word_count_of(content@),
            exists|b: Seq<u8>| b.len() == 16 && r@.id == uuid_chars(b),
    {
        let chars = str_chars(content.as_str());
        let wc = count_words(&chars);
        let id = fresh_id();
        let created_at = now_rfc3339();
        Document {
            id,
            title,
            author: Option::None,
            content,
            file_type,
            progress: 0,
            last_position: 0,
            last_read: Option::None,
            created_at,
            word_count: wc as u64,
        }
    }

    /// The whitespace-separated words of the content, in order.
    pub fn words(&self) -> (r: Vec<String>)
        ensures
            r@.map_values(|w: String| w@) == split_ws(self@.content),
    {
        let chars = str_chars(self.content.as_str());
        split_words(&chars)
    }
}

} // verus!
