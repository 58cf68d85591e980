//! The at-rest record format: a document is stored as one JSON object,
//! `{"id":..,"title":..,"author":..,"content":..,"file_type":..,
//! "progress":..,"last_position":..,"last_read":..,"created_at":..,
//! "word_count":..}`, in that field order, with strings escaped so the
//! encoding is pure ASCII.  The encoder and the parser below are both
//! verified against the same specification, and parsing inverts encoding
//! ([`lemma_parse_doc_round_trip`]).

use vstd::prelude::*;

use crate::state::{DocView, Document, FileType, opt_view};
use crate::text::{chars_to_string, str_chars, str_eq};

verus! {

// ---------------------------------------------------------------------
// Specification of the encoding.
// ---------------------------------------------------------------------

/// The decimal digits of `n`, most significant first.
pub open spec fn dec_of(n: nat) -> Seq<u8>
    decreases n,
{
    if n < 10 {
        seq![(0x30 + n) as u8]
    } else {
        dec_of(n / 10) + seq![(0x30 + n % 10) as u8]
    }
}

/// One lowercase hex digit as its ASCII byte.
pub open spec fn hexd(n: int) -> u8
    recommends
        n < 16,
{
    if n < 10 {
        (0x30 + n) as u8
    } else {
        (0x57 + n) as u8
    }
}

/// The six bytes of a `\uXXXX` escape for a code unit `v <= 0xFFFF`.
pub open spec fn ucode(v: int) -> Seq<u8>
    recommends
        v <= 0xFFFF,
{
    seq![0x5c, 0x75, hexd(v / 0x1000), hexd((v / 0x100) % 0x10), hexd((v / 0x10) % 0x10), hexd(
        v % 0x10,
    )]
}

/// The escaped bytes of one character: printable ASCII stands for itself,
/// quote and backslash get a two-byte escape, and everything else becomes
/// `\uXXXX` code units (a surrogate pair above the basic plane), so the
/// whole encoding is ASCII.
pub open spec fn esc_char(c: char) -> Seq<u8> {
    let v = c as u32;
    if c == '"' {
        seq![0x5cu8, 0x22u8]
    } else if c == '\\' {
        seq![0x5cu8, 0x5cu8]
    } else if 0x20 <= v && v < 0x7f {
        seq![v as u8]
    } else if v <= 0xFFFF {
        ucode(v as int)
    } else {
        ucode(0xD800 + (v - 0x10000) / 0x400) + ucode(0xDC00 + (v - 0x10000) % 0x400)
    }
}

pub open spec fn esc_str(s: Seq<char>) -> Seq<u8>
    decreases s.len(),
{
    if s.len() == 0 {
        Seq::empty()
    } else {
        esc_char(s[0]) + esc_str(s.skip(1))
    }
}

/// A JSON string: quote, escaped characters, quote.
pub open spec fn quoted(s: Seq<char>) -> Seq<u8> {
    seq![0x22u8] + esc_str(s) + seq![0x22u8]
}

pub open spec fn null_lit() -> Seq<u8> {
    seq![0x6e, 0x75, 0x6c, 0x6c]
}

/// An optional string: `null` or a JSON string.
pub open spec fn opt_quoted(o: Option<Seq<char>>) -> Seq<u8> {
    match o {
        Option::None => null_lit(),
        Option::Some(s) => quoted(s),
    }
}

// The object keys, each with its leading separator: `{"id":`, `,"title":`,
// and so on, as ASCII bytes.
pub open spec fn k_id() -> Seq<u8> {
    seq![0x7b, 0x22, 0x69, 0x64, 0x22, 0x3a]
}

pub open spec fn k_title() -> Seq<u8> {
    seq![0x2c, 0x22, 0x74, 0x69, 0x74, 0x6c, 0x65, 0x22, 0x3a]
}

pub open spec fn k_author() -> Seq<u8> {
    seq![0x2c, 0x22, 0x61, 0x75, 0x74, 0x68, 0x6f, 0x72, 0x22, 0x3a]
}

pub open spec fn k_content() -> Seq<u8> {
    seq![0x2c, 0x22, 0x63, 0x6f, 0x6e, 0x74, 0x65, 0x6e, 0x74, 0x22, 0x3a]
}

pub open spec fn k_file_type() -> Seq<u8> {
    seq![0x2c, 0x22, 0x66, 0x69, 0x6c, 0x65, 0x5f, 0x74, 0x79, 0x70, 0x65, 0x22, 0x3a]
}

pub open spec fn k_progress() -> Seq<u8> {
    seq![0x2c, 0x22, 0x70, 0x72, 0x6f, 0x67, 0x72, 0x65, 0x73, 0x73, 0x22, 0x3a]
}

pub open spec fn k_last_position() -> Seq<u8> {
    seq![0x2c, 0x22, 0x6c, 0x61, 0x73, 0x74, 0x5f, 0x70, 0x6f, 0x73, 0x69, 0x74, 0x69, 0x6f, 0x6e,
        0x22, 0x3a]
}

pub open spec fn k_last_read() -> Seq<u8> {
    seq![0x2c, 0x22, 0x6c, 0x61, 0x73, 0x74, 0x5f, 0x72, 0x65, 0x61, 0x64, 0x22, 0x3a]
}

pub open spec fn k_created_at() -> Seq<u8> {
    seq![0x2c, 0x22, 0x63, 0x72, 0x65, 0x61, 0x74, 0x65, 0x64, 0x5f, 0x61, 0x74, 0x22, 0x3a]
}

pub open spec fn k_word_count() -> Seq<u8> {
    seq![0x2c, 0x22, 0x77, 0x6f, 0x72, 0x64, 0x5f, 0x63, 0x6f, 0x75, 0x6e, 0x74, 0x22, 0x3a]
}

/// The first half of a record: identity, title, author, content.
pub open spec fn json_head(d: DocView) -> Seq<u8> {
    k_id() + quoted(d.id) + k_title() + quoted(d.title) + k_author() + opt_quoted(d.author)
        + k_content() + quoted(d.content)
}

/// The second half of a record: file type, counters, audit fields, and
/// the closing brace.
pub open spec fn json_tail(d: DocView) -> Seq<u8> {
    k_file_type() + quoted(d.file_type.name_chars()) + k_progress() + dec_of(d.progress as nat)
        + k_last_position() + dec_of(d.last_position as nat) + k_last_read() + opt_quoted(
        d.last_read,
    ) + k_created_at() + quoted(d.created_at) + k_word_count() + dec_of(d.word_count as nat)
        + seq![0x7du8]
}

/// The bytes of one encoded document record.
pub open spec fn json_of(d: DocView) -> Seq<u8> {
    json_head(d) + json_tail(d)
}

// ---------------------------------------------------------------------
// The encoder.
// ---------------------------------------------------------------------

proof fn lemma_esc_str_snoc(s: Seq<char>, c: char)
    ensures
        esc_str(s.push(c)) == esc_str(s) + esc_char(c),
    decreases s.len(),
{
    if s.len() == 0 {
        assert(s.push(c)[0] == c);
        assert(s.push(c).skip(1) =~= Seq::<char>::empty());
        assert(esc_str(Seq::<char>::empty()) == Seq::<u8>::empty());
        assert(esc_str(s.push(c)) =~= esc_str(s) + esc_char(c));
    } else {
        assert(s.push(c)[0] == s[0]);
        assert(s.push(c).skip(1) =~= s.skip(1).push(c));
        lemma_esc_str_snoc(s.skip(1), c);
        assert(esc_str(s.push(c)) =~= esc_str(s) + esc_char(c));
    }
}

fn enc_u64(out: &mut Vec<u8>, n: u64)
    ensures
        final(out)@ == old(out)@ + dec_of(n as nat),
    decreases n,
{
    if n < 10 {
        out.push((0x30 + n as u8) as u8);
        proof {
            assert(final(out)@ =~= old(out)@ + dec_of(n as nat));
        }
    } else {
        enc_u64(out, n / 10);
        out.push((0x30 + (n % 10) as u8) as u8);
        proof {
            assert(final(out)@ =~= old(out)@ + dec_of(n as nat));
        }
    }
}

fn enc_ucode(out: &mut Vec<u8>, v: u32)
    requires
        v <= 0xFFFF,
    ensures
        final(out)@ == old(out)@ + ucode(v as int),
{
    out.push(0x5c);
    out.push(0x75);
    out.push(hexd_exec(v / 0x1000));
    out.push(hexd_exec((v / 0x100) % 0x10));
    out.push(hexd_exec((v / 0x10) % 0x10));
    out.push(hexd_exec(v % 0x10));
    proof {
        assert(final(out)@ =~= old(out)@ + ucode(v as int));
    }
}

fn hexd_exec(n: u32) -> (r: u8)
    requires
        n < 16,
    ensures
        r == hexd(n as int),
{
    if n < 10 {
        (0x30 + n as u8) as u8
    } else {
        (0x57 + n as u8) as u8
    }
}

fn enc_char(out: &mut Vec<u8>, c: char)
    ensures
        final(out)@ == old(out)@ + esc_char(c),
{
    let v = c as u32;
    if c == '"' {
        out.push(0x5c);
        out.push(0x22);
        proof {
            assert(final(out)@ =~= old(out)@ + esc_char(c));
        }
    } else if c == '\\' {
        out.push(0x5c);
        out.push(0x5c);
        proof {
            assert(final(out)@ =~= old(out)@ + esc_char(c));
        }
    } else if 0x20 <= v && v < 0x7f {
        out.push(v as u8);
        proof {
            assert(final(out)@ =~= old(out)@ + esc_char(c));
        }
    } else if v <= 0xFFFF {
        enc_ucode(out, v);
    } else {
        enc_ucode(out, 0xD800 + (v - 0x10000) / 0x400);
        enc_ucode(out, 0xDC00 + (v - 0x10000) % 0x400);
        proof {
            assert(final(out)@ =~= old(out)@ + esc_char(c));
        }
    }
}

fn enc_quoted_chars(out: &mut Vec<u8>, s: &Vec<char>)
    ensures
        final(out)@ == old(out)@ + quoted(s@),
{
    out.push(0x22);
    let mut i: usize = 0;
    while i < s.len()
        invariant
            i <= s.len(),
            out@ == old(out)@ + seq![0x22u8] + esc_str(s@.take(i as int)),
        decreases s.len() - i,
    {
        proof {
            lemma_esc_str_snoc(s@.take(i as int), s@[i as int]);
            assert(s@.take(i + 1) =~= s@.take(i as int).push(s@[i as int]));
        }
        enc_char(out, s[i]);
        i = i + 1;
        proof {
            assert(out@ =~= old(out)@ + seq![0x22u8] + esc_str(s@.take(i as int)));
        }
    }
    out.push(0x22);
    proof {
        assert(s@.take(s@.len() as int) =~= s@);
        assert(final(out)@ =~= old(out)@ + quoted(s@));
    }
}

fn enc_quoted(out: &mut Vec<u8>, s: &str)
    ensures
        final(out)@ == old(out)@ + quoted(s@),
{
    let chars = str_chars(s);
    enc_quoted_chars(out, &chars);
}

fn enc_opt(out: &mut Vec<u8>, o: &Option<String>)
    ensures
        final(out)@ == old(out)@ + opt_quoted(opt_view(*o)),
{
    match o {
        Option::None => {
            out.push(0x6e);
            out.push(0x75);
            out.push(0x6c);
            out.push(0x6c);
            proof {
                assert(final(out)@ =~= old(out)@ + null_lit());
            }
        },
        Option::Some(s) => {
            enc_quoted(out, s.as_str());
        },
    }
}

/// Serialize one document to its JSON record bytes.
pub fn doc_to_json(d: &Document) -> (r: Vec<u8>)
    ensures
        r@ == json_of(d@),
{
    let mut out: Vec<u8> = Vec::new();
    let mut piece: Vec<u8> = vec![0x7b, 0x22, 0x69, 0x64, 0x22, 0x3a];
    out.append(&mut piece);
    proof {
        assert(out@ =~= k_id());
    }
    enc_quoted(&mut out, d.id.as_str());
    let mut piece: Vec<u8> = vec![0x2c, 0x22, 0x74, 0x69, 0x74, 0x6c, 0x65, 0x22, 0x3a];
    out.append(&mut piece);
    enc_quoted(&mut out, d.title.as_str());
    let mut piece: Vec<u8> = vec![0x2c, 0x22, 0x61, 0x75, 0x74, 0x68, 0x6f, 0x72, 0x22, 0x3a];
    out.append(&mut piece);
    enc_opt(&mut out, &d.author);
    let mut piece: Vec<u8> = vec![0x2c, 0x22, 0x63, 0x6f, 0x6e, 0x74, 0x65, 0x6e, 0x74, 0x22, 0x3a];
    out.append(&mut piece);
    enc_quoted(&mut out, d.content.as_str());
    let mut piece: Vec<u8> = vec![0x2c, 0x22, 0x66, 0x69, 0x6c, 0x65, 0x5f, 0x74, 0x79, 0x70, 0x65,
        0x22, 0x3a];
    out.append(&mut piece);
    enc_quoted(&mut out, d.file_type.as_str());
    let mut piece: Vec<u8> = vec![0x2c, 0x22, 0x70, 0x72, 0x6f, 0x67, 0x72, 0x65, 0x73, 0x73, 0x22,
        0x3a];
    out.append(&mut piece);
    enc_u64(&mut out, d.progress as u64);
    let mut piece: Vec<u8> = vec![0x2c, 0x22, 0x6c, 0x61, 0x73, 0x74, 0x5f, 0x70, 0x6f, 0x73, 0x69,
        0x74, 0x69, 0x6f, 0x6e, 0x22, 0x3a];
    out.append(&mut piece);
    enc_u64(&mut out, d.last_position);
    let mut piece: Vec<u8> = vec![0x2c, 0x22, 0x6c, 0x61, 0x73, 0x74, 0x5f, 0x72, 0x65, 0x61, 0x64,
        0x22, 0x3a];
    out.append(&mut piece);
    enc_opt(&mut out, &d.last_read);
    let mut piece: Vec<u8> = vec![0x2c, 0x22, 0x63, 0x72, 0x65, 0x61, 0x74, 0x65, 0x64, 0x5f, 0x61,
        0x74, 0x22, 0x3a];
    out.append(&mut piece);
    enc_quoted(&mut out, d.created_at.as_str());
    let mut piece: Vec<u8> = vec![0x2c, 0x22, 0x77, 0x6f, 0x72, 0x64, 0x5f, 0x63, 0x6f, 0x75, 0x6e,
        0x74, 0x22, 0x3a];
    out.append(&mut piece);
    enc_u64(&mut out, d.word_count);
    out.push(0x7d);
    proof {
        assert(out@ =~= json_of(d@));
    }
    out
}

// ---------------------------------------------------------------------
// Specification of parsing.
// ---------------------------------------------------------------------

pub open spec fn is_digit(b: u8) -> bool {
    0x30 <= b && b <= 0x39
}

pub open spec fn is_hexd_byte(b: u8) -> bool {
    (0x30 <= b && b <= 0x39) || (0x61 <= b && b <= 0x66)
}

pub open spec fn hexv(b: u8) -> int {
    if b <= 0x39 {
        b - 0x30
    } else {
        b - 0x57
    }
}

/// The end of the run of decimal digits starting at `i`.
pub open spec fn digits_end(s: Seq<u8>, i: int) -> int
    decreases s.len() - i,
{
    if i < 0 || i >= s.len() || !is_digit(s[i]) {
        i
    } else {
        digits_end(s, i + 1)
    }
}

/// The value of the digits in `s[i..j]`.
pub open spec fn digits_val(s: Seq<u8>, i: int, j: int) -> int
    decreases j - i,
{
    if j <= i {
        0
    } else {
        digits_val(s, i, j - 1) * 10 + (s[j - 1] - 0x30)
    }
}

/// Parse a canonical decimal `u64`: at least one digit, no leading zero,
/// and a value that fits.
pub open spec fn parse_num(s: Seq<u8>, i: int) -> Option<(u64, int)> {
    let e = digits_end(s, i);
    if e == i || e - i > 20 {
        Option::None
    } else if s[i] == 0x30 && e > i + 1 {
        Option::None
    } else {
        let v = digits_val(s, i, e);
        if v > u64::MAX {
            Option::None
        } else {
            Option::Some((v as u64, e))
        }
    }
}

pub open spec fn hex4_at(s: Seq<u8>, i: int) -> bool {
    i >= 0 && i + 4 <= s.len() && is_hexd_byte(s[i]) && is_hexd_byte(s[i + 1]) && is_hexd_byte(
        s[i + 2],
    ) && is_hexd_byte(s[i + 3])
}

pub open spec fn hex4_val(s: Seq<u8>, i: int) -> int {
    hexv(s[i]) * 0x1000 + hexv(s[i + 1]) * 0x100 + hexv(s[i + 2]) * 0x10 + hexv(s[i + 3])
}

/// Parse one character of a JSON string body at `i`: a printable ASCII
/// byte standing for itself, a two-byte escape, or `\uXXXX` code units
/// (with surrogate pairs recombined).
pub open spec fn parse_one_char(s: Seq<u8>, i: int) -> Option<(char, int)> {
    if i < 0 || i >= s.len() {
        Option::None
    } else if s[i] == 0x5c {
        if i + 1 >= s.len() {
            Option::None
        } else if s[i + 1] == 0x22 {
            Option::Some(('"', i + 2))
        } else if s[i + 1] == 0x5c {
            Option::Some(('\\', i + 2))
        } else if s[i + 1] == 0x75 {
            if !hex4_at(s, i + 2) {
                Option::None
            } else {
                let v = hex4_val(s, i + 2);
                if v < 0xD800 || (0xE000 <= v && v <= 0xFFFF) {
                    Option::Some(((v as u32) as char, i + 6))
                } else if v < 0xDC00 {
                    if i + 12 <= s.len() && s[i + 6] == 0x5c && s[i + 7] == 0x75 && hex4_at(
                        s,
                        i + 8,
                    ) {
                        let w = hex4_val(s, i + 8);
                        if 0xDC00 <= w && w < 0xE000 {
                            Option::Some(
                                (((0x10000 + (v - 0xD800) * 0x400 + (w - 0xDC00)) as u32) as char, i
                                    + 12),
                            )
                        } else {
                            Option::None
                        }
                    } else {
                        Option::None
                    }
                } else {
                    Option::None
                }
            }
        } else {
            Option::None
        }
    } else if 0x20 <= s[i] && s[i] < 0x7f && s[i] != 0x22 {
        Option::Some((s[i] as char, i + 1))
    } else {
        Option::None
    }
}

/// Parse the rest of a JSON string after its opening quote, up to and
/// including the closing quote.
pub open spec fn parse_str_rest(s: Seq<u8>, i: int) -> Option<(Seq<char>, int)>
    decreases s.len() - i,
{
    if i < 0 || i >= s.len() {
        Option::None
    } else if s[i] == 0x22 {
        Option::Some((Seq::empty(), i + 1))
    } else {
        match parse_one_char(s, i) {
            Option::None => Option::None,
            Option::Some((c, j)) => {
                if j <= i || j > s.len() {
                    Option::None
                } else {
                    match parse_str_rest(s, j) {
                        Option::None => Option::None,
                        Option::Some((cs, k)) => Option::Some((seq![c] + cs, k)),
                    }
                }
            },
        }
    }
}

pub open spec fn at_lit(s: Seq<u8>, i: int, lit: Seq<u8>) -> bool {
    0 <= i && i + lit.len() <= s.len() && s.subrange(i, i + lit.len()) == lit
}

pub open spec fn parse_quoted(s: Seq<u8>, i: int) -> Option<(Seq<char>, int)> {
    if 0 <= i && i < s.len() && s[i] == 0x22 {
        parse_str_rest(s, i + 1)
    } else {
        Option::None
    }
}

pub open spec fn parse_opt_quoted(s: Seq<u8>, i: int) -> Option<(Option<Seq<char>>, int)> {
    if at_lit(s, i, null_lit()) {
        Option::Some((Option::None, i + 4))
    } else {
        match parse_quoted(s, i) {
            Option::None => Option::None,
            Option::Some((cs, j)) => Option::Some((Option::Some(cs), j)),
        }
    }
}

pub open spec fn ftype_of_chars(cs: Seq<char>) -> Option<FileType> {
    if cs == FileType::Txt.name_chars() {
        Option::Some(FileType::Txt)
    } else if cs == FileType::Md.name_chars() {
        Option::Some(FileType::Md)
    } else if cs == FileType::Pdf.name_chars() {
        Option::Some(FileType::Pdf)
    } else if cs == FileType::Docx.name_chars() {
        Option::Some(FileType::Docx)
    } else {
        Option::None
    }
}

/// Parse one whole document record: the exact key sequence the encoder
/// writes, each value in place, the closing brace, and nothing after it.
pub open spec fn parse_doc(s: Seq<u8>) -> Option<DocView> {
    if !at_lit(s, 0, k_id()) {
        Option::None
    } else {
        match parse_quoted(s, k_id().len() as int) {
            Option::None => Option::None,
            Option::Some((id, i1)) => {
                if !at_lit(s, i1, k_title()) {
                    Option::None
                } else {
                    match parse_quoted(s, i1 + k_title().len()) {
                        Option::None => Option::None,
                        Option::Some((title, i2)) => {
                            if !at_lit(s, i2, k_author()) {
                                Option::None
                            } else {
                                match parse_opt_quoted(s, i2 + k_author().len()) {
                                    Option::None => Option::None,
                                    Option::Some((author, i3)) => {
                                        if !at_lit(s, i3, k_content()) {
                                            Option::None
                                        } else {
                                            match parse_quoted(s, i3 + k_content().len()) {
                                                Option::None => Option::None,
                                                Option::Some((content, i4)) => parse_doc_tail(
                                                    s,
                                                    i4,
                                                    id,
                                                    title,
                                                    author,
                                                    content,
                                                ),
                                            }
                                        }
                                    },
                                }
                            }
                        },
                    }
                }
            },
        }
    }
}

/// The second half of [`parse_doc`]: the fields from `file_type` on.
pub open spec fn parse_doc_tail(
    s: Seq<u8>,
    i: int,
    id: Seq<char>,
    title: Seq<char>,
    author: Option<Seq<char>>,
    content: Seq<char>,
) -> Option<DocView> {
    if !at_lit(s, i, k_file_type()) {
        Option::None
    } else {
        match parse_quoted(s, i + k_file_type().len()) {
            Option::None => Option::None,
            Option::Some((ftcs, i5)) => {
                match ftype_of_chars(ftcs) {
                    Option::None => Option::None,
                    Option::Some(ft) => {
                        if !at_lit(s, i5, k_progress()) {
                            Option::None
                        } else {
                            match parse_num(s, i5 + k_progress().len()) {
                                Option::None => Option::None,
                                Option::Some((progress, i6)) => {
                                    if progress > 0xFFFF_FFFF {
                                        Option::None
                                    } else if !at_lit(s, i6, k_last_position()) {
                                        Option::None
                                    } else {
                                        match parse_num(s, i6 + k_last_position().len()) {
                                            Option::None => Option::None,
                                            Option::Some((last_position, i7)) => {
                                                if !at_lit(s, i7, k_last_read()) {
                                                    Option::None
                                                } else {
                                                    match parse_opt_quoted(
                                                        s,
                                                        i7 + k_last_read().len(),
                                                    ) {
                                                        Option::None => Option::None,
                                                        Option::Some((last_read, i8)) => {
                                                            if !at_lit(s, i8, k_created_at()) {
                                                                Option::None
                                                            } else {
                                                                match parse_quoted(
                                                                    s,
                                                                    i8 + k_created_at().len(),
                                                                ) {
                                                                    Option::None => Option::None,
                                                                    Option::Some(
                                                                        (created_at, i9),
                                                                    ) => {
                                                                        if !at_lit(
                                                                            s,
                                                                            i9,
                                                                            k_word_count(),
                                                                        ) {
                                                                            Option::None
                                                                        } else {
                                                                            match parse_num(
                                                                                s,
                                                                                i9
                                                                                    + k_word_count().len(),
                                                                            ) {
                                                                                Option::None
                                                                                    => Option::None,
                                                                                Option::Some(
                                                                                    (word_count, i10),
                                                                                ) => {
                                                                                    if i10 + 1
                                                                                        == s.len()
                                                                                        && at_lit(
                                                                                        s,
                                                                                        i10,
                                                                                        seq![0x7du8],
                                                                                    ) {
                                                                                        Option::Some(
                                                                                            DocView {
                                                                                                id,
                                                                                                title,
                                                                                                author,
                                                                                                content,
                                                                                                file_type: ft,
                                                                                                progress: progress as u32,
                                                                                                last_position,
                                                                                                last_read,
                                                                                                created_at,
                                                                                                word_count,
                                                                                            },
                                                                                        )
                                                                                    } else {
                                                                                        Option::None
                                                                                    }
                                                                                },
                                                                            }
                                                                        }
                                                                    },
                                                                }
                                                            }
                                                        },
                                                    }
                                                }
                                            },
                                        }
                                    }
                                },
                            }
                        }
                    },
                }
            },
        }
    }
}

// ---------------------------------------------------------------------
// The parser.
// ---------------------------------------------------------------------

/// Relies on `char::from_u32`: `Some` exactly on values that are not
/// surrogates and lie at or below the last code point.
#[verifier::external_body]
fn char_from_u32(v: u32) -> (r: char)
    requires
        v < 0xD800 || (0xE000 <= v && v < 0x110000),
    ensures
        r == (v as char),
{
    char::from_u32(v).unwrap()
}

fn is_digit_exec(b: u8) -> (r: bool)
    ensures
        r == is_digit(b),
{
    0x30 <= b && b <= 0x39
}

fn is_hexd_exec(b: u8) -> (r: bool)
    ensures
        r == is_hexd_byte(b),
{
    (0x30 <= b && b <= 0x39) || (0x61 <= b && b <= 0x66)
}

fn hexv_exec(b: u8) -> (r: u32)
    requires
        is_hexd_byte(b),
    ensures
        r as int == hexv(b),
        r < 16,
{
    if b <= 0x39 {
        (b - 0x30) as u32
    } else {
        (b - 0x57) as u32
    }
}

fn p_hex4(s: &Vec<u8>, i: usize) -> (r: Option<u32>)
    ensures
        match r {
            Option::Some(v) => hex4_at(s@, i as int) && v as int == hex4_val(s@, i as int) && v
                <= 0xFFFF,
            Option::None => !hex4_at(s@, i as int),
        },
{
    if s.len() < 4 || i > s.len() - 4 {
        return Option::None;
    }
    if !(is_hexd_exec(s[i]) && is_hexd_exec(s[i + 1]) && is_hexd_exec(s[i + 2]) && is_hexd_exec(
        s[i + 3],
    )) {
        return Option::None;
    }
    let v = hexv_exec(s[i]) * 0x1000 + hexv_exec(s[i + 1]) * 0x100 + hexv_exec(s[i + 2]) * 0x10
        + hexv_exec(s[i + 3]);
    Option::Some(v)
}

fn p_one_char(s: &Vec<u8>, i: usize) -> (r: Option<(char, usize)>)
    ensures
        match r {
            Option::Some((c, j)) => parse_one_char(s@, i as int) == Option::Some((c, j as int)) && i
                < j <= s@.len(),
            Option::None => parse_one_char(s@, i as int) is None,
        },
{
    if i >= s.len() {
        return Option::None;
    }
    let b = s[i];
    if b == 0x5c {
        if i + 1 >= s.len() {
            return Option::None;
        }
        let b2 = s[i + 1];
        if b2 == 0x22 {
            Option::Some(('"', i + 2))
        } else if b2 == 0x5c {
            Option::Some(('\\', i + 2))
        } else if b2 == 0x75 {
            match p_hex4(s, i + 2) {
                Option::None => Option::None,
                Option::Some(v) => {
                    if v < 0xD800 || (0xE000 <= v && v <= 0xFFFF) {
                        let c = char_from_u32(v);
                        Option::Some((c, i + 6))
                    } else if v < 0xDC00 {
                        if s.len() >= 12 && i <= s.len() - 12 && s[i + 6] == 0x5c && s[i + 7]
                            == 0x75 {
                            match p_hex4(s, i + 8) {
                                Option::None => Option::None,
                                Option::Some(w) => {
                                    if 0xDC00 <= w && w < 0xE000 {
                                        let code = 0x10000 + (v - 0xD800) * 0x400 + (w - 0xDC00);
                                        let c = char_from_u32(code);
                                        Option::Some((c, i + 12))
                                    } else {
                                        Option::None
                                    }
                                },
                            }
                        } else {
                            Option::None
                        }
                    } else {
                        Option::None
                    }
                },
            }
        } else {
            Option::None
        }
    } else if 0x20 <= b && b < 0x7f && b != 0x22 {
        Option::Some((b as char, i + 1))
    } else {
        Option::None
    }
}

/// Parsing the string body from `cur` with `acc` already read.
pub open spec fn str_cont(s: Seq<u8>, cur: int, acc: Seq<char>) -> Option<(Seq<char>, int)> {
    match parse_str_rest(s, cur) {
        Option::None => Option::None,
        Option::Some((cs, k)) => Option::Some((acc + cs, k)),
    }
}

fn p_str_rest(s: &Vec<u8>, i: usize) -> (r: Option<(Vec<char>, usize)>)
    requires
        i <= s@.len(),
    ensures
        match r {
            Option::Some((cs, j)) => parse_str_rest(s@, i as int) == Option::Some(
                (cs@, j as int),
            ) && i < j <= s@.len(),
            Option::None => parse_str_rest(s@, i as int) is None,
        },
{
    let mut acc: Vec<char> = Vec::new();
    let mut cur: usize = i;
    proof {
        let first = parse_str_rest(s@, i as int);
        if first is Some {
            let (cs, k) = first->Some_0;
            assert(Seq::<char>::empty() + cs =~= cs);
        }
    }
    loop
        invariant
            i <= cur <= s@.len(),
            str_cont(s@, cur as int, acc@) == parse_str_rest(s@, i as int),
        decreases s@.len() - cur,
    {
        if cur >= s.len() {
            return Option::None;
        }
        if s[cur] == 0x22 {
            proof {
                assert(acc@ + Seq::<char>::empty() =~= acc@);
            }
            return Option::Some((acc, cur + 1));
        }
        match p_one_char(s, cur) {
            Option::None => {
                return Option::None;
            },
            Option::Some((c, j)) => {
                proof {
                    let rest = parse_str_rest(s@, j as int);
                    if rest is Some {
                        let (cs, k) = rest->Some_0;
                        assert((acc@ + seq![c]) + cs =~= acc@ + (seq![c] + cs));
                    }
                }
                acc.push(c);
                cur = j;
            },
        }
    }
}

fn p_quoted(s: &Vec<u8>, i: usize) -> (r: Option<(Vec<char>, usize)>)
    ensures
        match r {
            Option::Some((cs, j)) => parse_quoted(s@, i as int) == Option::Some((cs@, j as int))
                && i < j <= s@.len(),
            Option::None => parse_quoted(s@, i as int) is None,
        },
{
    if i < s.len() && s[i] == 0x22 {
        p_str_rest(s, i + 1)
    } else {
        Option::None
    }
}

fn eat_lit(s: &Vec<u8>, i: usize, lit: &Vec<u8>) -> (r: Option<usize>)
    ensures
        match r {
            Option::Some(j) => at_lit(s@, i as int, lit@) && j as int == i + lit@.len() && i <= j
                <= s@.len(),
            Option::None => !at_lit(s@, i as int, lit@),
        },
{
    if lit.len() > s.len() || i > s.len() - lit.len() {
        return Option::None;
    }
    let slen = s.len();
    let mut k: usize = 0;
    while k < lit.len()
        invariant
            k <= lit@.len(),
            slen == s@.len(),
            i + lit@.len() <= s@.len(),
            forall|m: int| 0 <= m < k ==> s@[i + m] == lit@[m],
        decreases lit@.len() - k,
    {
        if s[i + k] != lit[k] {
            proof {
                if at_lit(s@, i as int, lit@) {
                    assert(s@.subrange(i as int, i + lit@.len())[k as int] == lit@[k as int]);
                }
            }
            return Option::None;
        }
        k = k + 1;
    }
    proof {
        assert(s@.subrange(i as int, i + lit@.len()) =~= lit@);
    }
    Option::Some(i + lit.len())
}

fn p_opt_quoted(s: &Vec<u8>, i: usize) -> (r: Option<(Option<Vec<char>>, usize)>)
    ensures
        match r {
            Option::Some((o, j)) => parse_opt_quoted(s@, i as int) == Option::Some(
                (
                    match o {
                        Option::None => Option::None,
                        Option::Some(cs) => Option::Some(cs@),
                    },
                    j as int,
                ),
            ) && i < j <= s@.len(),
            Option::None => parse_opt_quoted(s@, i as int) is None,
        },
{
    let null_bytes: Vec<u8> = vec![0x6e, 0x75, 0x6c, 0x6c];
    proof {
        assert(null_bytes@ =~= null_lit());
    }
    match eat_lit(s, i, &null_bytes) {
        Option::Some(j) => Option::Some((Option::None, j)),
        Option::None => {
            match p_quoted(s, i) {
                Option::None => Option::None,
                Option::Some((cs, j)) => Option::Some((Option::Some(cs), j)),
            }
        },
    }
}

pub open spec fn pow10(k: nat) -> int
    decreases k,
{
    if k == 0 {
        1
    } else {
        10 * pow10((k - 1) as nat)
    }
}

proof fn lemma_pow10_mono(a: nat, b: nat)
    requires
        a <= b,
    ensures
        pow10(a) <= pow10(b),
        pow10(a) >= 1,
    decreases b,
{
    if a == b {
        if a == 0 {
        } else {
            lemma_pow10_mono((a - 1) as nat, (b - 1) as nat);
        }
    } else {
        lemma_pow10_mono(a, (b - 1) as nat);
    }
}

proof fn lemma_digits_val_bound(s: Seq<u8>, i: int, j: int)
    requires
        0 <= i <= j <= s.len(),
        forall|m: int| i <= m < j ==> is_digit(s[m]),
    ensures
        0 <= digits_val(s, i, j) < pow10((j - i) as nat),
    decreases j - i,
{
    if j == i {
    } else {
        lemma_digits_val_bound(s, i, j - 1);
    }
}

fn p_num(s: &Vec<u8>, i: usize) -> (r: Option<(u64, usize)>)
    requires
        i <= s@.len(),
    ensures
        match r {
            Option::Some((v, j)) => parse_num(s@, i as int) == Option::Some((v, j as int)) && i < j
                <= s@.len(),
            Option::None => parse_num(s@, i as int) is None,
        },
{
    let mut e: usize = i;
    while e < s.len() && is_digit_exec(s[e])
        invariant
            i <= e <= s@.len(),
            forall|m: int| i <= m < e ==> is_digit(s@[m]),
            digits_end(s@, i as int) == digits_end(s@, e as int),
        decreases s@.len() - e,
    {
        e = e + 1;
    }
    proof {
        assert(digits_end(s@, e as int) == e);
    }
    if e == i || e - i > 20 {
        return Option::None;
    }
    if s[i] == 0x30 && e > i + 1 {
        return Option::None;
    }
    proof {
        lemma_pow10_mono(0, 20);
        assert(pow10(1) == 10);
        assert(pow10(2) == 100);
        assert(pow10(3) == 1000);
        assert(pow10(4) == 10000);
        assert(pow10(5) == 100000);
        assert(pow10(6) == 1000000);
        assert(pow10(7) == 10000000);
        assert(pow10(8) == 100000000);
        assert(pow10(9) == 1000000000);
        assert(pow10(10) == 10000000000);
        assert(pow10(11) == 100000000000);
        assert(pow10(12) == 1000000000000);
        assert(pow10(13) == 10000000000000);
        assert(pow10(14) == 100000000000000);
        assert(pow10(15) == 1000000000000000);
        assert(pow10(16) == 10000000000000000);
        assert(pow10(17) == 100000000000000000);
        assert(pow10(18) == 1000000000000000000);
        assert(pow10(19) == 10000000000000000000);
        assert(pow10(20) == 100000000000000000000);
    }
    let mut acc: u128 = 0;
    let mut j: usize = i;
    while j < e
        invariant
            i <= j <= e <= s@.len(),
            e - i <= 20,
            forall|m: int| i <= m < e ==> is_digit(s@[m]),
            acc as int == digits_val(s@, i as int, j as int),
            pow10(20) == 100000000000000000000,
        decreases e - j,
    {
        proof {
            lemma_digits_val_bound(s@, i as int, j as int);
            lemma_pow10_mono((j - i) as nat, 20);
        }
        acc = acc * 10 + (s[j] - 0x30) as u128;
        j = j + 1;
    }
    if acc > 0xFFFF_FFFF_FFFF_FFFF {
        return Option::None;
    }
    Option::Some((acc as u64, e))
}

fn ftype_from_chars(cs: &Vec<char>) -> (r: Option<FileType>)
    ensures
        r == ftype_of_chars(cs@),
{
    let st = chars_to_string(cs);
    proof {
        reveal_strlit("TXT");
        reveal_strlit("MD");
        reveal_strlit("PDF");
        reveal_strlit("DOCX");
        assert("TXT"@ =~= FileType::Txt.name_chars());
        assert("MD"@ =~= FileType::Md.name_chars());
        assert("PDF"@ =~= FileType::Pdf.name_chars());
        assert("DOCX"@ =~= FileType::Docx.name_chars());
    }
    if str_eq(st.as_str(), "TXT") {
        Option::Some(FileType::Txt)
    } else if str_eq(st.as_str(), "MD") {
        Option::Some(FileType::Md)
    } else if str_eq(st.as_str(), "PDF") {
        Option::Some(FileType::Pdf)
    } else if str_eq(st.as_str(), "DOCX") {
        Option::Some(FileType::Docx)
    } else {
        Option::None
    }
}

fn opt_chars_to_string(o: &Option<Vec<char>>) -> (r: Option<String>)
    ensures
        opt_view(r) == match o {
            Option::None => Option::<Seq<char>>::None,
            Option::Some(cs) => Option::Some(cs@),
        },
{
    match o {
        Option::None => Option::None,
        Option::Some(cs) => Option::Some(chars_to_string(cs)),
    }
}

/// Parse one record.  `Some` exactly on the canonical encoding of some
/// document, which it returns.
pub fn doc_from_json(s: &Vec<u8>) -> (r: Option<Document>)
    ensures
        match r {
            Option::Some(d) => parse_doc(s@) == Option::Some(d@),
            Option::None => parse_doc(s@) is None,
        },
{
    let key: Vec<u8> = vec![0x7b, 0x22, 0x69, 0x64, 0x22, 0x3a];
    proof {
        assert(key@ =~= k_id());
    }
    let i = match eat_lit(s, 0, &key) {
        Option::None => {
            return Option::None;
        },
        Option::Some(i) => i,
    };
    let (id, i) = match p_quoted(s, i) {
        Option::None => {
            return Option::None;
        },
        Option::Some(x) => x,
    };
    let key: Vec<u8> = vec![0x2c, 0x22, 0x74, 0x69, 0x74, 0x6c, 0x65, 0x22, 0x3a];
    proof {
        assert(key@ =~= k_title());
    }
    let i = match eat_lit(s, i, &key) {
        Option::None => {
            return Option::None;
        },
        Option::Some(j) => j,
    };
    let (title, i) = match p_quoted(s, i) {
        Option::None => {
            return Option::None;
        },
        Option::Some(x) => x,
    };
    let key: Vec<u8> = vec![0x2c, 0x22, 0x61, 0x75, 0x74, 0x68, 0x6f, 0x72, 0x22, 0x3a];
    proof {
        assert(key@ =~= k_author());
    }
    let i = match eat_lit(s, i, &key) {
        Option::None => {
            return Option::None;
        },
        Option::Some(j) => j,
    };
    let (author, i) = match p_opt_quoted(s, i) {
        Option::None => {
            return Option::None;
        },
        Option::Some(x) => x,
    };
    let key: Vec<u8> = vec![0x2c, 0x22, 0x63, 0x6f, 0x6e, 0x74, 0x65, 0x6e, 0x74, 0x22, 0x3a];
    proof {
        assert(key@ =~= k_content());
    }
    let i = match eat_lit(s, i, &key) {
        Option::None => {
            return Option::None;
        },
        Option::Some(j) => j,
    };
    let (content, i) = match p_quoted(s, i) {
        Option::None => {
            return Option::None;
        },
        Option::Some(x) => x,
    };
    let ghost id_v = id@;
    let ghost title_v = title@;
    let ghost author_v: Option<Seq<char>> = match author {
        Option::None => Option::None,
        Option::Some(ref cs) => Option::Some(cs@),
    };
    let ghost content_v = content@;
    let key: Vec<u8> = vec![0x2c, 0x22, 0x66, 0x69, 0x6c, 0x65, 0x5f, 0x74, 0x79, 0x70, 0x65, 0x22,
        0x3a];
    proof {
        assert(key@ =~= k_file_type());
    }
    let i = match eat_lit(s, i, &key) {
        Option::None => {
            return Option::None;
        },
        Option::Some(j) => j,
    };
    let (ftcs, i) = match p_quoted(s, i) {
        Option::None => {
            return Option::None;
        },
        Option::Some(x) => x,
    };
    let ft = match ftype_from_chars(&ftcs) {
        Option::None => {
            return Option::None;
        },
        Option::Some(ft) => ft,
    };
    let key: Vec<u8> = vec![0x2c, 0x22, 0x70, 0x72, 0x6f, 0x67, 0x72, 0x65, 0x73, 0x73, 0x22, 0x3a];
    proof {
        assert(key@ =~= k_progress());
    }
    let i = match eat_lit(s, i, &key) {
        Option::None => {
            return Option::None;
        },
        Option::Some(j) => j,
    };
    let (progress, i) = match p_num(s, i) {
        Option::None => {
            return Option::None;
        },
        Option::Some(x) => x,
    };
    if progress > 0xFFFF_FFFF {
        return Option::None;
    }
    let key: Vec<u8> = vec![0x2c, 0x22, 0x6c, 0x61, 0x73, 0x74, 0x5f, 0x70, 0x6f, 0x73, 0x69, 0x74,
        0x69, 0x6f, 0x6e, 0x22, 0x3a];
    proof {
        assert(key@ =~= k_last_position());
    }
    let i = match eat_lit(s, i, &key) {
        Option::None => {
            return Option::None;
        },
        Option::Some(j) => j,
    };
    let (last_position, i) = match p_num(s, i) {
        Option::None => {
            return Option::None;
        },
        Option::Some(x) => x,
    };
    let key: Vec<u8> = vec![0x2c, 0x22, 0x6c, 0x61, 0x73, 0x74, 0x5f, 0x72, 0x65, 0x61, 0x64, 0x22,
        0x3a];
    proof {
        assert(key@ =~= k_last_read());
    }
    let i = match eat_lit(s, i, &key) {
        Option::None => {
            return Option::None;
        },
        Option::Some(j) => j,
    };
    let (last_read, i) = match p_opt_quoted(s, i) {
        Option::None => {
            return Option::None;
        },
        Option::Some(x) => x,
    };
    let ghost last_read_v: Option<Seq<char>> = match last_read {
        Option::None => Option::None,
        Option::Some(ref cs) => Option::Some(cs@),
    };
    let key: Vec<u8> = vec![0x2c, 0x22, 0x63, 0x72, 0x65, 0x61, 0x74, 0x65, 0x64, 0x5f, 0x61, 0x74,
        0x22, 0x3a];
    proof {
        assert(key@ =~= k_created_at());
    }
    let i = match eat_lit(s, i, &key) {
        Option::None => {
            return Option::None;
        },
        Option::Some(j) => j,
    };
    let (created_at, i) = match p_quoted(s, i) {
        Option::None => {
            return Option::None;
        },
        Option::Some(x) => x,
    };
    let key: Vec<u8> = vec![0x2c, 0x22, 0x77, 0x6f, 0x72, 0x64, 0x5f, 0x63, 0x6f, 0x75, 0x6e, 0x74,
        0x22, 0x3a];
    proof {
        assert(key@ =~= k_word_count());
    }
    let i = match eat_lit(s, i, &key) {
        Option::None => {
            return Option::None;
        },
        Option::Some(j) => j,
    };
    let (word_count, i) = match p_num(s, i) {
        Option::None => {
            return Option::None;
        },
        Option::Some(x) => x,
    };
    if !(i < s.len() && s[i] == 0x7d && i + 1 == s.len()) {
        proof {
            if at_lit(s@, i as int, seq![0x7du8]) && i + 1 == s@.len() {
                assert(s@.subrange(i as int, i + 1)[0] == 0x7du8);
            }
        }
        return Option::None;
    }
    proof {
        assert(s@.subrange(i as int, i + 1) =~= seq![0x7du8]);
    }
    let d = Document {
        id: chars_to_string(&id),
        title: chars_to_string(&title),
        author: opt_chars_to_string(&author),
        content: chars_to_string(&content),
        file_type: ft,
        progress: progress as u32,
        last_position,
        last_read: opt_chars_to_string(&last_read),
        created_at: chars_to_string(&created_at),
        word_count,
    };
    proof {
        assert(d@ =~= DocView {
            id: id_v,
            title: title_v,
            author: author_v,
            content: content_v,
            file_type: ft,
            progress: progress as u32,
            last_position,
            last_read: last_read_v,
            created_at: created_at@,
            word_count,
        });
    }
    Option::Some(d)
}

// ---------------------------------------------------------------------
// Parsing inverts encoding.
// ---------------------------------------------------------------------

proof fn lemma_hexd_inv(n: int)
    requires
        0 <= n < 16,
    ensures
        is_hexd_byte(hexd(n)),
        hexv(hexd(n)) == n,
{
}

proof fn lemma_ucode_parse(v: int, s: Seq<u8>, i: int)
    requires
        0 <= v <= 0xFFFF,
        0 <= i,
        i + 6 <= s.len(),
        s.subrange(i, i + 6) == ucode(v),
    ensures
        s[i] == 0x5c,
        s[i + 1] == 0x75,
        hex4_at(s, i + 2),
        hex4_val(s, i + 2) == v,
{
    assert(s[i] == ucode(v)[0]) by {
        assert(s.subrange(i, i + 6)[0] == s[i]);
    }
    assert(s[i + 1] == ucode(v)[1]) by {
        assert(s.subrange(i, i + 6)[1] == s[i + 1]);
    }
    assert(s[i + 2] == hexd(v / 0x1000)) by {
        assert(s.subrange(i, i + 6)[2] == s[i + 2]);
    }
    assert(s[i + 3] == hexd((v / 0x100) % 0x10)) by {
        assert(s.subrange(i, i + 6)[3] == s[i + 3]);
    }
    assert(s[i + 4] == hexd((v / 0x10) % 0x10)) by {
        assert(s.subrange(i, i + 6)[4] == s[i + 4]);
    }
    assert(s[i + 5] == hexd(v % 0x10)) by {
        assert(s.subrange(i, i + 6)[5] == s[i + 5]);
    }
    lemma_hexd_inv(v / 0x1000);
    lemma_hexd_inv((v / 0x100) % 0x10);
    lemma_hexd_inv((v / 0x10) % 0x10);
    lemma_hexd_inv(v % 0x10);
    assert((v / 0x1000) * 0x1000 + ((v / 0x100) % 0x10) * 0x100 + ((v / 0x10) % 0x10) * 0x10 + v
        % 0x10 == v) by (nonlinear_arith)
        requires
            0 <= v <= 0xFFFF,
    ;
}

/// The first byte of an escaped character is never a quote, so the
/// closing quote of a string is unambiguous.
proof fn lemma_esc_char_shape(c: char)
    ensures
        esc_char(c).len() >= 1,
        esc_char(c)[0] != 0x22,
{
}

proof fn lemma_esc_char_parse(c: char, s: Seq<u8>, i: int)
    requires
        0 <= i,
        i + esc_char(c).len() <= s.len(),
        s.subrange(i, i + esc_char(c).len()) == esc_char(c),
    ensures
        parse_one_char(s, i) == Option::<(char, int)>::Some((c, i + esc_char(c).len())),
{
    let v = c as u32;
    let l = esc_char(c).len();
    if c == '"' {
        assert(s[i] == 0x5c && s[i + 1] == 0x22) by {
            assert(s.subrange(i, i + l)[0] == s[i]);
            assert(s.subrange(i, i + l)[1] == s[i + 1]);
        }
    } else if c == '\\' {
        assert(s[i] == 0x5c && s[i + 1] == 0x5c) by {
            assert(s.subrange(i, i + l)[0] == s[i]);
            assert(s.subrange(i, i + l)[1] == s[i + 1]);
        }
    } else if 0x20 <= v && v < 0x7f {
        assert(s[i] == v as u8) by {
            assert(s.subrange(i, i + l)[0] == s[i]);
        }
        assert((v as u8) as char == c);
    } else if v <= 0xFFFF {
        lemma_ucode_parse(v as int, s, i);
        assert((v as u32) as char == c);
    } else {
        let hi = 0xD800 + (v - 0x10000) / 0x400;
        let lo = 0xDC00 + (v - 0x10000) % 0x400;
        assert(v <= 0x10FFFF);
        assert(0 <= (v - 0x10000) / 0x400 < 0x400);
        assert(0 <= (v - 0x10000) % 0x400 < 0x400);
        assert(s.subrange(i, i + 6) =~= ucode(hi)) by {
            assert(forall|k: int|
                0 <= k < 6 ==> s.subrange(i, i + l)[k] == #[trigger] s.subrange(i, i + 6)[k]);
        }
        assert(s.subrange(i + 6, i + 12) =~= ucode(lo)) by {
            assert(forall|k: int|
                0 <= k < 6 ==> s.subrange(i, i + l)[k + 6] == #[trigger] s.subrange(
                    i + 6,
                    i + 12,
                )[k]);
        }
        lemma_ucode_parse(hi, s, i);
        lemma_ucode_parse(lo, s, i + 6);
        assert(0x10000 + (hi - 0xD800) * 0x400 + (lo - 0xDC00) == v);
        assert(((0x10000 + (hi - 0xD800) * 0x400 + (lo - 0xDC00)) as u32) as char == c);
    }
}

proof fn lemma_esc_str_parse(v: Seq<char>, s: Seq<u8>, i: int)
    requires
        0 <= i,
        i + esc_str(v).len() + 1 <= s.len(),
        s.subrange(i, i + esc_str(v).len()) == esc_str(v),
        s[i + esc_str(v).len()] == 0x22,
    ensures
        parse_str_rest(s, i) == Option::<(Seq<char>, int)>::Some(
            (v, i + esc_str(v).len() + 1),
        ),
    decreases v.len(),
{
    let el = esc_str(v).len();
    if v.len() == 0 {
        assert(s[i] == 0x22);
        assert(parse_str_rest(s, i) == Option::<(Seq<char>, int)>::Some(
            (Seq::<char>::empty(), i + 1),
        ));
        assert(v =~= Seq::<char>::empty());
    } else {
        let c = v[0];
        let vrest = v.skip(1);
        let l0 = esc_char(c).len();
        assert(esc_str(v) == esc_char(c) + esc_str(vrest));
        assert(s.subrange(i, i + l0) =~= esc_char(c)) by {
            assert(forall|k: int|
                0 <= k < l0 ==> s.subrange(i, i + el)[k] == #[trigger] s.subrange(i, i + l0)[k]);
        }
        lemma_esc_char_parse(c, s, i);
        lemma_esc_char_shape(c);
        assert(s[i] != 0x22) by {
            assert(s.subrange(i, i + l0)[0] == s[i]);
        }
        let j = i + l0;
        let erest = esc_str(vrest).len();
        assert(s.subrange(j, j + erest) =~= esc_str(vrest)) by {
            assert(forall|k: int|
                0 <= k < erest ==> s.subrange(i, i + el)[k + l0] == #[trigger] s.subrange(
                    j,
                    j + erest,
                )[k]);
        }
        assert(s[j + erest] == 0x22);
        lemma_esc_str_parse(vrest, s, j);
        assert(seq![c] + vrest =~= v);
    }
}

proof fn lemma_quoted_parse(v: Seq<char>, s: Seq<u8>, i: int)
    requires
        0 <= i,
        i + quoted(v).len() <= s.len(),
        s.subrange(i, i + quoted(v).len()) == quoted(v),
    ensures
        parse_quoted(s, i) == Option::<(Seq<char>, int)>::Some((v, i + quoted(v).len())),
{
    let ql = quoted(v).len();
    let el = esc_str(v).len();
    assert(ql == el + 2);
    assert(s[i] == 0x22) by {
        assert(s.subrange(i, i + ql)[0] == s[i]);
    }
    assert(s.subrange(i + 1, i + 1 + el) =~= esc_str(v)) by {
        assert(forall|k: int|
            0 <= k < el ==> s.subrange(i, i + ql)[k + 1] == #[trigger] s.subrange(
                i + 1,
                i + 1 + el,
            )[k]);
    }
    assert(s[i + 1 + el] == 0x22) by {
        assert(s.subrange(i, i + ql)[(el + 1) as int] == s[i + 1 + el]);
    }
    lemma_esc_str_parse(v, s, i + 1);
}

proof fn lemma_opt_quoted_parse(o: Option<Seq<char>>, s: Seq<u8>, i: int)
    requires
        0 <= i,
        i + opt_quoted(o).len() <= s.len(),
        s.subrange(i, i + opt_quoted(o).len()) == opt_quoted(o),
    ensures
        parse_opt_quoted(s, i) == Option::<(Option<Seq<char>>, int)>::Some(
            (o, i + opt_quoted(o).len()),
        ),
{
    match o {
        Option::None => {
            assert(at_lit(s, i, null_lit()));
        },
        Option::Some(v) => {
            assert(s[i] == 0x22) by {
                assert(s.subrange(i, i + opt_quoted(o).len())[0] == s[i]);
            }
            assert(!at_lit(s, i, null_lit())) by {
                if at_lit(s, i, null_lit()) {
                    assert(s.subrange(i, i + 4)[0] == s[i]);
                }
            }
            lemma_quoted_parse(v, s, i);
        },
    }
}

proof fn lemma_dec_digits(n: nat)
    ensures
        dec_of(n).len() >= 1,
        forall|k: int| 0 <= k < dec_of(n).len() ==> is_digit(#[trigger] dec_of(n)[k]),
        n > 0 ==> dec_of(n)[0] != 0x30,
        n < 10 ==> dec_of(n).len() == 1,
    decreases n,
{
    if n >= 10 {
        lemma_dec_digits(n / 10);
        assert(forall|k: int|
            0 <= k < dec_of(n / 10).len() ==> #[trigger] dec_of(n)[k] == dec_of(n / 10)[k]);
        assert(is_digit(dec_of(n)[dec_of(n).len() - 1]));
    }
}

proof fn lemma_dec_len(n: nat, k: nat)
    requires
        k >= 1,
        n < pow10(k),
    ensures
        dec_of(n).len() <= k,
    decreases n,
{
    if n < 10 {
    } else {
        assert(pow10(k) == 10 * pow10((k - 1) as nat));
        lemma_dec_len(n / 10, (k - 1) as nat);
    }
}

proof fn lemma_pow10_20()
    ensures
        pow10(20) == 100000000000000000000,
{
    assert(pow10(0) == 1);
    assert(pow10(1) == 10);
    assert(pow10(2) == 100);
    assert(pow10(3) == 1000);
    assert(pow10(4) == 10000);
    assert(pow10(5) == 100000);
    assert(pow10(6) == 1000000);
    assert(pow10(7) == 10000000);
    assert(pow10(8) == 100000000);
    assert(pow10(9) == 1000000000);
    assert(pow10(10) == 10000000000);
    assert(pow10(11) == 100000000000);
    assert(pow10(12) == 1000000000000);
    assert(pow10(13) == 10000000000000);
    assert(pow10(14) == 100000000000000);
    assert(pow10(15) == 1000000000000000);
    assert(pow10(16) == 10000000000000000);
    assert(pow10(17) == 100000000000000000);
    assert(pow10(18) == 1000000000000000000);
    assert(pow10(19) == 10000000000000000000);
    assert(pow10(20) == 100000000000000000000);
}

proof fn lemma_digits_end_run(s: Seq<u8>, i: int, e: int)
    requires
        0 <= i <= e <= s.len(),
        forall|m: int| i <= m < e ==> is_digit(#[trigger] s[m]),
        e == s.len() || !is_digit(s[e]),
    ensures
        digits_end(s, i) == e,
    decreases e - i,
{
    if i < e {
        lemma_digits_end_run(s, i + 1, e);
    }
}

proof fn lemma_dec_val(n: nat, s: Seq<u8>, i: int)
    requires
        0 <= i,
        i + dec_of(n).len() <= s.len(),
        s.subrange(i, i + dec_of(n).len()) == dec_of(n),
    ensures
        digits_val(s, i, i + dec_of(n).len()) == n,
    decreases n,
{
    let l = dec_of(n).len();
    if n < 10 {
        assert(s[i] == dec_of(n)[0]) by {
            assert(s.subrange(i, i + 1)[0] == s[i]);
        }
        assert(digits_val(s, i, i + 1) == digits_val(s, i, i) * 10 + (s[i] - 0x30));
    } else {
        let lp = dec_of(n / 10).len();
        assert(dec_of(n) == dec_of(n / 10) + seq![(0x30 + n % 10) as u8]);
        assert(l == lp + 1);
        assert(s.subrange(i, i + lp) =~= dec_of(n / 10)) by {
            assert(forall|k: int|
                0 <= k < lp ==> s.subrange(i, i + l)[k] == #[trigger] s.subrange(i, i + lp)[k]);
        }
        lemma_dec_val(n / 10, s, i);
        assert(s[i + lp] == (0x30 + n % 10) as u8) by {
            assert(s.subrange(i, i + l)[lp as int] == s[i + lp]);
        }
        assert(digits_val(s, i, i + l) == digits_val(s, i, i + lp) * 10 + (s[i + lp] - 0x30));
    }
}

proof fn lemma_dec_parse(n: u64, s: Seq<u8>, i: int)
    requires
        0 <= i,
        i + dec_of(n as nat).len() <= s.len(),
        s.subrange(i, i + dec_of(n as nat).len()) == dec_of(n as nat),
        i + dec_of(n as nat).len() == s.len() || !is_digit(s[i + dec_of(n as nat).len()]),
    ensures
        parse_num(s, i) == Option::<(u64, int)>::Some((n, i + dec_of(n as nat).len())),
{
    let l = dec_of(n as nat).len();
    lemma_dec_digits(n as nat);
    assert forall|m: int| i <= m < i + l implies is_digit(#[trigger] s[m]) by {
        assert(s[m] == s.subrange(i, i + l)[m - i]);
        assert(is_digit(dec_of(n as nat)[m - i]));
    }
    lemma_digits_end_run(s, i, i + l);
    lemma_pow10_20();
    lemma_dec_len(n as nat, 20);
    assert(s[i] == dec_of(n as nat)[0]) by {
        assert(s.subrange(i, i + l)[0] == s[i]);
    }
    if n > 0 {
        assert(s[i] != 0x30);
    } else {
        assert(l == 1);
    }
    lemma_dec_val(n as nat, s, i);
}

proof fn lemma_subrange_split(s: Seq<u8>, i: int, a: Seq<u8>, b: Seq<u8>)
    requires
        0 <= i,
        i + a.len() + b.len() <= s.len(),
        s.subrange(i, i + a.len() + b.len()) == a + b,
    ensures
        s.subrange(i, i + a.len()) == a,
        s.subrange(i + a.len(), i + a.len() + b.len()) == b,
{
    let l = a.len() + b.len();
    assert forall|k: int| 0 <= k < a.len() implies s.subrange(i, i + a.len())[k] == a[k] by {
        assert(s.subrange(i, i + l)[k] == s[i + k]);
        assert(s.subrange(i, i + a.len())[k] == s[i + k]);
        assert((a + b)[k] == a[k]);
    }
    assert(s.subrange(i, i + a.len()) =~= a);
    assert forall|k: int|
        0 <= k < b.len() implies s.subrange(i + a.len(), i + a.len() + b.len())[k] == b[k] by {
        assert(s.subrange(i, i + l)[a.len() + k] == s[i + a.len() + k]);
        assert(s.subrange(i + a.len(), i + a.len() + b.len())[k] == s[i + a.len() + k]);
        assert((a + b)[a.len() + k] == b[k]);
    }
    assert(s.subrange(i + a.len(), i + a.len() + b.len()) =~= b);
}

proof fn lemma_parse_tail(d: DocView, s: Seq<u8>, i4: int)
    requires
        0 <= i4,
        i4 + json_tail(d).len() == s.len(),
        s.subrange(i4, s.len() as int) == json_tail(d),
    ensures
        parse_doc_tail(s, i4, d.id, d.title, d.author, d.content) == Option::Some(d),
{
    let t1 = k_file_type();
    let t2 = t1 + quoted(d.file_type.name_chars());
    let t3 = t2 + k_progress();
    let t4 = t3 + dec_of(d.progress as nat);
    let t5 = t4 + k_last_position();
    let t6 = t5 + dec_of(d.last_position as nat);
    let t7 = t6 + k_last_read();
    let t8 = t7 + opt_quoted(d.last_read);
    let t9 = t8 + k_created_at();
    let t10 = t9 + quoted(d.created_at);
    let t11 = t10 + k_word_count();
    let t12 = t11 + dec_of(d.word_count as nat);
    assert(json_tail(d) == t12 + seq![0x7du8]);
    lemma_subrange_split(s, i4, t12, seq![0x7du8]);
    lemma_subrange_split(s, i4, t11, dec_of(d.word_count as nat));
    lemma_subrange_split(s, i4, t10, k_word_count());
    lemma_subrange_split(s, i4, t9, quoted(d.created_at));
    lemma_subrange_split(s, i4, t8, k_created_at());
    lemma_subrange_split(s, i4, t7, opt_quoted(d.last_read));
    lemma_subrange_split(s, i4, t6, k_last_read());
    lemma_subrange_split(s, i4, t5, dec_of(d.last_position as nat));
    lemma_subrange_split(s, i4, t4, k_last_position());
    lemma_subrange_split(s, i4, t3, dec_of(d.progress as nat));
    lemma_subrange_split(s, i4, t2, k_progress());
    lemma_subrange_split(s, i4, t1, quoted(d.file_type.name_chars()));
    let j4 = i4 + k_file_type().len();
    let i5 = j4 + quoted(d.file_type.name_chars()).len();
    let j5 = i5 + k_progress().len();
    let i6 = j5 + dec_of(d.progress as nat).len();
    let j6 = i6 + k_last_position().len();
    let i7 = j6 + dec_of(d.last_position as nat).len();
    let j7 = i7 + k_last_read().len();
    let i8 = j7 + opt_quoted(d.last_read).len();
    let j8 = i8 + k_created_at().len();
    let i9 = j8 + quoted(d.created_at).len();
    let j9 = i9 + k_word_count().len();
    let i10 = j9 + dec_of(d.word_count as nat).len();
    assert(at_lit(s, i4, k_file_type()));
    lemma_quoted_parse(d.file_type.name_chars(), s, j4);
    assert(ftype_of_chars(d.file_type.name_chars()) == Option::Some(d.file_type));
    assert(at_lit(s, i5, k_progress()));
    assert(s[i6] == 0x2c) by {
        assert(s.subrange(i6, j6)[0] == s[i6]);
    }
    lemma_dec_parse(d.progress as u64, s, j5);
    assert(at_lit(s, i6, k_last_position()));
    assert(s[i7] == 0x2c) by {
        assert(s.subrange(i7, j7)[0] == s[i7]);
    }
    lemma_dec_parse(d.last_position, s, j6);
    assert(at_lit(s, i7, k_last_read()));
    lemma_opt_quoted_parse(d.last_read, s, j7);
    assert(at_lit(s, i8, k_created_at()));
    lemma_quoted_parse(d.created_at, s, j8);
    assert(at_lit(s, i9, k_word_count()));
    assert(s[i10] == 0x7d) by {
        assert(s.subrange(i10, i10 + 1)[0] == s[i10]);
    }
    lemma_dec_parse(d.word_count, s, j9);
    assert(at_lit(s, i10, seq![0x7du8]));
    assert(parse_doc_tail(s, i4, d.id, d.title, d.author, d.content) == Option::Some(
        DocView {
            id: d.id,
            title: d.title,
            author: d.author,
            content: d.content,
            file_type: d.file_type,
            progress: (d.progress as u64) as u32,
            last_position: d.last_position,
            last_read: d.last_read,
            created_at: d.created_at,
            word_count: d.word_count,
        },
    ));
    assert(DocView {
        id: d.id,
        title: d.title,
        author: d.author,
        content: d.content,
        file_type: d.file_type,
        progress: (d.progress as u64) as u32,
        last_position: d.last_position,
        last_read: d.last_read,
        created_at: d.created_at,
        word_count: d.word_count,
    } =~= d);
}

proof fn lemma_parse_head(d: DocView, s: Seq<u8>)
    requires
        json_head(d).len() <= s.len(),
        s.subrange(0, json_head(d).len() as int) == json_head(d),
    ensures
        at_lit(s, 0, k_id()),
        parse_quoted(s, k_id().len() as int) == Option::<(Seq<char>, int)>::Some(
            (d.id, (k_id().len() + quoted(d.id).len()) as int),
        ),
        ({
            let i1 = (k_id().len() + quoted(d.id).len()) as int;
            at_lit(s, i1, k_title()) && parse_quoted(s, i1 + k_title().len())
                == Option::<(Seq<char>, int)>::Some(
                (d.title, i1 + k_title().len() + quoted(d.title).len()),
            )
        }),
        ({
            let i2 = (k_id().len() + quoted(d.id).len() + k_title().len() + quoted(
                d.title,
            ).len()) as int;
            at_lit(s, i2, k_author()) && parse_opt_quoted(s, i2 + k_author().len())
                == Option::<(Option<Seq<char>>, int)>::Some(
                (d.author, i2 + k_author().len() + opt_quoted(d.author).len()),
            )
        }),
        ({
            let i3 = (k_id().len() + quoted(d.id).len() + k_title().len() + quoted(d.title).len()
                + k_author().len() + opt_quoted(d.author).len()) as int;
            at_lit(s, i3, k_content()) && parse_quoted(s, i3 + k_content().len())
                == Option::<(Seq<char>, int)>::Some(
                (d.content, i3 + k_content().len() + quoted(d.content).len()),
            )
        }),
{
    let h1 = k_id();
    let h2 = h1 + quoted(d.id);
    let h3 = h2 + k_title();
    let h4 = h3 + quoted(d.title);
    let h5 = h4 + k_author();
    let h6 = h5 + opt_quoted(d.author);
    let h7 = h6 + k_content();
    assert(json_head(d) == h7 + quoted(d.content));
    lemma_subrange_split(s, 0, h7, quoted(d.content));
    lemma_subrange_split(s, 0, h6, k_content());
    lemma_subrange_split(s, 0, h5, opt_quoted(d.author));
    lemma_subrange_split(s, 0, h4, k_author());
    lemma_subrange_split(s, 0, h3, quoted(d.title));
    lemma_subrange_split(s, 0, h2, k_title());
    lemma_subrange_split(s, 0, h1, quoted(d.id));
    let j0 = k_id().len() as int;
    let i1 = j0 + quoted(d.id).len();
    let j1 = i1 + k_title().len();
    let i2 = j1 + quoted(d.title).len();
    let j2 = i2 + k_author().len();
    let i3 = j2 + opt_quoted(d.author).len();
    let j3 = i3 + k_content().len();
    assert(at_lit(s, 0, k_id()));
    lemma_quoted_parse(d.id, s, j0);
    assert(at_lit(s, i1, k_title()));
    lemma_quoted_parse(d.title, s, j1);
    assert(at_lit(s, i2, k_author()));
    lemma_opt_quoted_parse(d.author, s, j2);
    assert(at_lit(s, i3, k_content()));
    lemma_quoted_parse(d.content, s, j3);
}

/// Round trip: parsing the canonical encoding of any document yields
/// exactly that document.
pub proof fn lemma_parse_doc_round_trip(d: DocView)
    ensures
        parse_doc(json_of(d)) == Option::Some(d),
{
    let s = json_of(d);
    assert(s.subrange(0, s.len() as int) =~= s);
    lemma_subrange_split(s, 0, json_head(d), json_tail(d));
    lemma_parse_head(d, s);
    let i4 = json_head(d).len() as int;
    lemma_parse_tail(d, s, i4);
}

} // verus!
