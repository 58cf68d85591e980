use nabu::parser::{classify, extract_title, parse_file, ParseError};
use nabu::state::{Document, FileType};

fn pdf_head() -> Vec<u8> {
    vec![0x25, 0x50, 0x44, 0x46, 0x2d, 0x31, 0x2e, 0x37]
}

fn docx_head() -> Vec<u8> {
    vec![0x50, 0x4b, 0x03, 0x04, 0x14, 0x00, 0x00, 0x00]
}

#[test]
fn minimal_fixtures_ingest_cleanly() {
    // Empty and one-byte fixtures for every supported type, with the
    // magic bytes the binary formats require.
    assert!(parse_file("a.txt", 0, &vec![], "").is_ok());
    assert!(parse_file("a.txt", 1, &vec![0x78], "x").is_ok());
    assert!(parse_file("a.md", 0, &vec![], "").is_ok());
    assert!(parse_file("a.md", 1, &vec![0x78], "x").is_ok());
    assert!(parse_file("a.pdf", 4, &pdf_head(), "").is_ok());
    assert!(parse_file("a.docx", 4, &docx_head(), "").is_ok());
}

#[test]
fn magic_bytes_rejected_on_mismatch() {
    let r = parse_file("x.pdf", 10, &vec![0x00, 0x01, 0x02, 0x03, 0x04], "text");
    assert!(matches!(r, Err(ParseError::InvalidFormat)));
    let r = classify("x.pdf", 10, &vec![0x41, 0x42, 0x43, 0x44]);
    assert!(matches!(r, Err(ParseError::InvalidFormat)));
    let r = classify("x.docx", 10, &vec![0x50, 0x4b, 0x05, 0x06]);
    assert!(matches!(r, Err(ParseError::InvalidFormat)));
    // Too short to hold its magic number.
    let r = classify("x.pdf", 2, &vec![0x25, 0x50]);
    assert!(matches!(r, Err(ParseError::InvalidFormat)));
}

#[test]
fn magic_bytes_accepted_with_arbitrary_tail() {
    let mut head = pdf_head();
    head[4] = 0xff;
    assert!(matches!(classify("x.pdf", 100, &head), Ok(FileType::Pdf)));
    let r = parse_file("x.pdf", 100, &head, "extracted text");
    assert!(r.is_ok());
}

#[test]
fn classify_is_case_insensitive() {
    assert!(matches!(classify("A.TXT", 1, &vec![]), Ok(FileType::Txt)));
    assert!(matches!(classify("b.Markdown", 1, &vec![]), Ok(FileType::Md)));
    assert!(matches!(classify("c.MD", 1, &vec![]), Ok(FileType::Md)));
}

#[test]
fn classify_rejects_unknown_and_oversized() {
    match classify("archive.zip", 1, &vec![]) {
        Err(ParseError::UnsupportedType(ext)) => assert_eq!(ext, "zip"),
        _ => panic!("expected UnsupportedType"),
    }
    match classify("noext", 1, &vec![]) {
        Err(ParseError::UnsupportedType(ext)) => assert_eq!(ext, "noext"),
        _ => panic!("expected UnsupportedType"),
    }
    let r = classify("big.txt", 50 * 1024 * 1024 + 1, &vec![]);
    assert!(matches!(r, Err(ParseError::FileTooLarge)));
    // Exactly at the ceiling is accepted.
    assert!(classify("big.txt", 50 * 1024 * 1024, &vec![]).is_ok());
}

#[test]
fn title_extraction() {
    assert_eq!(extract_title("notes.v2.txt"), "notes.v2");
    assert_eq!(extract_title("/a/b/report.md"), "report");
    assert_eq!(extract_title("plain"), "");
    assert_eq!(extract_title("c:\\docs\\file.pdf"), "file");
}

#[test]
fn markdown_extraction_excludes_code() {
    let md = "# Title\n\nSome *text* here.\n```\ncode\n```";
    let doc = parse_file("t.md", md.len() as u64, &vec![], md).unwrap();
    assert!(doc.content.contains("Title"));
    assert!(doc.content.contains("text"));
    assert!(doc.content.contains("here."));
    assert!(!doc.content.contains("code"));
}

#[test]
fn sanitizer_strips_script() {
    let raw = "<script>alert('x')</script>hello <b>world</b>";
    let doc = parse_file("t.txt", raw.len() as u64, &vec![], raw).unwrap();
    assert!(!doc.content.contains("<script>"));
    assert!(!doc.content.contains("alert"));
    assert!(doc.content.contains("hello"));
}

#[test]
fn document_new_derives_fields() {
    let doc = Document::new("t".to_string(), "a b  c\n d".to_string(), FileType::Txt);
    assert_eq!(doc.word_count, 4);
    assert_eq!(doc.progress, 0);
    assert_eq!(doc.last_position, 0);
    assert!(doc.author.is_none());
    assert!(doc.last_read.is_none());
    assert_eq!(doc.id.len(), 36);
    let b = doc.id.as_bytes();
    assert_eq!(b[8], b'-');
    assert_eq!(b[13], b'-');
    assert_eq!(b[18], b'-');
    assert_eq!(b[23], b'-');
}

#[test]
fn fresh_identifiers_differ() {
    let a = Document::new("t".to_string(), "x".to_string(), FileType::Txt);
    let b = Document::new("t".to_string(), "x".to_string(), FileType::Txt);
    assert_ne!(a.id, b.id);
}

#[test]
fn words_splits_on_whitespace_runs() {
    let doc = Document::new("t".to_string(), "  one two\t\tthree  ".to_string(), FileType::Txt);
    let words = doc.words();
    assert_eq!(words, vec!["one".to_string(), "two".to_string(), "three".to_string()]);
    assert_eq!(doc.word_count, 3);
}

#[test]
fn error_messages_read_as_reported() {
    assert_eq!(ParseError::FileTooLarge.message(), "File too large (max 50MB)");
    assert_eq!(
        ParseError::UnsupportedType("zip".to_string()).message(),
        "Unsupported file type: zip"
    );
    assert_eq!(ParseError::InvalidFormat.message(), "Invalid file format");
    assert_eq!(
        ParseError::ReadError("boom".to_string()).message(),
        "Failed to read file: boom"
    );
    assert_eq!(
        ParseError::ParseError("boom".to_string()).message(),
        "Failed to parse file: boom"
    );
}
