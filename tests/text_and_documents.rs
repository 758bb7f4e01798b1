use rag_core::document::{
    content_hash, docx_text_of_entry, extract_pdf_text, extract_text_from_docx_xml, extract_text_from_pdf_bytes,
    hex_lower, parse_word_bytes, read_kind, DocumentFormat, ReadKind, ZipEntry, DOCX_UNREADABLE, PDF_UNAVAILABLE,
    SPREADSHEET_UNSUPPORTED,
};
use rag_core::keyword::{fts_query, like_pattern};
use rag_core::splitter::split_text;
use rag_core::text::{clean_text, estimate_tokens, preview};
use rag_core::types::KnowledgeBaseError;
use std::io::Write;

fn docx_bytes(entries: &[(&str, &str)]) -> Vec<u8> {
    let mut buf = std::io::Cursor::new(Vec::new());
    {
        let mut w = zip::ZipWriter::new(&mut buf);
        for (name, body) in entries {
            w.start_file(*name, zip::write::SimpleFileOptions::default()).unwrap();
            w.write_all(body.as_bytes()).unwrap();
        }
        w.finish().unwrap();
    }
    buf.into_inner()
}

#[test]
fn clean_text_trims_lines_and_drops_empty_ones() {
    assert_eq!(clean_text("  a  \n\n\n\n b\r\n\t\n c"), "a\nb\nc");
    assert_eq!(clean_text(""), "");
    assert_eq!(clean_text(" \n \u{3000}\n"), "");
}

#[test]
fn split_text_empty_gives_no_chunks() {
    assert!(split_text("", 10, 2).is_empty());
}

#[test]
fn split_text_packs_paragraphs_with_overlap() {
    let chunks = split_text("aaaa\n\nbbbb\n\ncccc", 10, 2);
    assert_eq!(chunks, vec!["aaaa\n\nbbbb".to_string(), "bb\n\ncccc".to_string()]);
}

#[test]
fn split_text_resplits_long_chunks_on_periods() {
    let chunks = split_text("aaa. bbb. ccc.", 5, 1);
    assert_eq!(chunks, vec!["aaa.".to_string(), " bbb.".to_string(), " ccc..".to_string()]);
}

#[test]
fn split_text_hard_split_windows_reassemble() {
    let text = "x".repeat(50);
    let chunks = split_text(&text, 10, 2);
    let lens: Vec<usize> = chunks.iter().map(|c| c.chars().count()).collect();
    assert_eq!(lens, vec![10, 10, 10, 10, 10, 10, 3]);
    let mut joined = chunks[0].clone();
    for c in &chunks[1..] {
        joined.push_str(&c.chars().skip(2).collect::<String>());
    }
    assert_eq!(joined, format!("{}.", text));
}

#[test]
fn split_text_counts_characters_not_bytes() {
    let text = "é".repeat(12);
    let chunks = split_text(&text, 5, 1);
    let lens: Vec<usize> = chunks.iter().map(|c| c.chars().count()).collect();
    assert_eq!(lens, vec![5, 5, 5]);
    let long = "é".repeat(30);
    let parts = split_text(&long, 5, 1);
    assert!(parts.iter().all(|p| p.chars().count() <= 5));
}

#[test]
fn estimate_tokens_uses_characters() {
    assert_eq!(estimate_tokens("abcdefg"), 2);
    assert_eq!(estimate_tokens("日本語"), 1);
    assert_eq!(estimate_tokens(""), 0);
}

#[test]
fn preview_takes_first_characters() {
    assert_eq!(preview("héllo", 3), "hél");
    assert_eq!(preview("hi", 500), "hi");
    let long = "z".repeat(600);
    assert_eq!(preview(&long, 500).chars().count(), 500);
}

#[test]
fn formats_from_extensions() {
    assert_eq!(DocumentFormat::from_extension("PDF"), Some(DocumentFormat::Pdf));
    assert_eq!(DocumentFormat::from_extension("Docx"), Some(DocumentFormat::Word));
    assert_eq!(DocumentFormat::from_extension("doc"), Some(DocumentFormat::Word));
    assert_eq!(DocumentFormat::from_extension("csv"), Some(DocumentFormat::Excel));
    assert_eq!(DocumentFormat::from_extension("markdown"), Some(DocumentFormat::Markdown));
    assert_eq!(DocumentFormat::from_extension("HTM"), Some(DocumentFormat::Html));
    assert_eq!(DocumentFormat::from_extension("rs"), Some(DocumentFormat::Txt));
    assert_eq!(DocumentFormat::from_extension("exe"), None);
    assert_eq!(DocumentFormat::from_extension(""), None);
    assert_eq!(DocumentFormat::Word.as_str(), "docx");
    assert_eq!(DocumentFormat::Excel.as_str(), "xlsx");
    assert_eq!(DocumentFormat::Markdown.as_str(), "md");
}

#[test]
fn read_kinds_and_refusals() {
    assert_eq!(read_kind("pdf").unwrap(), ReadKind::Pdf);
    assert_eq!(read_kind("DOCX").unwrap(), ReadKind::Docx);
    assert_eq!(read_kind("CSV").unwrap(), ReadKind::Text);
    assert_eq!(read_kind("md").unwrap(), ReadKind::Text);
    match read_kind("xlsx") {
        Err(KnowledgeBaseError::DocumentParseError(m)) => assert_eq!(m, SPREADSHEET_UNSUPPORTED),
        other => panic!("{:?}", other),
    }
    match read_kind("exe") {
        Err(KnowledgeBaseError::DocumentParseError(m)) => assert_eq!(m, "Unsupported format: exe"),
        other => panic!("{:?}", other),
    }
}

#[test]
fn docx_xml_text_runs() {
    let xml = "<w:p><w:r><w:t>Hello</w:t></w:r><w:r><w:t xml:space=\"preserve\"> world</w:t></w:r><w:r><w:tab/></w:r></w:p>";
    assert_eq!(extract_text_from_docx_xml(xml), "Hello world\t");
    assert_eq!(extract_text_from_docx_xml("no tags"), "");
    let tabbed = "<w:p><w:r><w:t>Hello</w:t></w:r><w:r><w:tab/><w:t xml:space=\"preserve\">World</w:t></w:r></w:p>";
    assert_eq!(extract_text_from_docx_xml(tabbed), "Hello\tWorld");
    let broken = "<w:r><w:t>one</w:t><w:br/><w:t>two</w:t></w:r>";
    assert_eq!(extract_text_from_docx_xml(broken), "one\ntwo");
}

#[test]
fn docx_archive_reading() {
    let bytes = docx_bytes(&[("word/document.xml", "<w:body><w:t>Hi</w:t><w:t>!</w:t></w:body>")]);
    assert_eq!(parse_word_bytes(&bytes).unwrap(), "Hi!");
    let other = docx_bytes(&[("other.xml", "<w:t>x</w:t>")]);
    assert_eq!(parse_word_bytes(&other).unwrap(), "");
    match parse_word_bytes(b"not a zip") {
        Err(KnowledgeBaseError::DocumentParseError(m)) => assert_eq!(m, DOCX_UNREADABLE),
        other => panic!("{:?}", other),
    }
    match docx_text_of_entry(ZipEntry::Unreadable("bad".to_string())) {
        Err(KnowledgeBaseError::DocumentParseError(m)) => assert_eq!(m, "bad"),
        other => panic!("{:?}", other),
    }
}

#[test]
fn pdf_literal_text() {
    assert_eq!(extract_text_from_pdf_bytes(b"BT (Hello) Tj ET\r\n(World)\nno parens\n").unwrap(), "Hello World ");
    assert_eq!(extract_pdf_text("(a)(b)\n").unwrap(), "ab ");
    match extract_text_from_pdf_bytes(b"nothing here\n()\n") {
        Err(KnowledgeBaseError::DocumentParseError(m)) => assert_eq!(m, PDF_UNAVAILABLE),
        other => panic!("{:?}", other),
    }
    assert_eq!(extract_text_from_pdf_bytes(&[b'(', 0xff, b'x', b')']).unwrap(), "\u{fffd}x ");
}

#[test]
fn content_hash_is_sha256_hex() {
    assert_eq!(content_hash(b"abc"), "ba7816bf8f01cfea414140de5dae2223b00361a396177a9cb410ff61f20015ad");
    assert_eq!(hex_lower(&[0, 255, 16]), "00ff10");
}

#[test]
fn keyword_queries() {
    assert_eq!(fts_query("  alpha \t beta "), "alpha OR beta");
    assert_eq!(like_pattern("alpha beta"), "%alpha%beta%");
    assert_eq!(like_pattern("   "), "%%");
    assert_eq!(fts_query(""), "");
}

#[test]
fn error_messages() {
    assert_eq!(KnowledgeBaseError::DatabaseError("x".into()).message(), "Database error: x");
    assert_eq!(KnowledgeBaseError::EmbeddingError("x".into()).message(), "Embedding error: x");
    assert_eq!(KnowledgeBaseError::DocumentParseError("x".into()).message(), "Document parse error: x");
    assert_eq!(KnowledgeBaseError::RetrievalError("x".into()).message(), "Retrieval error: x");
    assert_eq!(KnowledgeBaseError::NotFound("x".into()).message(), "Knowledge base not found: x");
    assert_eq!(KnowledgeBaseError::InvalidConfig("x".into()).message(), "Invalid configuration: x");
}

#[test]
fn packed_chunks_reassemble_without_carried_overlap() {
    let text = "aaaa\n\nbbbb\n\ncccc\n\ndd";
    let chunks = split_text(text, 10, 2);
    assert_eq!(chunks, vec!["aaaa\n\nbbbb".to_string(), "bb\n\ncccc\n\ndd".to_string()]);
    let carried = format!("{}\n\n", &chunks[0][chunks[0].len() - 2..]);
    assert!(chunks[1].starts_with(&carried));
    let rebuilt = format!("{}\n\n{}", chunks[0], &chunks[1][carried.len()..]);
    assert_eq!(rebuilt, text);
}

#[test]
fn valid_utf8_and_ascii_case() {
    assert_eq!(extract_text_from_pdf_bytes("(héllo wörld)\n".as_bytes()).unwrap(), "héllo wörld ");
    assert_eq!(DocumentFormat::from_extension("HTML"), Some(DocumentFormat::Html));
    assert_eq!(DocumentFormat::from_extension("TxT"), Some(DocumentFormat::Txt));
}
