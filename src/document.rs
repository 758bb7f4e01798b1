//! Document formats and text extraction.
use sha2::Digest;
use vstd::prelude::*;
use vstd::string::StrSliceExecFns;
use vstd::utf8::{decode_utf8, valid_utf8};

use crate::chars::{from_chars, same_chars, to_chars};
use crate::text::{contains_char, lines_chars, lines_of, append_chars, find, find_chars, replace, replace_chars, split_chars, split_seq, sub_chars, views};
use crate::types::KnowledgeBaseError;

verus! {

/// What `str::to_lowercase` gives for `s`.
pub uninterp spec fn lower_of(s: Seq<char>) -> Seq<char>;

/// Relies on `str::to_lowercase`: the result depends on the characters alone, an
/// empty string stays empty, and ASCII text is lowered letter by letter.
#[verifier::external_body]
fn lowercase(s: &str) -> (r: String)
    ensures
        r@ == lower_of(s@),
        s@.len() == 0 ==> r@.len() == 0,
        (forall|i: int| 0 <= i < s@.len() ==> (s@[i] as u32) < 128) ==> r@.len() == s@.len() && forall|i: int|
            0 <= i < s@.len() ==> (#[trigger] r@[i]) as u32 == ascii_fold(s@[i]),
{
    s.to_lowercase()
}

/// The document formats that can be ingested.
#[derive(Debug, Clone, Copy, PartialEq, Eq, Structural)]
pub enum DocumentFormat {
    Pdf,
    Word,
    Excel,
    Markdown,
    Html,
    Txt,
}

/// The format named by an extension already in lower case.
pub open spec fn format_of(ext: Seq<char>) -> Option<DocumentFormat> {
    if ext == "pdf"@ {
        Some(DocumentFormat::Pdf)
    } else if ext == "docx"@ || ext == "doc"@ {
        Some(DocumentFormat::Word)
    } else if ext == "xlsx"@ || ext == "xls"@ || ext == "csv"@ {
        Some(DocumentFormat::Excel)
    } else if ext == "md"@ || ext == "markdown"@ {
        Some(DocumentFormat::Markdown)
    } else if ext == "html"@ || ext == "htm"@ {
        Some(DocumentFormat::Html)
    } else if ext == "txt"@ || ext == "text"@ || ext == "rs"@ || ext == "js"@ || ext == "ts"@
        || ext == "py"@ || ext == "java"@ || ext == "c"@ || ext == "cpp"@ || ext == "h"@ || ext
        == "go"@ {
        Some(DocumentFormat::Txt)
    } else {
        None
    }
}

/// The format named by a lower-case extension.
pub fn format_from_lowered(ext: &str) -> (r: Option<DocumentFormat>)
    ensures
        r == format_of(ext@),
{
    if same_chars(ext, "pdf") {
        Some(DocumentFormat::Pdf)
    } else if same_chars(ext, "docx") || same_chars(ext, "doc") {
        Some(DocumentFormat::Word)
    } else if same_chars(ext, "xlsx") || same_chars(ext, "xls") || same_chars(ext, "csv") {
        Some(DocumentFormat::Excel)
    } else if same_chars(ext, "md") || same_chars(ext, "markdown") {
        Some(DocumentFormat::Markdown)
    } else if same_chars(ext, "html") || same_chars(ext, "htm") {
        Some(DocumentFormat::Html)
    } else if same_chars(ext, "txt") || same_chars(ext, "text") || same_chars(ext, "rs")
        || same_chars(ext, "js") || same_chars(ext, "ts") || same_chars(ext, "py") || same_chars(
        ext,
        "java",
    ) || same_chars(ext, "c") || same_chars(ext, "cpp") || same_chars(ext, "h") || same_chars(
        ext,
        "go",
    ) {
        Some(DocumentFormat::Txt)
    } else {
        None
    }
}

impl DocumentFormat {
    /// The format of a file extension, compared in lower case.
    pub fn from_extension(ext: &str) -> (r: Option<DocumentFormat>)
        ensures
            r == format_of(lower_of(ext@)),
    {
        let lowered = lowercase(ext);
        format_from_lowered(lowered.as_str())
    }

    /// The file type recorded for a document of this format.
    pub fn as_str(&self) -> (r: &'static str)
        ensures
            r@ == self.name_spec(),
    {
        match self {
            DocumentFormat::Pdf => "pdf",
            DocumentFormat::Word => "docx",
            DocumentFormat::Excel => "xlsx",
            DocumentFormat::Markdown => "md",
            DocumentFormat::Html => "html",
            DocumentFormat::Txt => "txt",
        }
    }

    pub open spec fn name_spec(&self) -> Seq<char> {
        match self {
            DocumentFormat::Pdf => "pdf"@,
            DocumentFormat::Word => "docx"@,
            DocumentFormat::Excel => "xlsx"@,
            DocumentFormat::Markdown => "md"@,
            DocumentFormat::Html => "html"@,
            DocumentFormat::Txt => "txt"@,
        }
    }
}

/// The text of one piece of `word/document.xml` that follows a `<w:t` tag: what
/// lies between the end of the tag and the closing `</w:t>`.
pub open spec fn node_text(piece: Seq<char>) -> Seq<char> {
    let end = find(piece, "</w:t>"@);
    let start = find(piece, seq!['>']);
    if end is Some && start is Some && start->0 < end->0 {
        piece.subrange(start->0 + 1, end->0)
    } else {
        Seq::empty()
    }
}

/// The texts of all pieces, in order.
pub open spec fn node_texts(pieces: Seq<Seq<char>>) -> Seq<char>
    decreases pieces.len(),
{
    if pieces.len() == 0 {
        Seq::empty()
    } else {
        node_texts(pieces.drop_last()) + node_text(pieces.last())
    }
}

/// The body with each tab marker `<w:tab/>` and each break marker `<w:br/>` written
/// as a text run holding `\t` or `\n`, so that they keep their place among the runs.
pub open spec fn markers_as_runs(xml: Seq<char>) -> Seq<char> {
    replace(
        replace(xml, "<w:tab/>"@, "<w:t>\t</w:t>"@),
        "<w:br/>"@,
        "<w:t>\n</w:t>"@,
    )
}

/// The text of a DOCX body: its text runs concatenated in document order, each tab
/// marker giving `\t` and each break marker `\n` where it stands.
pub open spec fn docx_text(xml: Seq<char>) -> Seq<char> {
    node_texts(split_seq(markers_as_runs(xml), "<w:t"@))
}

/// Extracts the text runs of `word/document.xml`.
pub fn extract_text_from_docx_xml(xml: &str) -> (r: String)
    ensures
        r@ == docx_text(xml@),
{
    let raw = to_chars(xml);
    let tab_tag = to_chars("<w:tab/>");
    let br_tag = to_chars("<w:br/>");
    let tab_run = to_chars("<w:t>\t</w:t>");
    let br_run = to_chars("<w:t>\n</w:t>");
    proof {
        reveal_strlit("<w:tab/>");
        reveal_strlit("<w:br/>");
    }
    let step = replace_chars(&raw, &tab_tag, &tab_run);
    let cs = replace_chars(&step, &br_tag, &br_run);
    let open_tag = to_chars("<w:t");
    let close_tag = to_chars("</w:t>");
    let gt = to_chars(">");
    proof { reveal_strlit("<w:t"); reveal_strlit(">"); assert(gt@ =~= seq!['>']); }
    let pieces = split_chars(&cs, &open_tag);
    let mut out: Vec<char> = Vec::new();
    let mut i: usize = 0;
    while i < pieces.len()
        invariant
            i <= pieces.len(),
            gt@ == seq!['>'],
            close_tag@ == "</w:t>"@,
            out@ == node_texts(views(pieces@).take(i as int)),
        decreases pieces.len() - i,
    {
        proof {
            assert(views(pieces@).take(i as int + 1).drop_last() =~= views(pieces@).take(i as int));
            assert(views(pieces@).take(i as int + 1).last() == pieces@[i as int]@);
        }
        let piece = &pieces[i];
        let end = find_chars(piece, &close_tag);
        let start = find_chars(piece, &gt);
        match (start, end) {
            (Some(a), Some(b)) => {
                if a < b {
                    let t = sub_chars(piece, a + 1, b);
                    append_chars(&mut out, &t);
                } else {
                    proof { assert(out@ =~= out@ + node_text(piece@)); }
                }
            },
            _ => {
                proof { assert(out@ =~= out@ + node_text(piece@)); }
            },
        }
        i += 1;
    }
    proof { assert(views(pieces@).take(pieces.len() as int) =~= views(pieces@)); }
    from_chars(&out)
}

/// What `String::from_utf8_lossy` gives for `b`.
pub uninterp spec fn utf8_lossy_of(b: Seq<u8>) -> Seq<char>;

/// Relies on `String::from_utf8_lossy`: the bytes decoded as UTF-8, each invalid
/// sequence replaced; the result depends on the bytes alone, and valid UTF-8 decodes
/// to its own characters.
#[verifier::external_body]
pub(crate) fn decode_lossy(b: &[u8]) -> (r: String)
    ensures
        r@ == utf8_lossy_of(b@),
        b@.len() == 0 ==> r@.len() == 0,
        valid_utf8(b@) ==> r@ == decode_utf8(b@),
{
    String::from_utf8_lossy(b).into_owned()
}

/// Scanning `s`: whether a parenthesis is open, and the characters seen inside one.
pub open spec fn paren_state(s: Seq<char>) -> (bool, Seq<char>)
    decreases s.len(),
{
    if s.len() == 0 {
        (false, Seq::empty())
    } else {
        let p = paren_state(s.drop_last());
        let c = s.last();
        if c == '(' {
            (true, p.1)
        } else if c == ')' {
            (false, p.1)
        } else if p.0 {
            (true, p.1.push(c))
        } else {
            p
        }
    }
}

/// What one line of a PDF stream gives: its parenthesised text and a space, when
/// the line has both parentheses and some text inside them.
pub open spec fn line_text(l: Seq<char>) -> Seq<char> {
    if l.contains('(') && l.contains(')') && paren_state(l).1.len() > 0 {
        paren_state(l).1.push(' ')
    } else {
        Seq::empty()
    }
}

/// What all the lines give.
pub open spec fn lines_text(ls: Seq<Seq<char>>) -> Seq<char>
    decreases ls.len(),
{
    if ls.len() == 0 {
        Seq::empty()
    } else {
        lines_text(ls.drop_last()) + line_text(ls.last())
    }
}

/// The text literals of a PDF stream, read line by line.
pub open spec fn pdf_text(content: Seq<char>) -> Seq<char> {
    lines_text(lines_of(content))
}

pub const PDF_UNAVAILABLE: &'static str = "PDF parsing not available. Please install pdftotext or use text files.";

fn line_text_exec(l: &Vec<char>) -> (r: Vec<char>)
    ensures
        r@ == line_text(l@),
{
    if !(contains_char(l, '(') && contains_char(l, ')')) {
        return Vec::new();
    }
    let mut inside = false;
    let mut t: Vec<char> = Vec::new();
    let mut i: usize = 0;
    while i < l.len()
        invariant
            i <= l.len(),
            (inside, t@) == paren_state(l@.take(i as int)),
        decreases l.len() - i,
    {
        proof { assert(l@.take(i as int + 1).drop_last() =~= l@.take(i as int)); }
        let c = l[i];
        if c == '(' {
            inside = true;
        } else if c == ')' {
            inside = false;
        } else if inside {
            t.push(c);
        }
        i += 1;
    }
    proof { assert(l@.take(l.len() as int) =~= l@); }
    if t.len() > 0 {
        t.push(' ');
        t
    } else {
        Vec::new()
    }
}

/// The text literals of a decoded PDF stream: for each line with parentheses, the
/// characters inside them followed by a space. Fails where there are none.
pub fn extract_pdf_text(content: &str) -> (r: Result<String, KnowledgeBaseError>)
    ensures
        pdf_text(content@).len() > 0 ==> (r matches Ok(t) && t@ == pdf_text(content@)),
        pdf_text(content@).len() == 0 ==> (r matches Err(KnowledgeBaseError::DocumentParseError(m))
            && m@ == PDF_UNAVAILABLE@),
{
    let cs = to_chars(content);
    let lines = lines_chars(&cs);
    let mut out: Vec<char> = Vec::new();
    let mut i: usize = 0;
    while i < lines.len()
        invariant
            i <= lines.len(),
            views(lines@) == lines_of(content@),
            out@ == lines_text(views(lines@).take(i as int)),
        decreases lines.len() - i,
    {
        proof {
            assert(views(lines@).take(i as int + 1).drop_last() =~= views(lines@).take(i as int));
            assert(views(lines@).take(i as int + 1).last() == lines@[i as int]@);
        }
        let t = line_text_exec(&lines[i]);
        append_chars(&mut out, &t);
        i += 1;
    }
    proof { assert(views(lines@).take(lines.len() as int) =~= views(lines@)); }
    if out.len() == 0 {
        return Err(KnowledgeBaseError::DocumentParseError(PDF_UNAVAILABLE.to_owned()));
    }
    Ok(from_chars(&out))
}

/// The text literals of raw PDF bytes, decoded leniently as UTF-8.
pub fn extract_text_from_pdf_bytes(bytes: &[u8]) -> (r: Result<String, KnowledgeBaseError>)
    ensures
        pdf_text(utf8_lossy_of(bytes@)).len() > 0 ==> (r matches Ok(t) && t@ == pdf_text(
            utf8_lossy_of(bytes@),
        )),
        pdf_text(utf8_lossy_of(bytes@)).len() == 0 ==> (r matches Err(
            KnowledgeBaseError::DocumentParseError(m),
        ) && m@ == PDF_UNAVAILABLE@),
{
    let content = decode_lossy(bytes);
    extract_pdf_text(content.as_str())
}

/// The SHA-256 digest of `b`.
pub uninterp spec fn sha256_of(b: Seq<u8>) -> Seq<u8>;

/// Relies on `sha2::Sha256::digest`: the 32-byte SHA-256 digest of the bytes.
#[verifier::external_body]
fn sha256(b: &[u8]) -> (r: Vec<u8>)
    ensures
        r@ == sha256_of(b@),
        r@.len() == 32,
{
    sha2::Sha256::digest(b).to_vec()
}

/// The lower-case hexadecimal digit of `n`.
pub open spec fn hex_digit(n: u8) -> char {
    "0123456789abcdef"@[n as int]
}

/// Two lower-case hexadecimal digits for each byte.
pub open spec fn hex_of(b: Seq<u8>) -> Seq<char>
    decreases b.len(),
{
    if b.len() == 0 {
        Seq::empty()
    } else {
        hex_of(b.drop_last()) + seq![hex_digit(b.last() / 16), hex_digit(b.last() % 16)]
    }
}

/// Lower-case hexadecimal text of `b`.
pub fn hex_lower(b: &[u8]) -> (r: String)
    ensures
        r@ == hex_of(b@),
{
    let digits = "0123456789abcdef";
    proof { reveal_strlit("0123456789abcdef"); }
    let mut out: Vec<char> = Vec::new();
    let mut i: usize = 0;
    while i < b.len()
        invariant
            i <= b.len(),
            digits@ == "0123456789abcdef"@,
            digits@.len() == 16,
            out@ == hex_of(b@.take(i as int)),
        decreases b.len() - i,
    {
        proof { assert(b@.take(i as int + 1).drop_last() =~= b@.take(i as int)); }
        let x = b[i];
        out.push(digits.get_char((x / 16) as usize));
        out.push(digits.get_char((x % 16) as usize));
        proof { assert(out@ =~= hex_of(b@.take(i as int + 1))); }
        i += 1;
    }
    proof { assert(b@.take(b.len() as int) =~= b@); }
    from_chars(&out)
}

/// The content hash recorded for a file: its SHA-256 digest in lower-case hex.
pub fn content_hash(bytes: &[u8]) -> (r: String)
    ensures
        r@ == hex_of(sha256_of(bytes@)),
{
    let d = sha256(bytes);
    hex_lower(d.as_slice())
}

/// What reading one entry of a ZIP archive gave.
#[derive(Debug, Clone, PartialEq, Eq)]
pub enum ZipEntry {
    NotArchive,
    Missing,
    Unreadable(String),
    Text(String),
}

/// The text of the entry `name` of the ZIP archive `archive`, when the archive opens
/// and the entry is there and reads as UTF-8.
pub uninterp spec fn zip_entry_text_of(archive: Seq<u8>, name: Seq<char>) -> Option<Seq<char>>;

/// Relies on `zip::ZipArchive::new` and `ZipArchive::by_name`, read through
/// `std::io::Read::read_to_string`: the entry's text when all three succeed.
#[verifier::external_body]
fn read_zip_entry(bytes: &[u8], name: &str) -> (r: ZipEntry)
    ensures
        (r is Text) <==> zip_entry_text_of(bytes@, name@) is Some,
        r matches ZipEntry::Text(t) ==> zip_entry_text_of(bytes@, name@) == Some(t@),
{
    let mut archive = match zip::ZipArchive::new(std::io::Cursor::new(bytes)) {
        Ok(a) => a,
        Err(_) => return ZipEntry::NotArchive,
    };
    let mut file = match archive.by_name(name) {
        Ok(f) => f,
        Err(_) => return ZipEntry::Missing,
    };
    let mut text = String::new();
    match std::io::Read::read_to_string(&mut file, &mut text) {
        Ok(_) => ZipEntry::Text(text),
        Err(e) => ZipEntry::Unreadable(e.to_string()),
    }
}

pub const DOCX_UNREADABLE: &'static str = "Failed to parse DOCX. Install docx support or use text files.";

/// The text of a DOCX file from what reading its `word/document.xml` gave: no
/// archive is an error, a missing entry gives no text, a failed read passes its
/// message on.
pub fn docx_text_of_entry(entry: ZipEntry) -> (r: Result<String, KnowledgeBaseError>)
    ensures
        entry is NotArchive ==> (r matches Err(KnowledgeBaseError::DocumentParseError(m))
            && m@ == DOCX_UNREADABLE@),
        entry is Missing ==> (r matches Ok(t) && t@.len() == 0),
        entry matches ZipEntry::Unreadable(e) ==> (r matches Err(
            KnowledgeBaseError::DocumentParseError(m),
        ) && m@ == e@),
        entry matches ZipEntry::Text(x) ==> (r matches Ok(t) && t@ == docx_text(x@)),
{
    match entry {
        ZipEntry::NotArchive => Err(KnowledgeBaseError::DocumentParseError(DOCX_UNREADABLE.to_owned())),
        ZipEntry::Missing => Ok(String::new()),
        ZipEntry::Unreadable(e) => Err(KnowledgeBaseError::DocumentParseError(e)),
        ZipEntry::Text(x) => Ok(extract_text_from_docx_xml(x.as_str())),
    }
}

/// The text of a DOCX file's bytes.
pub fn parse_word_bytes(bytes: &[u8]) -> (r: Result<String, KnowledgeBaseError>)
    ensures
        zip_entry_text_of(bytes@, "word/document.xml"@) matches Some(x) ==> (r matches Ok(t)
            && t@ == docx_text(x)),
        zip_entry_text_of(bytes@, "word/document.xml"@) is None ==> (r is Err || (r matches Ok(t) && t@.len()
            == 0)),
{
    let entry = read_zip_entry(bytes, "word/document.xml");
    docx_text_of_entry(entry)
}

/// How a file's text is obtained.
#[derive(Debug, Clone, Copy, PartialEq, Eq, Structural)]
pub enum ReadKind {
    /// Extracted from a PDF.
    Pdf,
    /// Read from `word/document.xml` in a ZIP archive.
    Docx,
    /// The file read as UTF-8 text.
    Text,
}

/// The ASCII lower case of a character, as a code point.
pub open spec fn ascii_fold(c: char) -> u32 {
    let u = c as u32;
    if 65 <= u <= 90 {
        (u + 32) as u32
    } else {
        u
    }
}

/// Equality of two strings up to ASCII case, as `str::eq_ignore_ascii_case` decides it.
pub open spec fn eq_ignore_ascii_case(a: Seq<char>, b: Seq<char>) -> bool {
    a.len() == b.len() && forall|i: int| 0 <= i < a.len() ==> ascii_fold(a[i]) == ascii_fold(b[i])
}

fn eq_ignore_ascii_case_exec(a: &str, b: &str) -> (r: bool)
    ensures
        r == eq_ignore_ascii_case(a@, b@),
{
    let x = to_chars(a);
    let y = to_chars(b);
    if x.len() != y.len() {
        return false;
    }
    let mut i: usize = 0;
    while i < x.len()
        invariant
            i <= x.len() == y.len(),
            x@ == a@,
            y@ == b@,
            forall|k: int| 0 <= k < i ==> ascii_fold(x@[k]) == ascii_fold(y@[k]),
        decreases x.len() - i,
    {
        let u = x[i] as u32;
        let v = y[i] as u32;
        let fu: u32 = if 65 <= u && u <= 90 { u + 32 } else { u };
        let fv: u32 = if 65 <= v && v <= 90 { v + 32 } else { v };
        if fu != fv {
            return false;
        }
        i += 1;
    }
    true
}

pub const SPREADSHEET_UNSUPPORTED: &'static str = "Excel (.xlsx) parsing requires additional dependencies. Use CSV format.";

/// How to obtain the text of a file with extension `ext`, given the format of its
/// lower-case form: spreadsheets other than CSV, and unknown formats, are refused.
pub open spec fn read_kind_of(ext: Seq<char>, format: Option<DocumentFormat>) -> Result<
    ReadKind,
    Seq<char>,
> {
    match format {
        None => Err("Unsupported format: "@ + ext),
        Some(DocumentFormat::Pdf) => Ok(ReadKind::Pdf),
        Some(DocumentFormat::Word) => Ok(ReadKind::Docx),
        Some(DocumentFormat::Excel) => if eq_ignore_ascii_case(ext, "csv"@) {
            Ok(ReadKind::Text)
        } else {
            Err(SPREADSHEET_UNSUPPORTED@)
        },
        Some(_) => Ok(ReadKind::Text),
    }
}

/// How to read a file, from its extension and the format that extension names.
pub fn read_kind_for(ext: &str, format: Option<DocumentFormat>) -> (r: Result<ReadKind, KnowledgeBaseError>)
    ensures
        read_kind_of(ext@, format) matches Ok(k) ==> r == Ok::<ReadKind, KnowledgeBaseError>(k),
        read_kind_of(ext@, format) matches Err(m) ==> (r matches Err(
            KnowledgeBaseError::DocumentParseError(e),
        ) && e@ == m),
{
    match format {
        None => Err(KnowledgeBaseError::DocumentParseError(crate::types::prefixed("Unsupported format: ", ext))),
        Some(DocumentFormat::Pdf) => Ok(ReadKind::Pdf),
        Some(DocumentFormat::Word) => Ok(ReadKind::Docx),
        Some(DocumentFormat::Excel) => {
            if eq_ignore_ascii_case_exec(ext, "csv") {
                Ok(ReadKind::Text)
            } else {
                Err(KnowledgeBaseError::DocumentParseError(SPREADSHEET_UNSUPPORTED.to_owned()))
            }
        },
        Some(_) => Ok(ReadKind::Text),
    }
}

/// How to read a file with extension `ext`.
pub fn read_kind(ext: &str) -> (r: Result<ReadKind, KnowledgeBaseError>)
    ensures
        read_kind_of(ext@, format_of(lower_of(ext@))) matches Ok(k) ==> r == Ok::<
            ReadKind,
            KnowledgeBaseError,
        >(k),
        read_kind_of(ext@, format_of(lower_of(ext@))) matches Err(m) ==> (r matches Err(
            KnowledgeBaseError::DocumentParseError(e),
        ) && e@ == m),
{
    read_kind_for(ext, DocumentFormat::from_extension(ext))
}

} // verus!
