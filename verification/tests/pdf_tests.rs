use pdf::clock::{creation_date, format_date, TimeFields};
use pdf::bytes::{push_decimal, push_signed_decimal, push_zero_padded};
use pdf::encoding::encode_char;
use pdf::{encode_string, Canvas, FontMetrics, FontSource, Pdf, TextObject};

const HELVETICA_AFM: &str = "StartFontMetrics 4.1\n\
FontName Helvetica\n\
StartCharMetrics 315\n\
C 32 ; WX 278 ; N space ; B 0 0 0 0 ;\n\
C 72 ; WX 722 ; N H ; B 79 0 643 718 ;\n\
C 87 ; WX 944 ; N W ; B 14 0 929 718 ;\n\
C 100 ; WX 556 ; N d ; B 35 -15 499 718 ;\n\
C 101 ; WX 556 ; N e ; B 40 -15 516 538 ;\n\
C 108 ; WX 222 ; N l ; B 67 0 155 718 ;\n\
C 111 ; WX 556 ; N o ; B 35 -14 521 538 ;\n\
C 114 ; WX 333 ; N r ; B 77 0 332 538 ;\n\
C -1 ; WX 667 ; N Scaron ; B 86 -19 616 929 ;\n\
EndCharMetrics\n\
EndFontMetrics\n";

fn courier_metrics() -> FontMetrics {
    let mut afm = String::new();
    for code in 32..=255u32 {
        afm.push_str(&format!("C {} ; WX 600 ; N g{} ;\n", code, code));
    }
    FontMetrics::parse(afm.as_bytes())
}

fn contains(haystack: &[u8], needle: &[u8]) -> bool {
    haystack.windows(needle.len()).any(|w| w == needle)
}

fn find(haystack: &[u8], needle: &[u8]) -> Option<usize> {
    haystack.windows(needle.len()).position(|w| w == needle)
}

/// Reads the cross-reference table of a finished document and checks that
/// each entry points at its object.
fn check_xref(doc: &[u8]) -> usize {
    let marker: &[u8] = b"startxref\n";
    let startxref_pos = doc.windows(marker.len()).rposition(|w| w == marker).unwrap();
    let rest = std::str::from_utf8(&doc[startxref_pos + marker.len()..]).unwrap();
    let startxref: usize = rest.lines().next().unwrap().parse().unwrap();
    assert_eq!(&doc[startxref..startxref + 5], b"xref\n");
    let table = std::str::from_utf8(&doc[startxref..]).unwrap();
    let mut lines = table.lines();
    assert_eq!(lines.next(), Some("xref"));
    let header = lines.next().unwrap();
    let count: usize = header.split(' ').nth(1).unwrap().parse().unwrap();
    assert_eq!(lines.next(), Some("0000000000 65535 f "));
    for id in 1..count {
        let line = lines.next().unwrap();
        assert_eq!(line.len(), 19);
        let offset: usize = line[..10].parse().unwrap();
        let expected = format!("{} 0 obj\n", id);
        assert_eq!(&doc[offset..offset + expected.len()], expected.as_bytes());
    }
    assert_eq!(lines.next(), Some("trailer"));
    count
}

#[test]
fn pdf_name_of_times_roman() {
    assert_eq!("Times-Roman", FontSource::Times_Roman.pdf_name());
    assert_eq!("Courier-BoldOblique", FontSource::Courier_BoldOblique.pdf_name());
    assert_eq!("ZapfDingbats", FontSource::ZapfDingbats.pdf_name());
}

#[test]
fn width_of_hello_world_in_helvetica() {
    let metrics = FontMetrics::parse(HELVETICA_AFM.as_bytes());
    assert_eq!(5167, FontSource::Helvetica.get_width_raw("Hello World", Some(&metrics)));
}

#[test]
fn width_of_a_in_courier() {
    let metrics = courier_metrics();
    assert_eq!(600, FontSource::Courier.get_width_raw("A", Some(&metrics)));
    assert_eq!(6000, FontSource::Courier.get_width_raw("0123456789", Some(&metrics)));
}

#[test]
fn width_without_metrics_is_zero() {
    assert_eq!(0, FontSource::Helvetica.get_width_raw("Hello World", None));
}

#[test]
fn unknown_glyphs_are_100_wide() {
    let metrics = FontMetrics::parse(HELVETICA_AFM.as_bytes());
    // 'x' has no width in these metrics.
    assert_eq!(100, FontSource::Helvetica.get_width_raw("x", Some(&metrics)));
    // An escaped parenthesis counts the backslash too.
    assert_eq!(200, FontSource::Helvetica.get_width_raw("(", Some(&metrics)));
}

#[test]
fn width_adds_up() {
    let metrics = FontMetrics::parse(HELVETICA_AFM.as_bytes());
    let a = FontSource::Helvetica.get_width_raw("Hello", Some(&metrics));
    let b = FontSource::Helvetica.get_width_raw(" World", Some(&metrics));
    assert_eq!(a + b, FontSource::Helvetica.get_width_raw("Hello World", Some(&metrics)));
}

#[test]
fn afm_parse_reads_char_metrics() {
    let metrics = FontMetrics::parse(HELVETICA_AFM.as_bytes());
    assert_eq!(metrics.get_width(72), Some(722));
    assert_eq!(metrics.get_width(32), Some(278));
    assert_eq!(metrics.get_width(65), None);
    let later = FontMetrics::parse(b"C 65 ; WX 100 ;\nC 65 ; WX 200 ;\nC 300 ; WX 5 ;\nC 66 ; WX 70000 ;\nC 67 WX 5\n");
    assert_eq!(later.get_width(65), Some(200));
    assert_eq!(later.get_width(66), None);
    assert_eq!(later.get_width(67), None);
    assert_eq!(later.get_width(44), None);
}

#[test]
fn font_ref_width_matches_font_source_width() {
    let metrics = FontMetrics::parse(HELVETICA_AFM.as_bytes());
    let mut canvas = Canvas::new();
    let font = canvas.get_font(FontSource::Helvetica, metrics.clone());
    assert_eq!(font.get_width_raw("Hello World"), 5167);
}

#[test]
fn encode_string_win_ansi() {
    assert_eq!(vec![65, 66, 67], encode_string("ABC"));
    assert_eq!(vec![82, 228, 107, 115, 109, 246, 114, 103, 229, 115], encode_string("Räksmörgås"));
    assert_eq!(vec![67, 111, 102, 102, 101, 101, 32, 128, 49, 46, 50, 48], encode_string("Coffee €1.20"));
    assert_eq!(vec![97, 32, 63, 32, 98], encode_string("a ∈ b"));
    assert_eq!(b"\\(a\\) \\\\".to_vec(), encode_string("(a) \\"));
    assert_eq!(vec![63], encode_string("\n"));
    assert_eq!(encode_char('Ÿ'), Some(0x9F));
    assert_eq!(encode_char('—'), Some(0x97));
    assert_eq!(encode_char('\u{7f}'), None);
}

#[test]
fn decimal_formats() {
    let mut out = Vec::new();
    push_decimal(&mut out, 0);
    push_decimal(&mut out, 12345);
    assert_eq!(out, b"012345".to_vec());
    let mut out = Vec::new();
    push_zero_padded(&mut out, 42, 10);
    assert_eq!(out, b"0000000042".to_vec());
    let mut out = Vec::new();
    push_zero_padded(&mut out, 12345678901, 10);
    assert_eq!(out, b"12345678901".to_vec());
    let mut out = Vec::new();
    push_signed_decimal(&mut out, -2147483648);
    assert_eq!(out, b"-2147483648".to_vec());
}

#[test]
fn new_document_starts_with_header() {
    let pdf = Pdf::new();
    let doc = pdf.finish_with_date(None);
    assert!(doc.starts_with(b"%PDF-1.7\n%\xB5\xED\xAE\xFB\n"));
    assert!(doc.ends_with(b"%%EOF\n"));
}

#[test]
fn empty_document_structure() {
    let pdf = Pdf::new();
    let doc = pdf.finish_with_date(None);
    let count = check_xref(&doc);
    assert_eq!(count, 3);
    assert!(contains(&doc, b"2 0 obj\n<<  /Type /Pages\n    /Count 0\n    /Kids [ ]\n>>\nendobj\n"));
    assert!(contains(&doc, b"1 0 obj\n<<  /Type /Catalog\n    /Pages 2 0 R\n>>\nendobj\n"));
    assert!(contains(&doc, b"trailer\n<<  /Size 3\n    /Root 1 0 R\n>>\nstartxref\n"));
    assert!(!contains(&doc, b"/Info"));
}

#[test]
fn page_objects_and_xref() {
    let mut pdf = Pdf::new();
    let mut canvas = Canvas::new();
    let metrics = courier_metrics();
    let font = canvas.get_font(FontSource::Courier, metrics.clone());
    assert_eq!(font.get_number(), 0);
    canvas.write_all(b"10 20 m ");
    canvas.stroke();
    let mut text = TextObject::new();
    text.show("Hi");
    canvas.text(&text);
    let content_len = "/DeviceRGB cs /DeviceRGB CS\n".len() + canvas.as_bytes().len();
    pdf.render_page("595", "842", canvas);
    let doc = pdf.finish_with_date(None);
    let count = check_xref(&doc);
    // contents, length, one font, page, then the pages tree and catalog.
    assert_eq!(count, 7);
    let stream = b"3 0 obj\n<<  /Length 4 0 R\n>>\nstream\n/DeviceRGB cs /DeviceRGB CS\n10 20 m s\nBT\n(Hi) Tj\nET\nendstream\nendobj\n";
    assert!(contains(&doc, stream));
    let length = format!("4 0 obj\n{}\nendobj\n", content_len);
    assert!(contains(&doc, length.as_bytes()));
    assert!(contains(&doc, b"5 0 obj\n<< /Type /Font /Subtype /Type1 /BaseFont /Courier /Encoding /WinAnsiEncoding >>\nendobj\n"));
    assert!(contains(&doc, b"6 0 obj\n<<  /Type /Page\n    /Parent 2 0 R\n    /Resources << /Font << /F0 5 0 R >> >>\n    /MediaBox [ 0 0 595 842 ]\n    /Contents 3 0 R\n>>\nendobj\n"));
    assert!(contains(&doc, b"/Count 1\n    /Kids [ 6 0 R ]\n"));
}

#[test]
fn two_pages_are_counted() {
    let mut pdf = Pdf::new();
    pdf.render_page("100", "100", Canvas::new());
    pdf.render_page("200", "100", Canvas::new());
    let doc = pdf.finish_with_date(None);
    assert_eq!(check_xref(&doc), 9);
    assert!(contains(&doc, b"/Count 2\n    /Kids [ 5 0 R 8 0 R ]\n"));
}

#[test]
fn get_font_keeps_numbers() {
    let mut canvas = Canvas::new();
    let m = courier_metrics();
    let a = canvas.get_font(FontSource::Courier, m.clone());
    let b = canvas.get_font(FontSource::Helvetica, m.clone());
    let c = canvas.get_font(FontSource::Courier, m.clone());
    assert_eq!(a.get_number(), 0);
    assert_eq!(b.get_number(), 1);
    assert_eq!(c.get_number(), 0);
    let mut name = Vec::new();
    b.write_name(&mut name);
    assert_eq!(name, b"/F1".to_vec());
}

#[test]
fn two_fonts_on_a_page() {
    let mut pdf = Pdf::new();
    let mut canvas = Canvas::new();
    let m = courier_metrics();
    canvas.get_font(FontSource::Times_Bold, m.clone());
    canvas.get_font(FontSource::Symbol, m.clone());
    pdf.render_page("1", "2", canvas);
    let doc = pdf.finish_with_date(None);
    assert_eq!(check_xref(&doc), 8);
    assert!(contains(&doc, b"/BaseFont /Times-Bold "));
    assert!(contains(&doc, b"/BaseFont /Symbol "));
    assert!(contains(&doc, b"/Resources << /Font << /F0 5 0 R /F1 6 0 R >> >>"));
}

#[test]
fn document_information() {
    let mut pdf = Pdf::new();
    pdf.set_title("A title");
    pdf.set_author("Me");
    pdf.set_subject("Things");
    pdf.set_keywords("pdf, test");
    pdf.set_creator("Writer");
    pdf.set_producer("This library");
    let doc = pdf.finish_with_date(Some("20240102030405+0100"));
    assert_eq!(check_xref(&doc), 4);
    let info = b"3 0 obj\n<< /Author (Me)\n /Creator (Writer)\n /Keywords (pdf, test)\n /Producer (This library)\n /Subject (Things)\n /Title (A title)\n /CreationDate (D:20240102030405+0100) /ModDate (D:20240102030405+0100)>>\nendobj\n";
    assert!(contains(&doc, info));
    assert!(contains(&doc, b"    /Info 3 0 R\n"));
}

#[test]
fn later_setting_replaces_earlier() {
    let mut pdf = Pdf::new();
    pdf.set_title("First");
    pdf.set_title("Second");
    let doc = pdf.finish_with_date(None);
    assert!(contains(&doc, b"<< /Title (Second)\n>>\nendobj\n"));
    assert!(!contains(&doc, b"First"));
}

#[test]
fn finish_with_clock_date() {
    let mut pdf = Pdf::new();
    pdf.set_title("Dated");
    let doc = pdf.finish();
    check_xref(&doc);
    let pos = find(&doc, b" /CreationDate (D:").unwrap();
    let date = &doc[pos + 18..pos + 18 + 19];
    assert!(date[..14].iter().all(|b| b.is_ascii_digit()));
    assert!(date[14] == b'+' || date[14] == b'-');
}

#[test]
fn text_operators() {
    let mut t = TextObject::new();
    t.show("a(b)");
    t.show_j("x", -120);
    t.show_j("y", 7);
    t.show_line("z");
    t.gsave();
    t.grestore();
    assert_eq!(t.as_bytes(), &b"(a\\(b\\)) Tj\n[(x) -120] TJ\n[(y) 7] TJ\n(z) '\nq\nQ\n"[..]);
}

#[test]
fn canvas_operators() {
    let mut c = Canvas::new();
    c.stroke();
    c.fill();
    let mut t = TextObject::new();
    t.show("Hi");
    c.text(&t);
    assert_eq!(c.as_bytes(), &b"s\nf\nBT\n(Hi) Tj\nET\n"[..]);
}

#[test]
fn width_at_a_size() {
    let helvetica = FontMetrics::parse(HELVETICA_AFM.as_bytes());
    let raw = FontSource::Helvetica.get_width_raw("Hello World", Some(&helvetica));
    assert_eq!(62.004, 12.0f32 * raw as f32 / 1000.0);
    let courier = courier_metrics();
    let raw = FontSource::Courier.get_width_raw("0123456789", Some(&courier));
    assert_eq!(60.0, 10.0f32 * raw as f32 / 1000.0);
}

#[test]
fn format_date_of_fields() {
    let tm = TimeFields {
        tm_sec: 1, tm_min: 2, tm_hour: 3, tm_mday: 4, tm_mon: 5, tm_year: 124, tm_wday: 2,
        tm_yday: 155, tm_isdst: 0, tm_utcoff: 3600, tm_nsec: 0,
    };
    assert_eq!(format_date(&tm), Some("20240604030201+0100".to_string()));
    assert_eq!(format_date(&TimeFields { tm_wday: 7, ..tm }), None);
    assert_eq!(format_date(&TimeFields { tm_mon: 12, ..tm }), None);
    assert_eq!(format_date(&TimeFields { tm_utcoff: i32::MIN, ..tm }), None);
}

#[test]
fn format_date_pads_and_signs() {
    let tm = TimeFields {
        tm_sec: 59, tm_min: 30, tm_hour: 23, tm_mday: 31, tm_mon: 11, tm_year: 99, tm_wday: 5,
        tm_yday: 364, tm_isdst: 0, tm_utcoff: -(5 * 3600 + 30 * 60 + 15), tm_nsec: 0,
    };
    assert_eq!(format_date(&tm), Some("19991231233059-0530".to_string()));
    assert_eq!(format_date(&TimeFields { tm_utcoff: 0, ..tm }), Some("19991231233059-0000".to_string()));
    assert_eq!(
        format_date(&TimeFields { tm_year: -1905, tm_sec: -3, ..tm }),
        Some("-512312330-3-0530".to_string())
    );
}

#[test]
fn objects_and_pages_come_in_order() {
    let mut pdf = Pdf::new();
    let mut canvas = Canvas::new();
    let _ = canvas.get_font(FontSource::Courier, courier_metrics());
    pdf.render_page("100", "100", canvas);
    pdf.render_page("200", "100", Canvas::new());
    let doc = pdf.finish_with_date(None);
    let count = check_xref(&doc);
    let xref = find(&doc, b"xref\n").unwrap();
    let table = std::str::from_utf8(&doc[xref..]).unwrap();
    let offsets: Vec<usize> = table
        .lines()
        .skip(3)
        .take(count - 1)
        .map(|l| l[..10].parse().unwrap())
        .collect();
    // Objects 3 to 9, the two pages, lie in the order of their numbers.
    for id in 3..9 {
        assert!(offsets[id - 1] < offsets[id]);
    }
    assert!(contains(&doc, b"/Count 2\n    /Kids [ 6 0 R 9 0 R ]\n"));
}

#[test]
fn find_font_only_finds_fonts_in_use() {
    let mut canvas = Canvas::new();
    assert!(canvas.find_font(FontSource::Courier).is_none());
    let a = canvas.get_font(FontSource::Helvetica, courier_metrics());
    let b = canvas.get_font(FontSource::Courier, courier_metrics());
    assert_eq!(canvas.find_font(FontSource::Courier).map(|r| r.get_number()), Some(1));
    assert_eq!(canvas.find_font(FontSource::Helvetica), Some(a));
    assert_eq!(canvas.find_font(FontSource::Courier), Some(b));
    assert!(canvas.find_font(FontSource::Symbol).is_none());
}

#[test]
fn font_ref_measures_as_its_source_with_the_same_metrics() {
    let helvetica = FontMetrics::parse(HELVETICA_AFM.as_bytes());
    let mut canvas = Canvas::new();
    let first = canvas.get_font(FontSource::Helvetica, helvetica.clone());
    let _ = canvas.get_font(FontSource::Courier, courier_metrics());
    let again = canvas.get_font(FontSource::Helvetica, helvetica.clone());
    for text in ["Hello World", "", "Wörld", "HHH"] {
        let expected = FontSource::Helvetica.get_width_raw(text, Some(&helvetica));
        assert_eq!(first.get_width_raw(text), expected);
        assert_eq!(again.get_width_raw(text), expected);
    }
    assert_eq!(first, again);
}

#[test]
fn checked_widths() {
    let helvetica = FontMetrics::parse(HELVETICA_AFM.as_bytes());
    assert_eq!(FontSource::Helvetica.checked_width_raw("Hello World", Some(&helvetica)), Some(5167));
    assert_eq!(FontSource::Helvetica.checked_width_raw("Hello World", None), Some(0));
    let mut canvas = Canvas::new();
    let r = canvas.get_font(FontSource::Helvetica, helvetica.clone());
    assert_eq!(r.checked_width_raw("Hello World"), Some(5167));
    let mut wide = FontMetrics::new();
    wide.set_width(b'A', 65535);
    let r = Canvas::new().get_font(FontSource::Courier, wide.clone());
    let fits = "A".repeat(65537);
    assert_eq!(r.checked_width_raw(&fits), Some(65537 * 65535));
    let too_wide = "A".repeat(65538);
    assert_eq!(r.checked_width_raw(&too_wide), None);
    assert_eq!(FontSource::Courier.checked_width_raw(&too_wide, Some(&wide)), None);
    // Unknown glyphs are 100 wide, so a long text of them still fits.
    assert_eq!(r.checked_width_raw(&"B".repeat(70000)), Some(7_000_000));
}

#[test]
fn creation_date_is_a_clock_date() {
    let date = creation_date().unwrap();
    assert_eq!(date.len(), 19);
    let b = date.as_bytes();
    assert!(b[..14].iter().all(|c| c.is_ascii_digit()));
    assert!(b[14] == b'+' || b[14] == b'-');
    assert!(b[15..].iter().all(|c| c.is_ascii_digit()));
    let month: u32 = date[4..6].parse().unwrap();
    assert!((1..=12).contains(&month));
}

#[test]
fn get_font_gives_the_same_reference_later() {
    let mut canvas = Canvas::new();
    let first = canvas.get_font(FontSource::Times_Roman, courier_metrics());
    let _ = canvas.get_font(FontSource::Symbol, FontMetrics::new());
    canvas.stroke();
    let before = canvas.as_bytes().to_vec();
    let later = canvas.get_font(FontSource::Times_Roman, FontMetrics::new());
    assert_eq!(first, later);
    assert_eq!(later.get_width_raw("A"), 600);
    assert_eq!(canvas.as_bytes(), &before[..]);
}

#[test]
fn a_page_with_every_font() {
    let all = [
        FontSource::Courier, FontSource::Courier_Bold, FontSource::Courier_Oblique,
        FontSource::Courier_BoldOblique, FontSource::Helvetica, FontSource::Helvetica_Bold,
        FontSource::Helvetica_Oblique, FontSource::Helvetica_BoldOblique, FontSource::Times_Roman,
        FontSource::Times_Bold, FontSource::Times_Italic, FontSource::Times_BoldItalic,
        FontSource::Symbol, FontSource::ZapfDingbats,
    ];
    let mut canvas = Canvas::new();
    for (k, f) in all.iter().enumerate() {
        assert_eq!(canvas.get_font(*f, FontMetrics::new()).get_number(), k);
    }
    let mut pdf = Pdf::new();
    pdf.render_page("10", "10", canvas);
    let doc = pdf.finish_with_date(None);
    assert_eq!(check_xref(&doc), 20);
    assert!(contains(&doc, b"/F13 18 0 R"));
    assert!(contains(&doc, b"/Kids [ 19 0 R ]"));
}
