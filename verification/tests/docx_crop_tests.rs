use reader_core::crop::{detect_content_box, PixelBox};
use reader_core::docx::{docx_to_html, DocxBlock, DocxDocument, DocxRun};
use reader_core::library::book_metadata_for_path;

fn run(text: &str, bold: bool, italic: bool) -> DocxRun {
    DocxRun { text: text.to_string(), bold, italic }
}

#[test]
fn docx_renders_paragraphs_and_formatting() {
    let doc = DocxDocument {
        blocks: vec![
            DocxBlock::Paragraph(vec![run("Hi", true, false), run(" there", false, false)]),
            DocxBlock::Table,
            DocxBlock::Other,
            DocxBlock::Paragraph(vec![run("both", true, true)]),
        ],
    };
    assert_eq!(
        docx_to_html(&doc),
        "<div class='docx-content'><p><b>Hi</b> there</p>\
         <p><i>[Table - Not Supported]</i></p>\
         <p><b><i>both</i></b></p></div>"
            .to_string()
    );
}

#[test]
fn docx_empty_document() {
    let doc = DocxDocument { blocks: vec![] };
    assert_eq!(docx_to_html(&doc), "<div class='docx-content'></div>".to_string());
}

fn white_image(w: u32, h: u32) -> Vec<u8> {
    vec![255u8; (w * h * 4) as usize]
}

fn paint(rgba: &mut Vec<u8>, w: u32, x: u32, y: u32) {
    let base = (4 * (y * w + x)) as usize;
    rgba[base] = 0;
    rgba[base + 1] = 0;
    rgba[base + 2] = 0;
}

#[test]
fn content_box_surrounds_ink_with_padding() {
    let (w, h) = (20u32, 20u32);
    let mut rgba = white_image(w, h);
    paint(&mut rgba, w, 10, 10);
    let b = detect_content_box(w, h, &rgba);
    assert_eq!(b, PixelBox { top: 5, bottom: 15, left: 5, right: 15 });
}

#[test]
fn content_box_of_blank_image_is_whole_image() {
    let (w, h) = (8u32, 6u32);
    let rgba = white_image(w, h);
    let b = detect_content_box(w, h, &rgba);
    assert_eq!(b, PixelBox { top: 0, bottom: 5, left: 0, right: 7 });
}

#[test]
fn content_box_clamps_padding_at_edges() {
    let (w, h) = (20u32, 20u32);
    let mut rgba = white_image(w, h);
    paint(&mut rgba, w, 1, 18);
    let b = detect_content_box(w, h, &rgba);
    assert_eq!(b, PixelBox { top: 13, bottom: 19, left: 0, right: 6 });
}

#[test]
fn library_accepts_book_formats_only() {
    let b = book_metadata_for_path("/books/War and Peace.PDF").unwrap();
    assert_eq!(b.title, "War and Peace".to_string());
    assert_eq!(b.author, "Unknown Author".to_string());
    assert_eq!(b.path, "/books/War and Peace.PDF".to_string());
    assert!(book_metadata_for_path("/books/readme.txt").is_none());
    assert!(book_metadata_for_path("/books/archive.tar.gz").is_none());
    assert!(book_metadata_for_path("nodot").is_none());
    assert!(book_metadata_for_path("/books/.pdf").is_none());
    let e = book_metadata_for_path("story.epub").unwrap();
    assert_eq!(e.title, "story".to_string());
}
