use reader_core::errors::{classify_engine_failure, DocumentError, EngineFailure};
use reader_core::render::fit_within;
use reader_core::validate::{check_header, check_page_index};
use reader_core::{hello_world, test_pdf_module};

#[test]
fn empty_file_is_classified_before_the_engine() {
    assert_eq!(check_header(0, &vec![]), Err(DocumentError::EmptyFile));
    assert_eq!(check_header(0, &b"%PDF-1.4".to_vec()), Err(DocumentError::EmptyFile));
    assert_eq!(check_header(100, &vec![]), Err(DocumentError::EmptyFile));
}

#[test]
fn header_sniffing_accepts_magic_anywhere_in_window() {
    assert_eq!(check_header(8, &b"%PDF-1.4".to_vec()), Ok(()));
    assert_eq!(check_header(20, &b"junk\n%PDF-1.7 rest".to_vec()), Ok(()));
    assert_eq!(check_header(5, &b"hello".to_vec()), Err(DocumentError::InvalidHeader));
    assert_eq!(check_header(4, &b"%PDF".to_vec()), Err(DocumentError::InvalidHeader));
}

#[test]
fn engine_failures_map_to_stable_kinds() {
    assert_eq!(classify_engine_failure(EngineFailure::Format), DocumentError::FormatError);
    assert_eq!(
        classify_engine_failure(EngineFailure::Password),
        DocumentError::PasswordProtected
    );
    assert_eq!(
        classify_engine_failure(EngineFailure::File),
        DocumentError::FileMissingOrUnreadable
    );
    assert_eq!(
        classify_engine_failure(EngineFailure::Security),
        DocumentError::SecurityRestricted
    );
    assert_eq!(
        classify_engine_failure(EngineFailure::Page),
        DocumentError::PageIndexOutOfRange
    );
    assert_eq!(classify_engine_failure(EngineFailure::Other), DocumentError::FormatError);
}

#[test]
fn error_codes_are_stable() {
    assert_eq!(DocumentError::EmptyFile.code(), "PDF_OPEN_ERROR::EMPTY");
    assert_eq!(DocumentError::InvalidHeader.code(), "PDF_OPEN_ERROR::HEADER");
    assert_eq!(DocumentError::FormatError.code(), "PDF_OPEN_ERROR::FORMAT");
    assert_eq!(DocumentError::PasswordProtected.code(), "PDF_OPEN_ERROR::PASSWORD");
}

#[test]
fn page_index_guard() {
    assert_eq!(check_page_index(0, 3), Ok(()));
    assert_eq!(check_page_index(2, 3), Ok(()));
    assert_eq!(check_page_index(3, 3), Err(DocumentError::PageIndexOutOfRange));
    assert_eq!(check_page_index(7, 0), Err(DocumentError::PageIndexOutOfRange));
}

#[test]
fn fit_preserves_aspect_within_rounding() {
    // A 1:1.4 page requested at 1000 x 1000.
    let (w, h) = fit_within(500, 700, 1000, 1000);
    assert_eq!((w, h), (714, 1000));
    assert!(w <= 1000 && h <= 1000);
    let drift = (w as i64) * 700 - (h as i64) * 500;
    assert!(drift.abs() < 700);
    // A page that fits in both directions scales up to the tighter axis.
    let (w2, h2) = fit_within(100, 100, 300, 200);
    assert_eq!((w2, h2), (200, 200));
}

#[test]
fn module_greetings() {
    assert_eq!(hello_world(), "Hello from Rust!".to_string());
    assert_eq!(test_pdf_module(), "PDF module loaded successfully".to_string());
}
