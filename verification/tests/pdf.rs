use fsearch::pdf::{build_pdf, is_pdf_path, minimal_pdf, refusal, MAX_PDF_BYTES};
use fsearch::pdf_process::{
    answer, charge, input_error, receive, reserve, respond, Collector, PdfAllocator, PipeAction,
    PipeEvent, HEAP_BYTES, OUTPUT_BYTES,
};

#[test]
fn recognizes_pdf_paths() {
    assert!(is_pdf_path("/a/report.pdf"));
    assert!(is_pdf_path("/a/REPORT.PDF"));
    assert!(!is_pdf_path("/a/report.pdf.txt"));
}

#[test]
fn sample_documents_can_be_read() {
    let pdf = minimal_pdf("Needle in a haystack");
    assert!(pdf.starts_with(b"%PDF-1.4"));
    let text = pdf_extract::extract_text_from_mem(&pdf).unwrap();
    assert!(text.contains("Needle in a haystack"), "got: {text:?}");
    let plain = build_pdf("hello", "<< /Type /Font /Subtype /Type1 /BaseFont /Helvetica >>");
    assert!(!plain.is_empty());
}

#[test]
fn oversized_pdfs_are_refused_without_reading() {
    assert!(refusal(true, MAX_PDF_BYTES + 1).is_some());
    assert!(refusal(false, 1).is_some());
    assert!(refusal(true, 1).is_none());
}

#[test]
fn allocator_accounts_failures_and_reallocations() {
    let mut allocator = PdfAllocator::new();
    let cost = charge(32, 8).unwrap();
    allocator.limit = cost;
    assert!(allocator.allocate(32, 8));
    assert!(!allocator.allocate(32, 8));
    assert!(!allocator.reallocate(32, 8, 64));
    assert_eq!(allocator.live, cost);
    allocator.limit = 1024;
    assert!(allocator.reallocate(32, 8, 64));
    assert_eq!(allocator.live, charge(64, 8).unwrap());
    allocator.release(64, 8);
    assert_eq!(allocator.live, 0);
    assert!(allocator.enable().is_ok());
    assert_eq!(allocator.limit, HEAP_BYTES);
    assert_eq!(charge(usize::MAX, 8), None);
    assert_eq!(reserve(1, 2, 2), None);
    assert_eq!(reserve(1, 1, 2), Some(2));
}

#[test]
fn responses_come_back_through_the_pipe() {
    let ok: Result<String, String> = Ok("text é".to_string());
    let err: Result<String, String> = Err("broken".to_string());
    assert_eq!(receive(&respond(&ok)), ok);
    assert_eq!(receive(&respond(&err)), err);
    assert!(receive(b"").is_err());
    assert!(input_error(MAX_PDF_BYTES + 1).is_some());
    assert!(answer(1, Ok("x".to_string())).is_ok());
}

#[test]
fn helpers_are_bounded_in_output_and_time() {
    let mut c = Collector::new(4);
    assert!(matches!(c.feed(PipeEvent::Data(vec![1, 2])), PipeAction::Again));
    assert!(matches!(c.feed(PipeEvent::Blocked), PipeAction::Wait));
    assert!(matches!(c.feed(PipeEvent::Interrupted), PipeAction::Again));
    assert!(matches!(c.feed(PipeEvent::Closed(Some(true))), PipeAction::Done));
    assert_eq!(c.bytes, vec![1, 2]);
    assert!(matches!(c.feed(PipeEvent::Data(vec![0; 3])), PipeAction::Fail(_)));
    assert!(matches!(c.feed(PipeEvent::TimedOut), PipeAction::Fail(_)));
    assert!(matches!(c.feed(PipeEvent::Failed("io".to_string())), PipeAction::Fail(_)));
    assert!(matches!(c.feed(PipeEvent::Closed(Some(false))), PipeAction::Fail(_)));
    assert!(OUTPUT_BYTES > 0);
}
