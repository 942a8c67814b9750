use cinnabar::refine_score::RefineDecision;
use cinnabar::session::{nonempty_segments, StreamingSession};

#[test]
fn decoded_text_is_logged_then_printed_after_debounce() {
    let mut s = StreamingSession::new();
    let step = s.on_decoded("今", 640, 0, 150);
    let logged = step.logged.expect("new text is logged");
    assert_eq!((logged.seq, logged.text.as_str(), logged.samples_so_far, logged.printed), (1, "今", 640, false));
    assert!(step.printed.is_none(), "debounce not yet elapsed");

    let step = s.on_decoded("今", 640, 200, 150);
    assert!(step.logged.is_none(), "unchanged text is not logged again");
    let printed = step.printed.expect("printed after debounce");
    assert_eq!((printed.seq, printed.text.as_str(), printed.samples_so_far, printed.printed), (1, "今", 1280, true));

    let step = s.on_decoded("今", 640, 500, 150);
    assert!(step.logged.is_none() && step.printed.is_none(), "same text is not printed twice");

    let step = s.on_decoded("今天", 640, 500, 150);
    assert_eq!(step.logged.unwrap().seq, 2);
    assert_eq!(step.printed.unwrap().text, "今天");
}

#[test]
fn empty_text_is_ignored() {
    let mut s = StreamingSession::new();
    let step = s.on_decoded("", 640, 1000, 150);
    assert!(step.logged.is_none() && step.printed.is_none());
    assert_eq!(s.samples_in_session, 640);
}

#[test]
fn segment_commits_final_and_numbers_segments() {
    let mut s = StreamingSession::new();
    s.on_decoded("今天天气好", 640, 1000, 150);
    let step = s.on_segment("今天天气好", 0, 16000, 16000);
    assert_eq!(step.commit.segment_id, 0);
    assert_eq!(step.commit.duration_ms, 1000);
    assert_eq!(step.final_text.as_deref(), Some("今天天气好"));
    let step = s.on_segment("", 16000, 8000, 16000);
    assert_eq!(step.commit.segment_id, 1);
    assert!(step.final_text.is_none());
    assert_eq!(s.closing_final(0), None, "committed text is not committed again");
}

#[test]
fn refinement_replaces_unless_rejected() {
    let mut s = StreamingSession::new();
    s.on_segment("今天天气挺好", 0, 16000, 16000);
    let step = s.on_refine("今天天气挺好", "今天天气挺好").unwrap();
    assert_eq!(step.decision, RefineDecision::Override);
    assert!(!step.replace, "same text is not rewritten");

    let step = s.on_refine("而且可脱钻修改宽高", "再修改宽高了").unwrap();
    assert_eq!(step.decision, RefineDecision::Rejected);
    assert!(!step.replace);
    assert_eq!(s.last_printed, "今天天气挺好");

    let step = s.on_refine("移动端需要适配一", "移动端需要适配一下").unwrap();
    assert_ne!(step.decision, RefineDecision::Rejected);
    assert!(step.replace);
    assert_eq!(s.last_printed, "移动端需要适配一下");
    assert_eq!(s.last_committed_final, "移动端需要适配一下");

    assert!(s.on_refine("今天", "").is_none());
}

#[test]
fn closing_commits_printed_but_uncommitted_text() {
    let mut s = StreamingSession::new();
    s.on_decoded("说到一半", 640, 1000, 150);
    assert_eq!(s.closing_final(0).as_deref(), Some("说到一半"));
    assert_eq!(s.closing_final(1), None);
    s.end_of_segments();
    assert_eq!(s.last_result, "");
}

#[test]
fn empty_segments_are_skipped() {
    assert_eq!(nonempty_segments(&[3, 0, 5, 0]), vec![0, 2]);
    assert_eq!(nonempty_segments(&[0, 0]), Vec::<usize>::new());
    assert_eq!(nonempty_segments(&[]), Vec::<usize>::new());
}
