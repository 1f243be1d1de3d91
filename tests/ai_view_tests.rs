use zlaunch::ai_view::{AiResponseView, ChatRole};

#[test]
fn new_view_streams_empty_reply() {
    let v = AiResponseView::new("hi".to_string());
    assert!(v.is_streaming());
    assert!(!v.has_error());
    assert_eq!(v.messages().len(), 2);
    assert_eq!(v.messages()[0].role, ChatRole::User);
    assert_eq!(v.messages()[0].content, "hi");
    assert_eq!(v.messages()[1].role, ChatRole::Assistant);
    assert_eq!(v.transcript(), "**User:** hi\n\n**Assistant:** _Thinking..._");
}

#[test]
fn tokens_and_follow_up() {
    let mut v = AiResponseView::new("q".to_string());
    v.append_token("Hel");
    v.append_token("lo");
    assert_eq!(v.transcript(), "**User:** q\n\n**Assistant:** Hello \u{258c}");
    v.finish_streaming();
    assert_eq!(v.transcript(), "**User:** q\n\n**Assistant:** Hello");
    v.add_user_message("more".to_string());
    assert_eq!(v.messages().len(), 4);
    assert_eq!(v.messages()[3].content, "");
}

#[test]
fn error_stops_streaming() {
    let mut v = AiResponseView::new("q".to_string());
    v.set_error("boom".to_string());
    assert!(v.has_error());
    assert!(!v.is_streaming());
    assert_eq!(v.error().map(|e| e.as_str()), Some("boom"));
}
