use trie_http::status::StatusMessage;

#[test]
fn status_lines() {
    assert_eq!(StatusMessage::OK.text(), "200 OK");
    assert_eq!(StatusMessage::NOT_FOUND.text(), "404 Not Found");
    assert_eq!(StatusMessage::Custom(418, "I'm a teapot".to_string()).text(), "418 I'm a teapot");
    assert_eq!(StatusMessage::Custom(7, String::new()).text(), "7 ");
}
