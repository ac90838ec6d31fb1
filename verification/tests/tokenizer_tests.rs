use mmbr::html_tokenizer::HtmlToken;
use mmbr::html_tokenizer::HtmlTokenizer;

#[test]
fn test_next() {
    let html = String::from("<html>");
    let mut tokenizer = HtmlTokenizer::new(html);
    assert_eq!(tokenizer.next(), Some(HtmlToken::StartTag("html".to_string())));
    assert_eq!(tokenizer.next(), Some(HtmlToken::Eof));
    assert_eq!(tokenizer.next(), None);
}

#[test]
fn start_tag_p() {
    let mut tokenizer = HtmlTokenizer::new(String::from("<p>"));
    assert_eq!(tokenizer.next(), Some(HtmlToken::StartTag("p".to_string())));
    assert_eq!(tokenizer.next(), Some(HtmlToken::Eof));
    assert_eq!(tokenizer.next(), None);
}

#[test]
fn end_tag_div() {
    let mut tokenizer = HtmlTokenizer::new(String::from("</div>"));
    assert_eq!(tokenizer.next(), Some(HtmlToken::EndTag("div".to_string())));
    assert_eq!(tokenizer.next(), Some(HtmlToken::Eof));
    assert_eq!(tokenizer.next(), None);
}

#[test]
fn literal_text() {
    let mut tokenizer = HtmlTokenizer::new(String::from("hi"));
    assert_eq!(tokenizer.next(), Some(HtmlToken::Char('h')));
    assert_eq!(tokenizer.next(), Some(HtmlToken::Char('i')));
    assert_eq!(tokenizer.next(), Some(HtmlToken::Eof));
    assert_eq!(tokenizer.next(), None);
}

#[test]
fn empty_input_is_one_eof() {
    let mut tokenizer = HtmlTokenizer::new(String::new());
    assert_eq!(tokenizer.next(), Some(HtmlToken::Eof));
    assert_eq!(tokenizer.next(), None);
}

#[test]
fn lone_angle_bracket_is_dropped() {
    let mut tokenizer = HtmlTokenizer::new(String::from("<"));
    assert_eq!(tokenizer.next(), Some(HtmlToken::Eof));
    assert_eq!(tokenizer.next(), None);
}

#[test]
fn text_around_tags() {
    let mut tokenizer = HtmlTokenizer::new(String::from("a<p>b</p>"));
    assert_eq!(tokenizer.next(), Some(HtmlToken::Char('a')));
    assert_eq!(tokenizer.next(), Some(HtmlToken::StartTag("p".to_string())));
    assert_eq!(tokenizer.next(), Some(HtmlToken::Char('b')));
    assert_eq!(tokenizer.next(), Some(HtmlToken::EndTag("p".to_string())));
    assert_eq!(tokenizer.next(), Some(HtmlToken::Eof));
    assert_eq!(tokenizer.next(), None);
}
