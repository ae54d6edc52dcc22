use coop_async::title::page_title;

#[test]
fn page_title_reads_first_title_element() {
    let html = "<html><head><title>Rust Programming Language</title></head><body>x</body></html>";
    assert_eq!(page_title(html), Some(String::from("Rust Programming Language")));
}

#[test]
fn page_title_takes_the_first_of_several() {
    let html = "<html><head><title>One</title></head><body><title>Two</title></body></html>";
    assert_eq!(page_title(html), Some(String::from("One")));
}

#[test]
fn page_without_title_has_none() {
    assert_eq!(page_title("<html><body><p>no title here</p></body></html>"), None);
}
