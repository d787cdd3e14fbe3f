use mini_search_engine::links::{get_href_by_a_tag, scan_links, split_url, valid_href, LinkDefect};

#[test]
fn href_of_a_tag() {
    assert_eq!(get_href_by_a_tag("<a href=\"/about\">"), "/about");
    assert_eq!(get_href_by_a_tag("<a class=\"x\" href=\"https://a.com/b\" id=\"c\">"), "https://a.com/b");
    assert_eq!(get_href_by_a_tag("<a name=\"top\">"), "");
    assert_eq!(get_href_by_a_tag("<a href=\"\">"), "");
    assert_eq!(get_href_by_a_tag("<a href=\"x\" href=\"y\">"), "x");
    assert_eq!(get_href_by_a_tag("<a href=\"文章\">"), "文章");
}

#[test]
fn which_hrefs_are_followed() {
    assert!(!valid_href(""));
    assert!(!valid_href("/"));
    assert!(valid_href("/a"));
    assert!(valid_href("//cdn.example.com"));
    assert!(valid_href("http://a.com"));
    assert!(valid_href("https://a.com"));
    assert!(valid_href("http"));
    assert!(!valid_href("htt"));
    assert!(!valid_href("#top"));
    assert!(!valid_href("javascript:void(0)"));
    assert!(!valid_href("mailto:a@b.c"));
    assert!(!valid_href("a/b"));
}

#[test]
fn url_split() {
    assert_eq!(
        split_url("https://www.woshipm.com/class/6238617.html"),
        Some(("https:".to_string(), "www.woshipm.com".to_string()))
    );
    assert_eq!(split_url("http://host"), Some(("http:".to_string(), "host".to_string())));
    assert_eq!(split_url("a//"), Some(("a".to_string(), "".to_string())));
    assert_eq!(split_url("a/b/c/d"), Some(("a".to_string(), "c".to_string())));
    assert_eq!(split_url("no-slash"), None);
    assert_eq!(split_url("one/slash"), None);
    assert_eq!(split_url(""), None);
}

#[test]
fn links_of_a_page() {
    let html = "<html><body>\
        <a href=\"/class/1.html\">one</a>\
        <a class=\"c\" href=\"https://other.org/x\">two</a>\
        <a href=\"/\">root</a>\
        <a href=\"#frag\">frag</a>\
        <a name=\"anchor\">no href</a>\
        <a href=\"javascript:void(0)\">js</a>\
        <p>text</p></body></html>";
    let links = scan_links(html, "https:", "www.woshipm.com").unwrap();
    assert_eq!(
        links,
        vec!["https://www.woshipm.com/class/1.html".to_string(), "https://other.org/x".to_string()]
    );
}

#[test]
fn page_without_anchors() {
    assert_eq!(scan_links("", "http:", "a"), Ok(vec![]));
    assert_eq!(scan_links("<p>hello</p><abbr>x</abbr>", "http:", "a"), Ok(vec![]));
}

#[test]
fn anchor_without_end_is_a_defect() {
    assert_eq!(scan_links("<a href=\"/x\"", "http:", "a"), Err(LinkDefect::UnclosedTag));
    assert_eq!(scan_links("<a href=\"/x\"><a href=\"/y\"", "http:", "a"), Err(LinkDefect::UnclosedTag));
}

#[test]
fn href_without_end_is_a_defect() {
    assert_eq!(scan_links("<a href=\"/x>text</a>\"", "http:", "a"), Err(LinkDefect::UnclosedHref));
}

#[test]
fn first_defect_wins() {
    assert_eq!(scan_links("<a href=\"/x><a href=\"/y\"", "http:", "a"), Err(LinkDefect::UnclosedHref));
}

#[test]
fn repeated_links_are_all_listed() {
    let html = "<a href=\"/p\">1</a><a href=\"/p\">2</a>";
    assert_eq!(
        scan_links(html, "http:", "h").unwrap(),
        vec!["http://h/p".to_string(), "http://h/p".to_string()]
    );
}
