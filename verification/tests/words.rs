use mini_search_engine::words::dictionary_words;

#[test]
fn words_of_a_dictionary() {
    assert_eq!(
        dictionary_words("apple\t1\tn\r\nbanana\t2\r\ncherry"),
        vec!["apple".to_string(), "banana".to_string(), "cherry".to_string()]
    );
}

#[test]
fn trailing_line_break_gives_an_empty_word() {
    assert_eq!(dictionary_words("a\r\n"), vec!["a".to_string(), "".to_string()]);
}

#[test]
fn empty_text_gives_one_empty_word() {
    assert_eq!(dictionary_words(""), vec!["".to_string()]);
}

#[test]
fn bare_newlines_do_not_split() {
    assert_eq!(dictionary_words("a\nb\rc"), vec!["a\nb\rc".to_string()]);
}

#[test]
fn line_starting_with_tab_gives_empty_word() {
    assert_eq!(dictionary_words("\tx\r\n词语\t频率"), vec!["".to_string(), "词语".to_string()]);
}

#[test]
fn carriage_return_before_break() {
    assert_eq!(dictionary_words("a\r\r\nb"), vec!["a\r".to_string(), "b".to_string()]);
}
