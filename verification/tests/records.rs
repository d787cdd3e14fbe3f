use mini_search_engine::records::{
    encode_doc_id_record, encode_doc_raw_record, read_awled_html, read_doc_id,
};

#[test]
fn doc_id_record_layout() {
    let r = encode_doc_id_record(0x01020304, "http://a/b");
    let mut expected = vec![4u8, 3, 2, 1, b'\t'];
    expected.extend_from_slice(b"http://a/b");
    expected.extend_from_slice(b"\r\n");
    assert_eq!(r, expected);
}

#[test]
fn doc_raw_record_layout() {
    let r = encode_doc_raw_record(7, "<p>hi</p>");
    let mut expected = vec![7u8, 0, 0, 0, b'\t', 9, 0, 0, 0, b'\t'];
    expected.extend_from_slice(b"<p>hi</p>");
    expected.extend_from_slice(b"\r\n\r\n");
    assert_eq!(r, expected);
}

#[test]
fn doc_raw_size_counts_bytes() {
    let r = encode_doc_raw_record(1, "é");
    assert_eq!(&r[5..9], &[2u8, 0, 0, 0]);
}

#[test]
fn doc_ids_round_trip() {
    let mut data = encode_doc_id_record(0, "https://www.woshipm.com/class/6238617.html");
    data.extend(encode_doc_id_record(1, "https://www.woshipm.com/pd/1.html"));
    data.extend(encode_doc_id_record(2, "http://例子.测试/"));
    let entries = read_doc_id(&data).unwrap();
    assert_eq!(
        entries,
        vec![
            (0, "https://www.woshipm.com/class/6238617.html".to_string()),
            (1, "https://www.woshipm.com/pd/1.html".to_string()),
            (2, "http://例子.测试/".to_string()),
        ]
    );
}

#[test]
fn doc_ids_edge_cases() {
    assert_eq!(read_doc_id(&[]), Some(vec![]));
    // A tail shorter than an id is ignored.
    assert_eq!(read_doc_id(&[1, 2, 3]), Some(vec![]));
    // A record with an empty URL is skipped.
    let mut data = encode_doc_id_record(5, "");
    data.extend(encode_doc_id_record(6, "u"));
    assert_eq!(read_doc_id(&data), Some(vec![(6, "u".to_string())]));
    // The tab is optional and the last line needs no line break.
    assert_eq!(read_doc_id(&[9, 0, 0, 0, b'x', b'y']), Some(vec![(9, "xy".to_string())]));
}

#[test]
fn doc_ids_invalid_utf8_is_refused() {
    assert_eq!(read_doc_id(&[1, 0, 0, 0, b'\t', 0xff, 0xfe, b'\r', b'\n']), None);
}

#[test]
fn stored_pages_are_rendered() {
    let mut data = encode_doc_raw_record(3, "<p>Hello</p>");
    data.extend(encode_doc_raw_record(4, "<p>Hello, world!</p>"));
    let pages = read_awled_html(&data).unwrap();
    assert_eq!(
        pages,
        vec![(3, 12, "Hello\n".to_string()), (4, 20, "Hello, world!\n".to_string())]
    );
}

#[test]
fn empty_page_file() {
    assert_eq!(read_awled_html(&[]), Some(vec![]));
}

#[test]
fn truncated_page_file_is_refused() {
    let data = encode_doc_raw_record(3, "<p>Hello</p>");
    assert_eq!(read_awled_html(&data[..8]), None);
    assert_eq!(read_awled_html(&data[..15]), None);
}

#[test]
fn page_file_with_invalid_utf8_is_refused() {
    let data = vec![1u8, 0, 0, 0, b'\t', 2, 0, 0, 0, b'\t', 0xff, 0xff, b'\r', b'\n', b'\r', b'\n'];
    assert_eq!(read_awled_html(&data), None);
}

#[test]
fn missing_trailer_on_last_page_is_tolerated() {
    let data = encode_doc_raw_record(3, "<p>Hello</p>");
    let n = data.len();
    assert_eq!(read_awled_html(&data[..n - 4]), Some(vec![(3, 12, "Hello\n".to_string())]));
}
