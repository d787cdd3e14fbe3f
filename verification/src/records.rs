//! The on-disk formats of crawled pages: the URL file (`doc_id.bin`) and the
//! page file (`doc_raw.bin`), how records are written and how files are read back.
use vstd::prelude::*;

use vstd::bytes::{spec_u32_from_le_bytes, spec_u32_to_le_bytes, u32_from_le_bytes, u32_to_le_bytes};
use vstd::slice::slice_subrange;
use vstd::utf8::{decode_utf8, encode_utf8, valid_utf8};

verus! {

broadcast use vstd::utf8::encode_utf8_decode_utf8, vstd::utf8::encode_utf8_valid_utf8;

/// `\t`, the field separator of the page files.
pub const TAB: u8 = 9;

/// `\r`
pub const CR: u8 = 13;

/// `\n`
pub const LF: u8 = 10;

/// Decodes `bytes` as UTF-8 with std's `std::str::from_utf8`. Its contract
/// claims that the call succeeds exactly on valid UTF-8 and then gives a
/// string slice whose encoding is `bytes`.
#[verifier::external_body]
fn utf8_str(bytes: &[u8]) -> (r: Option<&str>)
    ensures
        r is Some <==> valid_utf8(bytes@),
        r matches Some(s) ==> encode_utf8(s@) == bytes@,
{
    std::str::from_utf8(bytes).ok()
}

/// The text that valid UTF-8 `bytes` encode, as a new `String`.
fn utf8_string(bytes: &[u8]) -> (r: Option<String>)
    ensures
        r is Some <==> valid_utf8(bytes@),
        r matches Some(s) ==> s@ == decode_utf8(bytes@),
{
    match utf8_str(bytes) {
        Some(s) => {
            let r = s.to_owned();
            proof {
                vstd::utf8::encode_utf8_decode_utf8(s@);
            }
            Some(r)
        },
        None => None,
    }
}

// ---------------------------------------------------------------- doc_id.bin

/// One record of the URL file: the page id (4 bytes, little endian), a tab,
/// the URL's bytes and `\r\n`.
pub open spec fn doc_id_record(id: u32, url: Seq<u8>) -> Seq<u8> {
    spec_u32_to_le_bytes(id) + seq![TAB] + url + seq![CR, LF]
}

/// The URL file made of the given `(id, url)` records, in order.
pub open spec fn doc_id_file(entries: Seq<(u32, Seq<char>)>) -> Seq<u8>
    decreases entries.len(),
{
    if entries.len() == 0 {
        seq![]
    } else {
        doc_id_record(entries[0].0, encode_utf8(entries[0].1)) + doc_id_file(entries.drop_first())
    }
}

/// The record of the URL file for page `id` at `url`.
pub fn encode_doc_id_record(id: u32, url: &str) -> (r: Vec<u8>)
    ensures
        r@ == doc_id_record(id, encode_utf8(url@)),
{
    let mut r = u32_to_le_bytes(id);
    r.push(TAB);
    r.extend_from_slice(url.as_bytes());
    r.push(CR);
    r.push(LF);
    assert(r@ =~= doc_id_record(id, encode_utf8(url@)));
    r
}

/// Whether `\r\n` starts at index `i` of `d`.
pub open spec fn crlf_at(d: Seq<u8>, i: int) -> bool {
    0 <= i && i + 1 < d.len() && d[i] == CR && d[i + 1] == LF
}

/// The index of the first `\r\n` at or after `from`, or the end of `d` when there is none.
pub open spec fn line_end(d: Seq<u8>, from: int) -> int
    decreases d.len() - from,
{
    if from >= d.len() {
        from
    } else if crlf_at(d, from) {
        from
    } else {
        line_end(d, from + 1)
    }
}

/// `line_end` is the first `\r\n` at or after `from`, or the end.
pub proof fn lemma_line_end(d: Seq<u8>, from: int)
    requires
        0 <= from <= d.len(),
    ensures
        from <= line_end(d, from) <= d.len(),
        line_end(d, from) < d.len() ==> crlf_at(d, line_end(d, from)),
        forall|j: int| from <= j < line_end(d, from) ==> !crlf_at(d, j),
    decreases d.len() - from,
{
    if from < d.len() && !crlf_at(d, from) {
        lemma_line_end(d, from + 1);
    }
}

/// The `(id, url)` entries read from the URL file `d` starting at byte `pos`:
/// a record is a 4-byte little-endian id, an optional tab, and the URL up to
/// the next `\r\n` (or the end); records with an empty URL are skipped, and a
/// tail shorter than 4 bytes is ignored. `None` when some URL is not UTF-8.
pub open spec fn doc_id_entries(d: Seq<u8>, pos: int) -> Option<Seq<(u32, Seq<char>)>>
    decreases d.len() - pos,
{
    if pos < 0 || pos + 4 > d.len() {
        Some(seq![])
    } else {
        let id = spec_u32_from_le_bytes(d.subrange(pos, pos + 4));
        let start = if pos + 4 < d.len() && d[pos + 4] == TAB { pos + 5 } else { pos + 4 };
        let end = line_end(d, start);
        proof {
            lemma_line_end(d, start);
        }
        let next = if end + 1 < d.len() { end + 2 } else { end };
        let url = d.subrange(start, end);
        if start < end {
            if !valid_utf8(url) {
                None
            } else {
                match doc_id_entries(d, next) {
                    None => None,
                    Some(rest) => Some(seq![(id, decode_utf8(url))] + rest),
                }
            }
        } else {
            doc_id_entries(d, next)
        }
    }
}

/// Reads the `(id, url)` entries of the URL file (see `doc_id_entries`);
/// `None` exactly when some URL is not valid UTF-8.
pub fn read_doc_id(data: &[u8]) -> (r: Option<Vec<(u32, String)>>)
    ensures
        match doc_id_entries(data@, 0) {
            None => r is None,
            Some(entries) => r matches Some(v) && v@.len() == entries.len()
                && forall|i: int| 0 <= i < entries.len() ==> (#[trigger] v@[i]).0 == entries[i].0 && v@[i].1@ == entries[i].1,
        },
{
    let len = data.len();
    let ghost d = data@;
    let mut result: Vec<(u32, String)> = Vec::new();
    let mut pos: usize = 0;
    while len - pos >= 4
        invariant
            len == d.len(),
            d == data@,
            pos <= len,
            doc_id_entries(d, 0) is Some <==> doc_id_entries(d, pos as int) is Some,
            doc_id_entries(d, 0) matches Some(all) ==> (doc_id_entries(d, pos as int) matches Some(rest)
                && all.len() == result@.len() + rest.len()
                && (forall|i: int| 0 <= i < result@.len() ==> (#[trigger] result@[i]).0 == all[i].0 && result@[i].1@ == all[i].1)
                && (forall|i: int| 0 <= i < rest.len() ==> #[trigger] rest[i] == all[result@.len() + i])),
        decreases len - pos,
    {
        let id = u32_from_le_bytes(slice_subrange(data, pos, pos + 4));
        let mut start = pos + 4;
        if start < len && data[start] == TAB {
            start = start + 1;
        }
        let mut end = start;
        while end < len
            invariant
                len == d.len(),
                d == data@,
                start <= end <= len,
                line_end(d, start as int) == line_end(d, end as int),
            ensures
                end == line_end(d, start as int),
            decreases len - end,
        {
            if end + 1 < len && data[end] == CR && data[end + 1] == LF {
                break;
            }
            end += 1;
        }
        proof {
            lemma_line_end(d, start as int);
        }
        let next = if end < len && len - end >= 2 { end + 2 } else { end };
        let ghost before = result@;
        let ghost old_rest = doc_id_entries(d, pos as int);
        let ghost new_rest = doc_id_entries(d, next as int);
        if start < end {
            match utf8_string(slice_subrange(data, start, end)) {
                Some(url) => {
                    proof {
                        assert(old_rest == match new_rest {
                            None => None,
                            Some(rest) => Some(seq![(id, url@)] + rest),
                        });
                    }
                    result.push((id, url));
                    proof {
                        if doc_id_entries(d, 0) is Some {
                            let all = doc_id_entries(d, 0)->0;
                            let o = old_rest->0;
                            let n = new_rest->0;
                            assert(o == seq![(id, url@)] + n);
                            assert(o[0] == (id, url@));
                            assert forall|i: int| 0 <= i < n.len() implies #[trigger] n[i] == all[result@.len() + i] by {
                                assert(n[i] == o[i + 1]);
                            }
                            assert forall|i: int| 0 <= i < result@.len() implies (#[trigger] result@[i]).0 == all[i].0 && result@[i].1@ == all[i].1 by {
                                if i < before.len() {
                                    assert(result@[i] == before[i]);
                                } else {
                                    assert(all[i] == o[0]);
                                }
                            }
                        }
                    }
                },
                None => {
                    return None;
                },
            }
        } else {
            assert(old_rest == new_rest);
        }
        pos = next;
    }
    proof {
        if doc_id_entries(d, 0) is Some {
            assert(doc_id_entries(d, pos as int) == Some(Seq::<(u32, Seq<char>)>::empty()));
            let all = doc_id_entries(d, 0)->0;
            assert(all.len() == result@.len());
        }
    }
    Some(result)
}


// ---------------------------------------------------------------- doc_raw.bin

/// The width, in columns, that stored pages are rendered to as text.
pub const TEXT_WIDTH: usize = 200;

/// Declares `html2text::Error`, the error `html2text::from_read` returns; its
/// contents are not looked at.
#[verifier::external_type_specification]
#[verifier::external_body]
pub struct ExHtmlToTextError(html2text::Error);

/// What `html2text::from_read` gives for these HTML bytes at this width:
/// `Some(text)`, or `None` when it returns an error.
pub uninterp spec fn html2text_render(html: Seq<u8>, width: usize) -> Option<Seq<char>>;

/// Renders HTML to plain text wrapped at `width` columns with
/// `html2text::from_read`. Its contract claims only that the outcome is
/// determined by the bytes and the width; what the text is, and on which
/// inputs the crate returns an error, is not stated.
#[verifier::external_body]
fn html_to_text(html: &[u8], width: usize) -> (r: Result<String, html2text::Error>)
    ensures
        match r {
            Ok(text) => html2text_render(html@, width) == Some(text@),
            Err(_) => html2text_render(html@, width) is None,
        },
{
    html2text::from_read(html, width)
}

/// One record of the page file: the page id, a tab, the HTML's length in
/// bytes (cut to its low 32 bits), a tab, the HTML's bytes and `\r\n\r\n`; numbers are
/// 4 bytes, little endian.
pub open spec fn doc_raw_record(id: u32, html: Seq<u8>) -> Seq<u8> {
    spec_u32_to_le_bytes(id) + seq![TAB] + spec_u32_to_le_bytes(html.len() as u32) + seq![TAB]
        + html + seq![CR, LF, CR, LF]
}

/// The page file made of the given `(id, html)` records, in order.
pub open spec fn doc_raw_file(pages: Seq<(u32, Seq<char>)>) -> Seq<u8>
    decreases pages.len(),
{
    if pages.len() == 0 {
        seq![]
    } else {
        doc_raw_record(pages[0].0, encode_utf8(pages[0].1)) + doc_raw_file(pages.drop_first())
    }
}

/// The record of the page file for page `id` with content `html`.
pub fn encode_doc_raw_record(id: u32, html: &str) -> (r: Vec<u8>)
    ensures
        r@ == doc_raw_record(id, encode_utf8(html@)),
{
    let bytes = html.as_bytes();
    let n = bytes.len();
    let size = n as u32;
    let mut r = u32_to_le_bytes(id);
    r.push(TAB);
    r.extend_from_slice(u32_to_le_bytes(size).as_slice());
    r.push(TAB);
    r.extend_from_slice(bytes);
    r.push(CR);
    r.push(LF);
    r.push(CR);
    r.push(LF);
    assert(r@ =~= doc_raw_record(id, encode_utf8(html@)));
    r
}

/// The `(id, size, html)` records read from the page file `d` starting at byte
/// `pos`: a record is a 4-byte id, one skipped byte, a 4-byte size, one skipped
/// byte, `size` bytes of HTML and four more skipped bytes; numbers are little
/// endian. `None` when a record runs past the end or its HTML is not UTF-8.
pub open spec fn raw_pages(d: Seq<u8>, pos: int) -> Option<Seq<(u32, u32, Seq<u8>)>>
    decreases d.len() + 4 - pos,
{
    if pos < 0 || pos >= d.len() {
        Some(seq![])
    } else if pos + 9 > d.len() {
        None
    } else {
        let id = spec_u32_from_le_bytes(d.subrange(pos, pos + 4));
        let size = spec_u32_from_le_bytes(d.subrange(pos + 5, pos + 9));
        let start = pos + 10;
        if start + size > d.len() || !valid_utf8(d.subrange(start, start + size)) {
            None
        } else {
            match raw_pages(d, start + size + 4) {
                None => None,
                Some(rest) => Some(seq![(id, size, d.subrange(start, start + size))] + rest),
            }
        }
    }
}

/// The stored pages of the page file with their HTML rendered as text at
/// `TEXT_WIDTH` columns; `None` when the file is malformed (see `raw_pages`) or
/// a page cannot be rendered.
pub open spec fn rendered_pages(d: Seq<u8>) -> Option<Seq<(u32, u32, Seq<char>)>> {
    match raw_pages(d, 0) {
        None => None,
        Some(pages) => if forall|i: int| 0 <= i < pages.len() ==> (#[trigger] html2text_render(pages[i].2, TEXT_WIDTH)) is Some {
            Some(Seq::new(pages.len(), |i: int| (pages[i].0, pages[i].1, html2text_render(pages[i].2, TEXT_WIDTH)->0)))
        } else {
            None
        },
    }
}

/// Reads the stored pages of the page file and renders each as text (see
/// `rendered_pages`); `None` exactly when the file is malformed or a page
/// cannot be rendered.
pub fn read_awled_html(data: &[u8]) -> (r: Option<Vec<(u32, u32, String)>>)
    ensures
        match rendered_pages(data@) {
            None => r is None,
            Some(pages) => r matches Some(v) && v@.len() == pages.len()
                && forall|i: int| 0 <= i < pages.len() ==> (#[trigger] v@[i]).0 == pages[i].0
                    && v@[i].1 == pages[i].1 && v@[i].2@ == pages[i].2,
        },
{
    let len = data.len();
    let ghost d = data@;
    let mut result: Vec<(u32, u32, String)> = Vec::new();
    let mut pos: usize = 0;
    while pos < len
        invariant
            len == d.len(),
            d == data@,
            pos <= len,
            raw_pages(d, 0) is Some <==> raw_pages(d, pos as int) is Some,
            raw_pages(d, 0) matches Some(all) ==> (raw_pages(d, pos as int) matches Some(rest)
                && all.len() == result@.len() + rest.len()
                && (forall|i: int| 0 <= i < result@.len() ==> (#[trigger] result@[i]).0 == all[i].0
                    && result@[i].1 == all[i].1 && html2text_render(all[i].2, TEXT_WIDTH) == Some(result@[i].2@))
                && (forall|i: int| 0 <= i < rest.len() ==> #[trigger] rest[i] == all[result@.len() + i])),
        decreases len - pos,
    {
        if len - pos < 9 {
            return None;
        }
        let id = u32_from_le_bytes(slice_subrange(data, pos, pos + 4));
        let size = u32_from_le_bytes(slice_subrange(data, pos + 5, pos + 9));
        let avail = len - (pos + 9);
        if avail < 1 || avail - 1 < size as usize {
            return None;
        }
        let start = pos + 10;
        let html = slice_subrange(data, start, start + size as usize);
        if utf8_str(html).is_none() {
            return None;
        }
        let after = start + size as usize;
        let next = if len - after >= 4 { after + 4 } else { len };
        let ghost before = result@;
        let ghost old_rest = raw_pages(d, pos as int);
        let ghost new_rest = raw_pages(d, next as int);
        proof {
            if next == len {
                assert(new_rest == raw_pages(d, after + 4));
            }
            assert(old_rest == match new_rest {
                None => None,
                Some(rest) => Some(seq![(id, size, html@)] + rest),
            });
        }
        let text = match html_to_text(html, TEXT_WIDTH) {
            Ok(text) => text,
            Err(_) => {
                proof {
                    if raw_pages(d, 0) is Some {
                        let all = raw_pages(d, 0)->0;
                        let k = result@.len() as int;
                        assert(all[k] == old_rest->0[0]);
                        assert(html2text_render(all[k].2, TEXT_WIDTH) is None);
                    }
                }
                return None;
            },
        };
        result.push((id, size, text));
        proof {
            if raw_pages(d, 0) is Some {
                let all = raw_pages(d, 0)->0;
                let o = old_rest->0;
                let n = new_rest->0;
                assert(o[0] == (id, size, html@));
                assert forall|i: int| 0 <= i < n.len() implies #[trigger] n[i] == all[result@.len() + i] by {
                    assert(n[i] == o[i + 1]);
                }
                assert forall|i: int| 0 <= i < result@.len() implies (#[trigger] result@[i]).0 == all[i].0
                    && result@[i].1 == all[i].1 && html2text_render(all[i].2, TEXT_WIDTH) == Some(result@[i].2@) by {
                    if i < before.len() {
                        assert(result@[i] == before[i]);
                    } else {
                        assert(all[i] == o[0]);
                    }
                }
            }
        }
        pos = next;
    }
    proof {
        if raw_pages(d, 0) is Some {
            let all = raw_pages(d, 0)->0;
            assert(all.len() == result@.len());
            assert forall|i: int| 0 <= i < all.len() implies (#[trigger] html2text_render(all[i].2, TEXT_WIDTH)) is Some by {
                assert(html2text_render(all[i].2, TEXT_WIDTH) == Some(result@[i].2@));
            }
        }
    }
    Some(result)
}


// ---------------------------------------------------------------- laws

/// `line_end` is the `\r\n` that closes a stretch without one.
proof fn lemma_line_end_at(d: Seq<u8>, from: int, e: int)
    requires
        0 <= from <= e < d.len(),
        crlf_at(d, e),
        forall|j: int| from <= j < e ==> !crlf_at(d, j),
    ensures
        line_end(d, from) == e,
    decreases e - from,
{
    if from < e {
        lemma_line_end_at(d, from + 1, e);
    }
}

/// Searching for `\r\n` after a prefix is searching the rest.
proof fn lemma_line_end_shift(a: Seq<u8>, b: Seq<u8>, p: int)
    requires
        0 <= p,
    ensures
        line_end(a + b, a.len() + p) == a.len() + line_end(b, p),
    decreases b.len() - p,
{
    let d = a + b;
    if p < b.len() {
        assert(crlf_at(d, a.len() + p) == crlf_at(b, p));
        if !crlf_at(b, p) {
            lemma_line_end_shift(a, b, p + 1);
        }
    }
}

/// Reading the URL file after a prefix is reading the rest.
proof fn lemma_doc_id_entries_shift(a: Seq<u8>, b: Seq<u8>, p: int)
    requires
        0 <= p,
    ensures
        doc_id_entries(a + b, a.len() + p) == doc_id_entries(b, p),
    decreases b.len() - p,
{
    let d = a + b;
    let pos = a.len() + p;
    if p + 4 > b.len() {
    } else {
        assert(d.subrange(pos, pos + 4) =~= b.subrange(p, p + 4));
        let start = if p + 4 < b.len() && b[p + 4] == TAB { p + 5 } else { p + 4 };
        lemma_line_end_shift(a, b, start);
        lemma_line_end(b, start);
        let end = line_end(b, start);
        assert(d.subrange(a.len() + start, a.len() + end) =~= b.subrange(start, end));
        let next = if end + 1 < b.len() { end + 2 } else { end };
        lemma_doc_id_entries_shift(a, b, next);
    }
}

/// Whether `d` holds no `\r\n`.
pub open spec fn no_crlf(d: Seq<u8>) -> bool {
    forall|j: int| !#[trigger] crlf_at(d, j)
}

/// Law: how one record of the URL file is read. A file that starts with the
/// id's 4 little-endian bytes, a tab, the UTF-8 bytes of a URL without `\r\n`
/// and `\r\n` gives the entry `(id, url)` followed by the entries of the rest
/// of the file; a record whose URL is empty is skipped.
pub proof fn law_doc_id_reads_record(id: u32, url: Seq<char>, rest: Seq<u8>)
    requires
        no_crlf(encode_utf8(url)),
    ensures
        doc_id_entries(spec_u32_to_le_bytes(id) + seq![9u8] + encode_utf8(url) + seq![13u8, 10u8] + rest, 0)
            == if url.len() > 0 {
                match doc_id_entries(rest, 0) {
                    None => None,
                    Some(r) => Some(seq![(id, url)] + r),
                }
            } else {
                doc_id_entries(rest, 0)
            },
{
    let u = encode_utf8(url);
    if url.len() > 0 {
        assert(u.len() > 0);
    } else {
        assert(u =~= Seq::<u8>::empty());
    }
    let rec = spec_u32_to_le_bytes(id) + seq![9u8] + u + seq![13u8, 10u8];
    let d = rec + rest;
    vstd::bytes::lemma_auto_spec_u32_to_from_le_bytes();
    assert(d.subrange(0, 4) =~= spec_u32_to_le_bytes(id));
    assert(d[4] == TAB);
    let e: int = 5 + u.len() as int;
    assert forall|j: int| 5 <= j < e implies !crlf_at(d, j) by {
        if j + 1 < e {
            assert(d[j] == u[j - 5]);
            assert(d[j + 1] == u[j + 1 - 5]);
            assert(!crlf_at(u, j - 5));
        } else {
            assert(d[j + 1] == CR);
        }
    }
    assert(crlf_at(d, e));
    lemma_line_end_at(d, 5, e);
    assert(d.subrange(5, e) =~= u);
    assert(rec.len() == e + 2);
    lemma_doc_id_entries_shift(rec, rest, 0);
    assert(rec.len() + 0 == e + 2);
}

/// Law: the URL file written by `encode_doc_id_record` reads back as the
/// entries written, provided each URL is non-empty and its bytes hold no
/// `\r\n`.
pub proof fn law_doc_id_round_trip(entries: Seq<(u32, Seq<char>)>)
    requires
        forall|i: int| 0 <= i < entries.len() ==> (#[trigger] entries[i]).1.len() > 0,
        forall|i: int| 0 <= i < entries.len() ==> no_crlf(encode_utf8(#[trigger] entries[i].1)),
    ensures
        doc_id_entries(doc_id_file(entries), 0) == Some(entries),
    decreases entries.len(),
{
    if entries.len() == 0 {
        assert(doc_id_entries(doc_id_file(entries), 0) == Some(Seq::<(u32, Seq<char>)>::empty()));
        assert(entries =~= Seq::<(u32, Seq<char>)>::empty());
    } else {
        let rest = entries.drop_first();
        assert forall|i: int| 0 <= i < rest.len() implies (#[trigger] rest[i]).1.len() > 0 by {
            assert(rest[i] == entries[i + 1]);
        }
        assert forall|i: int| 0 <= i < rest.len() implies no_crlf(encode_utf8(#[trigger] rest[i].1)) by {
            assert(rest[i] == entries[i + 1]);
        }
        law_doc_id_round_trip(rest);
        let (id, url) = entries[0];
        assert(entries[0].1.len() > 0);
        assert(no_crlf(encode_utf8(entries[0].1)));
        law_doc_id_reads_record(id, url, doc_id_file(rest));
        assert(doc_id_record(id, encode_utf8(url)) + doc_id_file(rest)
            =~= spec_u32_to_le_bytes(id) + seq![9u8] + encode_utf8(url) + seq![13u8, 10u8] + doc_id_file(rest));
        assert(seq![(id, url)] + entries.drop_first() =~= entries);
    }
}

/// Reading the page file after a prefix is reading the rest.
proof fn lemma_raw_pages_shift(a: Seq<u8>, b: Seq<u8>, p: int)
    requires
        0 <= p,
    ensures
        raw_pages(a + b, a.len() + p) == raw_pages(b, p),
    decreases b.len() + 4 - p,
{
    let d = a + b;
    let pos = a.len() + p;
    if p >= b.len() || p + 9 > b.len() {
    } else {
        assert(d.subrange(pos, pos + 4) =~= b.subrange(p, p + 4));
        assert(d.subrange(pos + 5, pos + 9) =~= b.subrange(p + 5, p + 9));
        let size = spec_u32_from_le_bytes(b.subrange(p + 5, p + 9));
        let start = p + 10;
        if start + size <= b.len() {
            assert(d.subrange(a.len() + start, a.len() + start + size) =~= b.subrange(start, start + size));
            lemma_raw_pages_shift(a, b, start + size + 4);
        }
    }
}

/// The records the page file of `pages` reads back as: each page's id, the
/// length of its HTML in bytes, and the HTML's bytes.
pub open spec fn stored_pages(pages: Seq<(u32, Seq<char>)>) -> Seq<(u32, u32, Seq<u8>)> {
    Seq::new(pages.len(), |i: int| (pages[i].0, encode_utf8(pages[i].1).len() as u32, encode_utf8(pages[i].1)))
}

/// Law: how one record of the page file is read. A file that starts with the
/// id's 4 little-endian bytes, a byte, the 4 little-endian bytes of the HTML's
/// length, a byte, the HTML's UTF-8 bytes and 4 more bytes gives the page
/// `(id, length, html)` followed by the pages of the rest of the file (and
/// fails when the rest does).
pub proof fn law_raw_pages_reads_record(id: u32, html: Seq<char>, rest: Seq<u8>)
    requires
        encode_utf8(html).len() < 0x1_0000_0000,
    ensures
        raw_pages(spec_u32_to_le_bytes(id) + seq![9u8] + spec_u32_to_le_bytes(encode_utf8(html).len() as u32)
            + seq![9u8] + encode_utf8(html) + seq![13u8, 10u8, 13u8, 10u8] + rest, 0)
            == match raw_pages(rest, 0) {
                None => None,
                Some(r) => Some(seq![(id, encode_utf8(html).len() as u32, encode_utf8(html))] + r),
            },
{
    let h = encode_utf8(html);
    let size = h.len() as u32;
    assert(size == h.len());
    let rec = spec_u32_to_le_bytes(id) + seq![9u8] + spec_u32_to_le_bytes(size) + seq![9u8] + h
        + seq![13u8, 10u8, 13u8, 10u8];
    let d = rec + rest;
    vstd::bytes::lemma_auto_spec_u32_to_from_le_bytes();
    assert(d.subrange(0, 4) =~= spec_u32_to_le_bytes(id));
    assert(d.subrange(5, 9) =~= spec_u32_to_le_bytes(size));
    assert(d.subrange(10, 10 + h.len() as int) =~= h);
    assert(rec.len() == 10 + h.len() + 4);
    lemma_raw_pages_shift(rec, rest, 0);
}

/// Law: the page file written by `encode_doc_raw_record` reads back as the
/// pages written, provided each page's HTML is shorter than 2^32 bytes.
pub proof fn law_doc_raw_round_trip(pages: Seq<(u32, Seq<char>)>)
    requires
        forall|i: int| 0 <= i < pages.len() ==> encode_utf8(#[trigger] pages[i].1).len() < 0x1_0000_0000,
    ensures
        raw_pages(doc_raw_file(pages), 0) == Some(stored_pages(pages)),
    decreases pages.len(),
{
    if pages.len() == 0 {
        assert(stored_pages(pages) =~= Seq::<(u32, u32, Seq<u8>)>::empty());
    } else {
        let rest = pages.drop_first();
        assert forall|i: int| 0 <= i < rest.len() implies encode_utf8(#[trigger] rest[i].1).len() < 0x1_0000_0000 by {
            assert(rest[i] == pages[i + 1]);
        }
        law_doc_raw_round_trip(rest);
        let (id, html) = pages[0];
        assert(encode_utf8(pages[0].1).len() < 0x1_0000_0000);
        let h = encode_utf8(html);
        law_raw_pages_reads_record(id, html, doc_raw_file(rest));
        assert(doc_raw_record(id, h) + doc_raw_file(rest) =~= spec_u32_to_le_bytes(id) + seq![9u8]
            + spec_u32_to_le_bytes(h.len() as u32) + seq![9u8] + h + seq![13u8, 10u8, 13u8, 10u8] + doc_raw_file(rest));
        assert(seq![(id, h.len() as u32, h)] + stored_pages(rest) =~= stored_pages(pages));
    }
}

/// Law: reading back a page file written by `encode_doc_raw_record` gives,
/// for each page written, its id, its length in bytes and html2text's
/// rendering of its HTML at 200 columns; it fails exactly when some page
/// cannot be rendered.
pub proof fn law_read_awled_html_round_trip(pages: Seq<(u32, Seq<char>)>)
    requires
        forall|i: int| 0 <= i < pages.len() ==> encode_utf8(#[trigger] pages[i].1).len() < 0x1_0000_0000,
    ensures
        (forall|i: int| 0 <= i < pages.len() ==> (#[trigger] html2text_render(encode_utf8(pages[i].1), 200)) is Some)
            ==> rendered_pages(doc_raw_file(pages)) == Some(Seq::new(pages.len(), |i: int|
                (pages[i].0, encode_utf8(pages[i].1).len() as u32, html2text_render(encode_utf8(pages[i].1), 200)->0))),
        !(forall|i: int| 0 <= i < pages.len() ==> (#[trigger] html2text_render(encode_utf8(pages[i].1), 200)) is Some)
            ==> rendered_pages(doc_raw_file(pages)) is None,
{
    law_doc_raw_round_trip(pages);
    let sp = stored_pages(pages);
    assert forall|i: int| 0 <= i < pages.len() implies #[trigger] sp[i].2 == encode_utf8(pages[i].1) by {}
    if forall|i: int| 0 <= i < pages.len() ==> (#[trigger] html2text_render(encode_utf8(pages[i].1), 200)) is Some {
        assert forall|i: int| 0 <= i < sp.len() implies (#[trigger] html2text_render(sp[i].2, TEXT_WIDTH)) is Some by {
            assert(sp[i].2 == encode_utf8(pages[i].1));
        }
        assert(rendered_pages(doc_raw_file(pages)) == Some(Seq::new(pages.len(), |i: int|
            (pages[i].0, encode_utf8(pages[i].1).len() as u32, html2text_render(encode_utf8(pages[i].1), 200)->0))));
    } else {
        let k = choose|k: int| 0 <= k < pages.len() && !(html2text_render(encode_utf8(pages[k].1), 200) is Some);
        assert(sp[k].2 == encode_utf8(pages[k].1));
        assert(!(html2text_render(sp[k].2, TEXT_WIDTH) is Some));
    }
}

} // verus!
