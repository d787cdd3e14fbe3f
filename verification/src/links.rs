//! Finding the links of an HTML page: anchor tags, their `href` values, which
//! of them a crawler follows, and how relative links are made absolute.
use vstd::prelude::*;

use crate::text::{
    chars_of, copy_chars, find_chars, find_from, lemma_find_from, lemma_find_from_first, lemma_find_from_shift,
    lemma_occurs_at_shift, occurs_at, push_chars, starts_with, string_of,
};

verus! {

/// `<a `: the start of an anchor tag.
pub open spec fn anchor_open() -> Seq<char> {
    seq!['<', 'a', ' ']
}

/// `>`: the end of a tag.
pub open spec fn tag_close() -> Seq<char> {
    seq!['>']
}

/// `href="`: the start of an `href` attribute's value.
pub open spec fn href_open() -> Seq<char> {
    seq!['h', 'r', 'e', 'f', '=', '"']
}

/// `"`: the end of an attribute's value.
pub open spec fn quote() -> Seq<char> {
    seq!['"']
}

/// `/`
pub open spec fn slash() -> Seq<char> {
    seq!['/']
}

/// `http`
pub open spec fn http() -> Seq<char> {
    seq!['h', 't', 't', 'p']
}

/// Whether a tag that has an `href="` also has the `"` that closes its value.
pub open spec fn href_closed(tag: Seq<char>) -> bool {
    match find_from(tag, href_open(), 0) {
        None => true,
        Some(k) => find_from(tag, quote(), k + 6) is Some,
    }
}

/// The value of the first `href="..."` in a tag, or the empty text when it has none.
pub open spec fn tag_href(tag: Seq<char>) -> Seq<char> {
    match find_from(tag, href_open(), 0) {
        None => seq![],
        Some(k) => match find_from(tag, quote(), k + 6) {
            Some(e) => tag.subrange(k + 6, e),
            None => seq![],
        },
    }
}

/// Whether a link target is one a crawler follows: not empty, not the bare
/// root `/`, and either starting with `http` or with `/`.
pub open spec fn followable(href: Seq<char>) -> bool {
    !(href.len() == 0 || href == slash()) && (starts_with(href, http()) || starts_with(href, slash()))
}

/// The absolute form of a link found on a page of `protocol//domain`: a
/// site-relative link (starting with `/`) gets `protocol//domain` in front.
pub open spec fn absolute_link(href: Seq<char>, protocol: Seq<char>, domain: Seq<char>) -> Seq<char> {
    if starts_with(href, slash()) {
        protocol + slash() + slash() + domain + href
    } else {
        href
    }
}

/// The links of the anchor tags of `page` from index `pos` on, in order,
/// made absolute; anchors whose target is not followable are skipped.
/// Scanning stops where a tag is not closed.
pub open spec fn page_links(page: Seq<char>, pos: int, protocol: Seq<char>, domain: Seq<char>) -> Seq<Seq<char>>
    decreases page.len() - pos,
{
    if pos < 0 || pos >= page.len() {
        seq![]
    } else {
        match find_from(page, anchor_open(), pos) {
            None => seq![],
            Some(st) => match find_from(page, tag_close(), st) {
                None => seq![],
                Some(g) => {
                    proof {
                        lemma_find_from(page, anchor_open(), pos);
                        lemma_find_from(page, tag_close(), st);
                    }
                    let href = tag_href(page.subrange(st, g + 1));
                    let rest = page_links(page, g + 1, protocol, domain);
                    if followable(href) {
                        seq![absolute_link(href, protocol, domain)] + rest
                    } else {
                        rest
                    }
                },
            },
        }
    }
}

/// Why link extraction cannot go on.
#[derive(Debug, Clone, Copy, PartialEq, Eq, Structural)]
pub enum LinkDefect {
    /// An `<a ` tag without a `>` after it.
    UnclosedTag,
    /// An `href="` inside a tag without the `"` that closes it inside the tag.
    UnclosedHref,
}

/// The first defect met when scanning `page` for anchor tags from index `pos` on.
pub open spec fn page_defect(page: Seq<char>, pos: int) -> Option<LinkDefect>
    decreases page.len() - pos,
{
    if pos < 0 || pos >= page.len() {
        None
    } else {
        match find_from(page, anchor_open(), pos) {
            None => None,
            Some(st) => match find_from(page, tag_close(), st) {
                None => Some(LinkDefect::UnclosedTag),
                Some(g) => {
                    proof {
                        lemma_find_from(page, anchor_open(), pos);
                        lemma_find_from(page, tag_close(), st);
                    }
                    if !href_closed(page.subrange(st, g + 1)) {
                        Some(LinkDefect::UnclosedHref)
                    } else {
                        page_defect(page, g + 1)
                    }
                },
            },
        }
    }
}

fn anchor_open_chars() -> (v: Vec<char>)
    ensures
        v@ == anchor_open(),
{
    let v = vec!['<', 'a', ' '];
    assert(v@ =~= anchor_open());
    v
}

fn tag_close_chars() -> (v: Vec<char>)
    ensures
        v@ == tag_close(),
{
    let v = vec!['>'];
    assert(v@ =~= tag_close());
    v
}

fn href_open_chars() -> (v: Vec<char>)
    ensures
        v@ == href_open(),
{
    let v = vec!['h', 'r', 'e', 'f', '=', '"'];
    assert(v@ =~= href_open());
    v
}

fn quote_chars() -> (v: Vec<char>)
    ensures
        v@ == quote(),
{
    let v = vec!['"'];
    assert(v@ =~= quote());
    v
}

/// Where the `href` value of a tag lies: `Some((lo, hi))` with the value at
/// `tag[lo..hi]` (`lo == hi` when the tag has no `href="`), or `None` when the
/// value is not closed.
fn href_span(tag: &Vec<char>) -> (r: Option<(usize, usize)>)
    ensures
        r is Some <==> href_closed(tag@),
        r matches Some((lo, hi)) ==> lo <= hi <= tag@.len() && tag@.subrange(lo as int, hi as int) == tag_href(tag@),
{
    let open = href_open_chars();
    match find_chars(tag, &open, 0) {
        None => {
            assert(tag@.subrange(0, 0) =~= tag_href(tag@));
            Some((0, 0))
        },
        Some(k) => {
            proof {
                lemma_find_from(tag@, href_open(), 0);
            }
            assert(k + 6 <= tag.len());
            let q = quote_chars();
            match find_chars(tag, &q, k + 6) {
                None => None,
                Some(e) => {
                    proof {
                        lemma_find_from(tag@, quote(), k + 6);
                    }
                    Some((k + 6, e))
                },
            }
        },
    }
}

/// The value of the first `href="..."` in an anchor tag's text, or the empty
/// string when the tag has no `href="`.
pub fn get_href_by_a_tag(a_html: &str) -> (href: String)
    requires
        href_closed(a_html@),
    ensures
        href@ == tag_href(a_html@),
{
    let tag = chars_of(a_html);
    match href_span(&tag) {
        Some((lo, hi)) => string_of(&tag, lo, hi),
        None => String::new(),
    }
}

fn starts_with_chars(s: &Vec<char>, pat: &Vec<char>) -> (r: bool)
    ensures
        r == starts_with(s@, pat@),
{
    match find_chars(s, pat, 0) {
        Some(i) => {
            proof {
                lemma_find_from(s@, pat@, 0);
            }
            i == 0
        },
        None => {
            proof {
                lemma_find_from(s@, pat@, 0);
            }
            false
        },
    }
}

fn followable_chars(href: &Vec<char>) -> (r: bool)
    ensures
        r == followable(href@),
{
    if href.len() == 0 || (href.len() == 1 && href[0] == '/') {
        proof {
            if href@.len() == 1 && href@[0] == '/' {
                assert(href@ =~= slash());
            }
        }
        return false;
    }
    assert(href@ != slash()) by {
        if href@ == slash() {
            assert(href@[0] == '/');
        }
    }
    let http_v = vec!['h', 't', 't', 'p'];
    let slash_v = vec!['/'];
    assert(http_v@ =~= http());
    assert(slash_v@ =~= slash());
    starts_with_chars(href, &http_v) || starts_with_chars(href, &slash_v)
}

/// Whether a link target is one to follow (see `followable`).
pub fn valid_href(href: &str) -> (r: bool)
    ensures
        r == followable(href@),
{
    let chars = chars_of(href);
    followable_chars(&chars)
}


/// The protocol (the text before the first `/`) and the domain (the text
/// between the second and the third `/`, or the end) of a URL; `None` when the
/// URL has fewer than two `/`.
pub open spec fn url_parts(url: Seq<char>) -> Option<(Seq<char>, Seq<char>)> {
    match find_from(url, slash(), 0) {
        None => None,
        Some(a) => match find_from(url, slash(), a + 1) {
            None => None,
            Some(b) => {
                let end = match find_from(url, slash(), b + 1) {
                    Some(c) => c,
                    None => url.len() as int,
                };
                Some((url.subrange(0, a), url.subrange(b + 1, end)))
            },
        },
    }
}

/// Splits a URL such as `https://host/path` into its protocol (`https:`) and
/// domain (`host`); `None` when the URL has fewer than two `/`.
pub fn split_url(url: &str) -> (r: Option<(String, String)>)
    ensures
        match url_parts(url@) {
            None => r is None,
            Some((protocol, domain)) => r matches Some((p, d)) && p@ == protocol && d@ == domain,
        },
{
    let u = chars_of(url);
    let slash_v = vec!['/'];
    assert(slash_v@ =~= slash());
    match find_chars(&u, &slash_v, 0) {
        None => None,
        Some(a) => {
            proof {
                lemma_find_from(u@, slash(), 0);
            }
            assert(a + 1 <= u.len());
            match find_chars(&u, &slash_v, a + 1) {
                None => None,
                Some(b) => {
                    proof {
                        lemma_find_from(u@, slash(), a + 1);
                    }
                    assert(b + 1 <= u.len());
                    let end = match find_chars(&u, &slash_v, b + 1) {
                        Some(c) => c,
                        None => u.len(),
                    };
                    proof {
                        lemma_find_from(u@, slash(), b + 1);
                    }
                    Some((string_of(&u, 0, a), string_of(&u, b + 1, end)))
                },
            }
        },
    }
}

/// The absolute form of a followable link (see `absolute_link`).
fn make_absolute(href: &Vec<char>, protocol: &Vec<char>, domain: &Vec<char>) -> (link: String)
    ensures
        link@ == absolute_link(href@, protocol@, domain@),
{
    let slash_v = vec!['/'];
    assert(slash_v@ =~= slash());
    if starts_with_chars(href, &slash_v) {
        let mut link = String::new();
        push_chars(&mut link, protocol, 0, protocol.len());
        push_chars(&mut link, &slash_v, 0, 1);
        push_chars(&mut link, &slash_v, 0, 1);
        push_chars(&mut link, domain, 0, domain.len());
        push_chars(&mut link, href, 0, href.len());
        assert(protocol@.subrange(0, protocol@.len() as int) =~= protocol@);
        assert(domain@.subrange(0, domain@.len() as int) =~= domain@);
        assert(href@.subrange(0, href@.len() as int) =~= href@);
        assert(slash_v@.subrange(0, 1) =~= slash());
        assert(link@ =~= protocol@ + slash() + slash() + domain@ + href@);
        link
    } else {
        let link = string_of(href, 0, href.len());
        assert(href@.subrange(0, href@.len() as int) =~= href@);
        link
    }
}

/// The links of the anchor tags of an HTML page, in order, made absolute
/// against `protocol//domain`, skipping targets that are not followable
/// (see `page_links`). Fails with the first defect (see `page_defect`) when an
/// anchor tag or an `href` value is not closed.
pub fn scan_links(html: &str, protocol: &str, domain: &str) -> (r: Result<Vec<String>, LinkDefect>)
    ensures
        match page_defect(html@, 0) {
            Some(d) => r == Err::<Vec<String>, LinkDefect>(d),
            None => r matches Ok(links) && links.deep_view() == page_links(html@, 0, protocol@, domain@),
        },
{
    let page = chars_of(html);
    let proto = chars_of(protocol);
    let dom = chars_of(domain);
    let open = anchor_open_chars();
    let close = tag_close_chars();
    let mut links: Vec<String> = Vec::new();
    let mut pos: usize = 0;
    assert(links.deep_view() =~= Seq::<Seq<char>>::empty());
    while pos < page.len()
        invariant
            page@ == html@,
            proto@ == protocol@,
            dom@ == domain@,
            open@ == anchor_open(),
            close@ == tag_close(),
            pos <= page@.len(),
            page_defect(page@, 0) == page_defect(page@, pos as int),
            page_links(page@, 0, proto@, dom@) == links.deep_view() + page_links(page@, pos as int, proto@, dom@),
        decreases page@.len() - pos,
    {
        match find_chars(&page, &open, pos) {
            None => {
                assert(page_links(page@, 0, proto@, dom@) =~= links.deep_view());
                return Ok(links);
            },
            Some(st) => {
                proof {
                    lemma_find_from(page@, anchor_open(), pos as int);
                }
                match find_chars(&page, &close, st) {
                    None => {
                        return Err(LinkDefect::UnclosedTag);
                    },
                    Some(g) => {
                        proof {
                            lemma_find_from(page@, tag_close(), st as int);
                        }
                        let tag = copy_chars(&page, st, g + 1);
                        match href_span(&tag) {
                            None => {
                                return Err(LinkDefect::UnclosedHref);
                            },
                            Some((lo, hi)) => {
                                let href = copy_chars(&tag, lo, hi);
                                let ghost before = links.deep_view();
                                if followable_chars(&href) {
                                    let link = make_absolute(&href, &proto, &dom);
                                    links.push(link);
                                    assert(links.deep_view() =~= before.push(link@));
                                    assert(before + page_links(page@, pos as int, proto@, dom@)
                                        =~= links.deep_view() + page_links(page@, g + 1, proto@, dom@));
                                }
                                pos = g + 1;
                            },
                        }
                    },
                }
            },
        }
    }
    assert(page_links(page@, 0, proto@, dom@) =~= links.deep_view());
    Ok(links)
}


/// Law: every link found on a page is absolute — it starts with `http`, or
/// with `protocol//domain/` for a link given relative to the site.
pub proof fn law_page_links_are_absolute(page: Seq<char>, pos: int, protocol: Seq<char>, domain: Seq<char>)
    ensures
        forall|i: int| 0 <= i < page_links(page, pos, protocol, domain).len() ==> {
            let link = #[trigger] page_links(page, pos, protocol, domain)[i];
            starts_with(link, http()) || starts_with(link, protocol + slash() + slash() + domain + slash())
        },
    decreases page.len() - pos,
{
    if pos < 0 || pos >= page.len() {
    } else {
        match find_from(page, anchor_open(), pos) {
            None => {},
            Some(st) => {
                lemma_find_from(page, anchor_open(), pos);
                match find_from(page, tag_close(), st) {
                    None => {},
                    Some(g) => {
                        lemma_find_from(page, tag_close(), st);
                        law_page_links_are_absolute(page, g + 1, protocol, domain);
                        let href = tag_href(page.subrange(st, g + 1));
                        let rest = page_links(page, g + 1, protocol, domain);
                        let all = page_links(page, pos, protocol, domain);
                        if followable(href) {
                            let link = absolute_link(href, protocol, domain);
                            let prefix = protocol + slash() + slash() + domain + slash();
                            if starts_with(href, slash()) {
                                let base = protocol + slash() + slash() + domain;
                                assert(link == base + href);
                                assert(link.subrange(0, prefix.len() as int) =~= prefix) by {
                                    assert(href.subrange(0, 1) =~= slash());
                                    assert forall|k: int| 0 <= k < prefix.len() implies link[k] == prefix[k] by {
                                        if k < base.len() {
                                        } else {
                                            assert(href[0] == href.subrange(0, 1)[0]);
                                        }
                                    }
                                }
                            }
                            assert(all == seq![link] + rest);
                            assert forall|i: int| 0 <= i < all.len() implies {
                                let l = #[trigger] all[i];
                                starts_with(l, http()) || starts_with(l, prefix)
                            } by {
                                if i > 0 {
                                    assert(all[i] == rest[i - 1]);
                                }
                            }
                        }
                    },
                }
            },
        }
    }
}


/// An occurrence of a pattern spells the pattern.
proof fn lemma_occurs_at_index(t: Seq<char>, pat: Seq<char>, j: int, m: int)
    requires
        occurs_at(t, pat, j),
        0 <= m < pat.len(),
    ensures
        t[j + m] == pat[m],
{
    assert(t.subrange(j, j + pat.len())[m] == t[j + m]);
}

/// In a text that spells `p` and then `href="`, where `p` holds no `href="`,
/// the first `href="` is the one after `p`.
proof fn lemma_first_href_open(t: Seq<char>, p: Seq<char>)
    requires
        forall|j: int| !occurs_at(p, href_open(), j),
        p.len() + 6 <= t.len(),
        t.subrange(0, p.len() as int) == p,
        t.subrange(p.len() as int, p.len() + 6 as int) == href_open(),
    ensures
        find_from(t, href_open(), 0) == Some(p.len() as int),
{
    let k = p.len() as int;
    let h = href_open();
    assert(t[k] == t.subrange(k, k + 6)[0]);
    assert forall|j: int| 0 <= j < k implies !occurs_at(t, h, j) by {
        if occurs_at(t, h, j) {
            if j + 6 <= k {
                assert(t.subrange(j, j + 6) =~= p.subrange(j, j + 6));
                assert(occurs_at(p, h, j));
            } else {
                lemma_occurs_at_index(t, h, j, k - j);
            }
        }
    }
    lemma_find_from_first(t, h, 0, k);
}

/// In a text that spells `v` from `lo` on and then `"`, where `v` holds no
/// `"`, the first `"` from `lo` on is the one after `v`.
proof fn lemma_first_quote(t: Seq<char>, v: Seq<char>, lo: int)
    requires
        0 <= lo,
        !v.contains('"'),
        lo + v.len() + 1 <= t.len(),
        t.subrange(lo, lo + v.len()) == v,
        t[lo + v.len()] == '"',
    ensures
        find_from(t, quote(), lo) == Some(lo + v.len()),
{
    let e = lo + v.len();
    assert(t.subrange(e, e + 1) =~= quote());
    assert forall|j: int| lo <= j < e implies !occurs_at(t, quote(), j) by {
        if occurs_at(t, quote(), j) {
            lemma_occurs_at_index(t, quote(), j, 0);
            assert(t[j] == t.subrange(lo, e)[j - lo]);
            assert(v.contains(t[j]));
        }
    }
    lemma_find_from_first(t, quote(), lo, e);
}

/// Law: the `href` value of a tag is the whole text between the first
/// `href="` and the next `"`: for a tag `p + href=" + v + " + s` where `p`
/// holds no `href="` and `v` holds no `"`, the value is `v` (whatever `v`
/// holds otherwise: `?`, spaces, `>` ...) and it is closed.
pub proof fn law_tag_href_is_quoted_value(p: Seq<char>, v: Seq<char>, s: Seq<char>)
    requires
        forall|j: int| !occurs_at(p, href_open(), j),
        !v.contains('"'),
    ensures
        href_closed(p + href_open() + v + quote() + s),
        tag_href(p + href_open() + v + quote() + s) == v,
{
    let t = p + href_open() + v + quote() + s;
    let k = p.len() as int;
    assert(t.subrange(0, k) =~= p);
    assert(t.subrange(k, k + 6) =~= href_open());
    assert(t.subrange(k + 6, k + 6 + v.len()) =~= v);
    assert(t[k + 6 + v.len()] == '"');
    lemma_first_href_open(t, p);
    lemma_first_quote(t, v, k + 6);
}

/// Scanning `a + b` from inside `b` finds the links of `b`.
proof fn lemma_page_links_shift(a: Seq<char>, b: Seq<char>, p: int, protocol: Seq<char>, domain: Seq<char>)
    requires
        0 <= p,
    ensures
        page_links(a + b, a.len() + p, protocol, domain) == page_links(b, p, protocol, domain),
    decreases b.len() - p,
{
    let d = a + b;
    if p >= b.len() {
    } else {
        lemma_find_from_shift(a, b, anchor_open(), p);
        match find_from(b, anchor_open(), p) {
            None => {},
            Some(st) => {
                lemma_find_from(b, anchor_open(), p);
                lemma_find_from_shift(a, b, tag_close(), st);
                match find_from(b, tag_close(), st) {
                    None => {},
                    Some(g) => {
                        lemma_find_from(b, tag_close(), st);
                        assert(d.subrange(a.len() + st, a.len() + g + 1) =~= b.subrange(st, g + 1));
                        lemma_page_links_shift(a, b, g + 1, protocol, domain);
                        assert(a.len() + (g + 1) == (a.len() + g) + 1);
                    },
                }
            },
        }
    }
}

/// The links contributed by one closed anchor tag: its absolute link when its
/// target is followable, nothing otherwise.
pub open spec fn anchor_contribution(tag: Seq<char>, protocol: Seq<char>, domain: Seq<char>) -> Seq<Seq<char>> {
    if followable(tag_href(tag)) {
        seq![absolute_link(tag_href(tag), protocol, domain)]
    } else {
        seq![]
    }
}

/// In a page that begins with `<a ` + `body` + `>`, where `body` holds no `>`,
/// that tag is the first anchor and ends at its `>`.
proof fn lemma_leading_anchor(body: Seq<char>, rest: Seq<char>)
    requires
        !body.contains('>'),
    ensures
        ({
            let tag = anchor_open() + body + tag_close();
            let page = tag + rest;
            &&& find_from(page, anchor_open(), 0) == Some(0int)
            &&& find_from(page, tag_close(), 0) == Some(tag.len() - 1)
            &&& page.subrange(0, tag.len() as int) == tag
            &&& 0 < page.len()
        }),
{
    let tag = anchor_open() + body + tag_close();
    let page = tag + rest;
    let g = tag.len() - 1;
    assert(page.subrange(0, 3) =~= anchor_open());
    lemma_find_from_first(page, anchor_open(), 0, 0);
    assert(page.subrange(g, g + 1) =~= tag_close());
    assert forall|j: int| 0 <= j < g implies !occurs_at(page, tag_close(), j) by {
        if occurs_at(page, tag_close(), j) {
            lemma_occurs_at_index(page, tag_close(), j, 0);
            if j >= 3 {
                assert(page[j] == body[j - 3]);
                assert(body.contains(page[j]));
            }
        }
    }
    lemma_find_from_first(page, tag_close(), 0, g);
    assert(page.subrange(0, g + 1) =~= tag);
}

/// Law: a page that begins with a closed anchor tag `<a ...>` has that tag's
/// link (if its target is followable) followed by the links of the rest of the
/// page. In particular an anchor with an unfollowable target is skipped and
/// scanning goes on: the links of later anchors do not depend on it.
pub proof fn law_page_links_leading_anchor(body: Seq<char>, rest: Seq<char>, protocol: Seq<char>, domain: Seq<char>)
    requires
        !body.contains('>'),
    ensures
        page_links(anchor_open() + body + tag_close() + rest, 0, protocol, domain)
            == anchor_contribution(anchor_open() + body + tag_close(), protocol, domain) + page_links(rest, 0, protocol, domain),
{
    let tag = anchor_open() + body + tag_close();
    let page = tag + rest;
    let g = tag.len() - 1;
    lemma_leading_anchor(body, rest);
    assert(page.subrange(0, g + 1) == tag);
    lemma_page_links_shift(tag, rest, 0, protocol, domain);
    assert(tag.len() + 0 == g + 1);
    let href = tag_href(tag);
    if followable(href) {
        assert(page_links(page, 0, protocol, domain) == seq![absolute_link(href, protocol, domain)] + page_links(page, g + 1, protocol, domain));
    } else {
        assert(page_links(page, 0, protocol, domain) == page_links(page, g + 1, protocol, domain));
        assert(anchor_contribution(tag, protocol, domain) + page_links(rest, 0, protocol, domain) =~= page_links(rest, 0, protocol, domain));
    }
}

/// Law: the link of an anchor `<a href="v">` at the start of a page, spelled
/// out: `v` is followed when it is neither empty nor `/` and starts with
/// `http` or `/`; a `v` starting with `/` becomes `protocol//domain` + `v`.
/// The rest of the page is scanned as if the anchor were not there.
pub proof fn law_anchor_link(v: Seq<char>, rest: Seq<char>, protocol: Seq<char>, domain: Seq<char>)
    requires
        !v.contains('"'),
        !v.contains('>'),
    ensures
        page_links(seq!['<', 'a', ' ', 'h', 'r', 'e', 'f', '=', '"'] + v + seq!['"', '>'] + rest, 0, protocol, domain)
            == (if v.len() > 0 && v != seq!['/'] && (starts_with(v, seq!['h', 't', 't', 'p']) || starts_with(v, seq!['/'])) {
                if starts_with(v, seq!['/']) {
                    seq![protocol + seq!['/', '/'] + domain + v]
                } else {
                    seq![v]
                }
            } else {
                Seq::<Seq<char>>::empty()
            }) + page_links(rest, 0, protocol, domain),
{
    let body = href_open() + v + quote();
    assert(!body.contains('>')) by {
        if body.contains('>') {
            let k = choose|k: int| 0 <= k < body.len() && body[k] == '>';
            if 6 <= k < 6 + v.len() {
                assert(v[k - 6] == '>');
                assert(v.contains(v[k - 6]));
            }
        }
    }
    let tag = anchor_open() + body + tag_close();
    assert(seq!['<', 'a', ' ', 'h', 'r', 'e', 'f', '=', '"'] + v + seq!['"', '>'] + rest =~= tag + rest);
    law_page_links_leading_anchor(body, rest, protocol, domain);
    let p = anchor_open();
    assert forall|j: int| !occurs_at(p, href_open(), j) by {}
    assert(tag =~= p + href_open() + v + quote() + tag_close());
    law_tag_href_is_quoted_value(p, v, tag_close());
    assert(slash() =~= seq!['/']);
    assert(http() =~= seq!['h', 't', 't', 'p']);
    assert(slash() + slash() =~= seq!['/', '/']);
    assert(protocol + slash() + slash() + domain + v =~= protocol + seq!['/', '/'] + domain + v);
}

/// Reading defects of `a + b` from inside `b` reads those of `b`.
proof fn lemma_page_defect_shift(a: Seq<char>, b: Seq<char>, p: int)
    requires
        0 <= p,
    ensures
        page_defect(a + b, a.len() + p) == page_defect(b, p),
    decreases b.len() - p,
{
    let d = a + b;
    if p >= b.len() {
    } else {
        lemma_find_from_shift(a, b, anchor_open(), p);
        match find_from(b, anchor_open(), p) {
            None => {},
            Some(st) => {
                lemma_find_from(b, anchor_open(), p);
                lemma_find_from_shift(a, b, tag_close(), st);
                match find_from(b, tag_close(), st) {
                    None => {},
                    Some(g) => {
                        lemma_find_from(b, tag_close(), st);
                        assert(d.subrange(a.len() + st, a.len() + g + 1) =~= b.subrange(st, g + 1));
                        lemma_page_defect_shift(a, b, g + 1);
                        assert(a.len() + (g + 1) == (a.len() + g) + 1);
                    },
                }
            },
        }
    }
}

/// Law: a page that begins with a closed anchor tag fails with an unclosed
/// `href` exactly when that tag's `href` value is not closed; otherwise it has
/// the defects of the rest of the page.
pub proof fn law_page_defect_leading_anchor(body: Seq<char>, rest: Seq<char>)
    requires
        !body.contains('>'),
    ensures
        page_defect(anchor_open() + body + tag_close() + rest, 0) == if href_closed(anchor_open() + body + tag_close()) {
            page_defect(rest, 0)
        } else {
            Some(LinkDefect::UnclosedHref)
        },
{
    let tag = anchor_open() + body + tag_close();
    lemma_leading_anchor(body, rest);
    lemma_page_defect_shift(tag, rest, 0);
    assert(tag.len() + 0 == (tag.len() - 1) + 1);
}

/// Law: an anchor tag that is never closed is a defect: `<a ` followed by
/// text without `>` fails with an unclosed tag and has no links.
pub proof fn law_unclosed_anchor(body: Seq<char>, protocol: Seq<char>, domain: Seq<char>)
    requires
        !body.contains('>'),
    ensures
        page_defect(anchor_open() + body, 0) == Some(LinkDefect::UnclosedTag),
        page_links(anchor_open() + body, 0, protocol, domain) == Seq::<Seq<char>>::empty(),
{
    let page = anchor_open() + body;
    assert(page.subrange(0, 3) =~= anchor_open());
    lemma_find_from_first(page, anchor_open(), 0, 0);
    lemma_find_from(page, tag_close(), 0);
    if find_from(page, tag_close(), 0) is Some {
        let j = find_from(page, tag_close(), 0)->0;
        lemma_occurs_at_index(page, tag_close(), j, 0);
        assert(page[j] == body[j - 3]);
        assert(body.contains(page[j]));
    }
}

/// Law: an `href="` whose value runs to the end of the tag without a `"` is
/// not closed.
pub proof fn law_tag_href_unclosed(p: Seq<char>, v: Seq<char>)
    requires
        forall|j: int| !occurs_at(p, href_open(), j),
        !v.contains('"'),
    ensures
        !href_closed(p + href_open() + v),
{
    let t = p + href_open() + v;
    let k = p.len() as int;
    assert(t.subrange(0, k) =~= p);
    assert(t.subrange(k, k + 6) =~= href_open());
    lemma_first_href_open(t, p);
    lemma_find_from(t, quote(), k + 6);
    if find_from(t, quote(), k + 6) is Some {
        let j = find_from(t, quote(), k + 6)->0;
        lemma_occurs_at_index(t, quote(), j, 0);
        assert(t[j] == v[j - k - 6]);
        assert(v.contains(t[j]));
    }
}

/// Law: a URL `p/x/d` followed by nothing or by a path starting with `/`,
/// where `p`, `x` and `d` hold no `/`, has protocol `p` and domain `d`.
pub proof fn law_url_parts(p: Seq<char>, x: Seq<char>, d: Seq<char>, rest: Seq<char>)
    requires
        !p.contains('/'),
        !x.contains('/'),
        !d.contains('/'),
        rest.len() == 0 || rest[0] == '/',
    ensures
        url_parts(p + slash() + x + slash() + d + rest) == Some((p, d)),
{
    let u = p + slash() + x + slash() + d + rest;
    let a = p.len() as int;
    let b = a + 1 + x.len();
    let c = b + 1 + d.len();
    assert forall|i: int| 0 <= i < u.len() && u[i] == '/' implies i == a || i == b || i >= c by {
        if i < a {
            assert(u[i] == p[i]);
            assert(p.contains(u[i]));
        } else if a < i < b {
            assert(u[i] == x[i - a - 1]);
            assert(x.contains(u[i]));
        } else if b < i < c {
            assert(u[i] == d[i - b - 1]);
            assert(d.contains(u[i]));
        }
    }
    assert forall|i: int| #[trigger] occurs_at(u, slash(), i) implies u[i] == '/' by {
        assert(u.subrange(i, i + 1)[0] == u[i]);
    }
    assert(u.subrange(a, a + 1) =~= slash());
    assert(u.subrange(b, b + 1) =~= slash());
    lemma_find_from_first(u, slash(), 0, a);
    lemma_find_from_first(u, slash(), a + 1, b);
    if rest.len() == 0 {
        lemma_find_from(u, slash(), b + 1);
        assert(find_from(u, slash(), b + 1) is None);
    } else {
        assert(u[c] == rest[0]);
        assert(u.subrange(c, c + 1) =~= slash());
        lemma_find_from_first(u, slash(), b + 1, c);
    }
    assert(u.subrange(0, a) =~= p);
    assert(u.subrange(b + 1, c) =~= d);
}

} // verus!
