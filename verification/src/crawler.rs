//! The decisions of a breadth-first crawl, driven step by step by a caller
//! that fetches and stores the pages.
use vstd::prelude::*;

use crate::utils::bitmap::cleared_bits;
use crate::utils::bloom_filter::{
    filter_contains, filter_insert, filter_len, key_bytes, law_added_key_is_present,
    law_insert_keeps_present, BloomFilter,
};

verus! {

/// The filter's bits and the newly seen links after offering `links`, in
/// order, to a Bloom filter with bits `bits`: a link is newly seen when the
/// filter does not report it present, and is then recorded in the filter.
pub open spec fn admit_links(bits: Seq<bool>, links: Seq<Seq<char>>) -> (Seq<bool>, Seq<Seq<char>>)
    decreases links.len(),
{
    if links.len() == 0 {
        (bits, seq![])
    } else {
        let (b, fresh) = admit_links(bits, links.drop_last());
        let key = key_bytes(links.last());
        if filter_contains(b, key) {
            (b, fresh)
        } else {
            (filter_insert(b, key), fresh.push(links.last()))
        }
    }
}

/// What the crawl asks its driver to do next.
pub enum CrawlStep {
    /// Fetch `url`, store the page under `id`, then report the page's links
    /// with `Crawler::page_done`.
    Fetch { url: String, id: u32 },
    /// A round ended and nothing new was found; the crawl has nothing to do
    /// but is not finished.
    Idle,
    /// More pages than the limit have been visited; the crawl is over.
    Finished,
}

/// The scheduler of a breadth-first crawl. Pages are fetched round by round:
/// the pages of a round are fetched in order, the links found on them that
/// the Bloom filter has not seen form the next round, and after each round
/// the round's pages count as visited. The crawl ends after the first round
/// that brings the number of visited pages above the limit.
pub struct Crawler {
    bloom: BloomFilter,
    frontier: Vec<String>,
    discovered: Vec<String>,
    visited: Vec<String>,
    cursor: usize,
    next_id: u32,
    limit: usize,
    finished: bool,
}

impl Crawler {
    /// The bits of the crawl's Bloom filter.
    pub closed spec fn bits(&self) -> Seq<bool> {
        self.bloom@
    }

    /// The pages of the current round.
    pub closed spec fn frontier(&self) -> Seq<Seq<char>> {
        self.frontier.deep_view()
    }

    /// The new links found so far in the current round: the next round.
    pub closed spec fn discovered(&self) -> Seq<Seq<char>> {
        self.discovered.deep_view()
    }

    /// The pages of the rounds that are over.
    pub closed spec fn visited(&self) -> Seq<Seq<char>> {
        self.visited.deep_view()
    }

    /// How many pages of the current round have been reported done.
    pub closed spec fn cursor(&self) -> nat {
        self.cursor as nat
    }

    /// The id the next fetched page is stored under.
    pub closed spec fn next_id(&self) -> nat {
        self.next_id as nat
    }

    /// The crawl ends once more than this many pages are visited.
    pub closed spec fn limit(&self) -> nat {
        self.limit as nat
    }

    /// Whether the crawl is over.
    pub closed spec fn finished(&self) -> bool {
        self.finished
    }

    /// Every page the crawl has taken up: visited, in this round, or found for the next.
    pub open spec fn queued(&self) -> Seq<Seq<char>> {
        self.visited() + self.frontier() + self.discovered()
    }

    /// The crawl's invariant: the filter is well formed, the round's cursor is
    /// in range, no page is taken up twice, and the filter reports every
    /// page taken up as present.
    pub closed spec fn wf(&self) -> bool {
        &&& self.bloom.wf()
        &&& self.cursor <= self.frontier@.len()
        &&& self.queued().no_duplicates()
        &&& forall|i: int| 0 <= i < self.queued().len() ==> filter_contains(self.bits(), key_bytes(#[trigger] self.queued()[i]))
    }

    /// A crawl that starts from `seed` and ends once more than `limit` pages are visited.
    pub fn new(seed: &str, limit: usize) -> (c: Self)
        ensures
            c.wf(),
            c.bits() == filter_insert(cleared_bits(filter_len()), key_bytes(seed@)),
            c.frontier() == seq![seed@],
            c.discovered() == Seq::<Seq<char>>::empty(),
            c.visited() == Seq::<Seq<char>>::empty(),
            c.cursor() == 0,
            c.next_id() == 0,
            c.limit() == limit,
            !c.finished(),
    {
        let mut bloom = BloomFilter::new();
        let _ = bloom.add(seed);
        let mut frontier: Vec<String> = Vec::new();
        frontier.push(seed.to_owned());
        let c = Crawler {
            bloom,
            frontier,
            discovered: Vec::new(),
            visited: Vec::new(),
            cursor: 0,
            next_id: 0,
            limit,
            finished: false,
        };
        proof {
            bloom.lemma_len();
            law_added_key_is_present(cleared_bits(filter_len()), key_bytes(seed@));
            assert(c.frontier() =~= seq![seed@]);
            assert(c.discovered() =~= Seq::<Seq<char>>::empty());
            assert(c.visited() =~= Seq::<Seq<char>>::empty());
            assert(c.queued() =~= seq![seed@]);
        }
        c
    }

    /// What to do next. While the current round has pages left, fetch the next
    /// one. At the end of a round, the round's pages become visited and the
    /// links found in it become the new round; the crawl then finishes if more
    /// than `limit` pages are visited, else fetches the first page of the new
    /// round, or is idle when the new round is empty. A finished crawl stays finished.
    pub fn next_step(&mut self) -> (step: CrawlStep)
        requires
            old(self).wf(),
        ensures
            final(self).wf(),
            final(self).limit() == old(self).limit(),
            final(self).next_id() == old(self).next_id(),
            final(self).bits() == old(self).bits(),
            old(self).finished() ==> step is Finished && *final(self) == *old(self),
            !old(self).finished() && old(self).cursor() < old(self).frontier().len() ==> {
                &&& *final(self) == *old(self)
                &&& step matches CrawlStep::Fetch { url, id } && url@ == old(self).frontier()[old(self).cursor() as int]
                    && id == old(self).next_id()
            },
            !old(self).finished() && old(self).cursor() >= old(self).frontier().len() ==> {
                &&& final(self).visited() == old(self).visited() + old(self).frontier()
                &&& final(self).frontier() == old(self).discovered()
                &&& final(self).discovered() == Seq::<Seq<char>>::empty()
                &&& final(self).cursor() == 0
                &&& final(self).finished() == (final(self).visited().len() > old(self).limit())
                &&& if final(self).finished() {
                    step is Finished
                } else if final(self).frontier().len() > 0 {
                    step matches CrawlStep::Fetch { url, id } && url@ == final(self).frontier()[0]
                        && id == old(self).next_id()
                } else {
                    step is Idle
                }
            },
    {
        if self.finished {
            return CrawlStep::Finished;
        }
        if self.cursor < self.frontier.len() {
            let url = self.frontier[self.cursor].clone();
            return CrawlStep::Fetch { url, id: self.next_id };
        }
        let ghost old_queued = self.queued();
        let ghost old_visited = self.visited();
        let ghost old_frontier = self.frontier();
        let ghost old_discovered = self.discovered();
        self.visited.append(&mut self.frontier);
        std::mem::swap(&mut self.frontier, &mut self.discovered);
        self.cursor = 0;
        proof {
            assert(self.visited() =~= old_visited + old_frontier);
            assert(self.frontier() =~= old_discovered);
            assert(self.discovered() =~= Seq::<Seq<char>>::empty());
            assert(self.queued() =~= old_queued);
        }
        if self.visited.len() > self.limit {
            self.finished = true;
            CrawlStep::Finished
        } else if self.frontier.len() > 0 {
            let url = self.frontier[0].clone();
            CrawlStep::Fetch { url, id: self.next_id }
        } else {
            CrawlStep::Idle
        }
    }

    /// Reports that the page the last `Fetch` named has been fetched and stored,
    /// with the links found on it. The next page id is taken, and each link the
    /// Bloom filter has not seen is recorded in it and joins the next round
    /// (see `admit_links`).
    pub fn page_done(&mut self, links: &Vec<String>)
        requires
            old(self).wf(),
            !old(self).finished(),
            old(self).cursor() < old(self).frontier().len(),
            old(self).next_id() < u32::MAX,
        ensures
            final(self).wf(),
            final(self).next_id() == old(self).next_id() + 1,
            final(self).cursor() == old(self).cursor() + 1,
            final(self).bits() == admit_links(old(self).bits(), links.deep_view()).0,
            final(self).discovered() == old(self).discovered() + admit_links(old(self).bits(), links.deep_view()).1,
            final(self).frontier() == old(self).frontier(),
            final(self).visited() == old(self).visited(),
            final(self).limit() == old(self).limit(),
            !final(self).finished(),
    {
        self.next_id = self.next_id + 1;
        let ghost bits0 = self.bits();
        let ghost disc0 = self.discovered();
        let ghost ls = links.deep_view();
        let mut j: usize = 0;
        while j < links.len()
            invariant
                self.wf(),
                !self.finished(),
                self.cursor() < self.frontier().len(),
                self.frontier() == old(self).frontier(),
                self.visited() == old(self).visited(),
                self.limit() == old(self).limit(),
                self.next_id() == old(self).next_id() + 1,
                self.cursor() == old(self).cursor(),
                bits0 == old(self).bits(),
                disc0 == old(self).discovered(),
                ls == links.deep_view(),
                j <= links@.len(),
                self.bits() == admit_links(bits0, ls.take(j as int)).0,
                self.discovered() == disc0 + admit_links(bits0, ls.take(j as int)).1,
            decreases links@.len() - j,
        {
            let ghost q0 = self.queued();
            let ghost b0 = self.bits();
            let ghost d0 = self.discovered();
            let link = &links[j];
            assert(ls.take(j + 1).drop_last() =~= ls.take(j as int));
            assert(ls.take(j + 1).last() == link@);
            proof {
                self.bloom.lemma_len();
            }
            if self.bloom.add(link) {
                self.discovered.push(link.clone());
                proof {
                    let key = key_bytes(link@);
                    assert(self.discovered() =~= d0.push(link@));
                    assert(self.queued() =~= q0.push(link@));
                    assert(!q0.contains(link@)) by {
                        if q0.contains(link@) {
                            let k = choose|k: int| 0 <= k < q0.len() && q0[k] == link@;
                            assert(filter_contains(b0, key_bytes(q0[k])));
                        }
                    }
                    law_added_key_is_present(b0, key);
                    assert forall|i: int| 0 <= i < self.queued().len() implies filter_contains(self.bits(), key_bytes(#[trigger] self.queued()[i])) by {
                        if i < q0.len() {
                            assert(self.queued()[i] == q0[i]);
                            law_insert_keeps_present(b0, key, key_bytes(q0[i]));
                        }
                    }
                    assert(self.queued().no_duplicates()) by {
                        assert forall|a: int, b: int| 0 <= a < self.queued().len() && 0 <= b < self.queued().len() && a != b
                            implies self.queued()[a] != self.queued()[b] by {
                            if a < q0.len() && b < q0.len() {
                                assert(self.queued()[a] == q0[a]);
                                assert(self.queued()[b] == q0[b]);
                            } else if a < q0.len() {
                                assert(self.queued()[a] == q0[a]);
                            } else if b < q0.len() {
                                assert(self.queued()[b] == q0[b]);
                            }
                        }
                    }
                }
            }
            j += 1;
        }
        proof {
            assert(ls.take(links@.len() as int) =~= ls);
            assert(self.frontier@.len() == self.frontier().len());
        }
        let n = self.frontier.len();
        assert(self.cursor < n);
        self.cursor = self.cursor + 1;
    }


    /// Whether the crawl is waiting for a fetched page to be reported, that is,
    /// whether `page_done` may be called (given an id left to take).
    pub fn awaiting_page(&self) -> (r: bool)
        ensures
            r == (!self.finished() && self.cursor() < self.frontier().len()),
    {
        proof {
            assert(self.frontier@.len() == self.frontier().len());
        }
        !self.finished && self.cursor < self.frontier.len()
    }

    /// The pages of the rounds that are over, in the order they were fetched.
    pub fn visited_links(&self) -> (r: &Vec<String>)
        ensures
            r.deep_view() == self.visited(),
    {
        &self.visited
    }

    /// The id the next fetched page is stored under.
    pub fn current_id(&self) -> (r: u32)
        ensures
            r == self.next_id(),
    {
        self.next_id
    }

}


/// Law: a crawl never takes a page up twice — the visited pages, the pages of
/// the current round and those found for the next are all different — and the
/// filter reports each of them as present.
pub proof fn law_no_page_taken_up_twice(c: &Crawler)
    requires
        c.wf(),
    ensures
        c.queued().no_duplicates(),
        forall|i: int| 0 <= i < c.queued().len() ==> filter_contains(c.bits(), key_bytes(#[trigger] c.queued()[i])),
{
}

/// Law: the page a crawl fetches next has not been visited yet.
pub proof fn law_fetched_page_is_new(c: &Crawler)
    requires
        c.wf(),
        c.cursor() < c.frontier().len(),
    ensures
        !c.visited().contains(c.frontier()[c.cursor() as int]),
{
    let q = c.queued();
    let k = (c.visited().len() + c.cursor()) as int;
    assert(q[k] == c.frontier()[c.cursor() as int]);
    if c.visited().contains(c.frontier()[c.cursor() as int]) {
        let i = choose|i: int| 0 <= i < c.visited().len() && c.visited()[i] == c.frontier()[c.cursor() as int];
        assert(q[i] == c.visited()[i]);
    }
}

/// Law: offering links to the filter keeps every key that was present
/// present, leaves every offered link present, and admits only links that
/// were not present before, each once.
pub proof fn law_admit_links(bits: Seq<bool>, links: Seq<Seq<char>>)
    requires
        bits.len() == filter_len(),
    ensures
        admit_links(bits, links).0.len() == filter_len(),
        forall|key: Seq<u8>| filter_contains(bits, key) ==> #[trigger] filter_contains(admit_links(bits, links).0, key),
        forall|i: int| 0 <= i < links.len() ==> filter_contains(admit_links(bits, links).0, key_bytes(#[trigger] links[i])),
        forall|i: int| 0 <= i < admit_links(bits, links).1.len() ==> !filter_contains(bits, key_bytes(#[trigger] admit_links(bits, links).1[i])),
        forall|i: int| 0 <= i < admit_links(bits, links).1.len() ==> filter_contains(admit_links(bits, links).0, key_bytes(#[trigger] admit_links(bits, links).1[i])),
        admit_links(bits, links).1.no_duplicates(),
    decreases links.len(),
{
    if links.len() > 0 {
        let prev = links.drop_last();
        law_admit_links(bits, prev);
        let (b, fresh) = admit_links(bits, prev);
        let l = links.last();
        let key = key_bytes(l);
        if !filter_contains(b, key) {
            law_added_key_is_present(b, key);
            assert forall|k: Seq<u8>| filter_contains(b, k) implies #[trigger] filter_contains(filter_insert(b, key), k) by {
                law_insert_keeps_present(b, key, k);
            }
            assert(!fresh.contains(l)) by {
                if fresh.contains(l) {
                    let i = choose|i: int| 0 <= i < fresh.len() && fresh[i] == l;
                    assert(filter_contains(b, key_bytes(fresh[i])));
                }
            }
            let res = admit_links(bits, links);
            assert forall|i: int| 0 <= i < res.1.len() implies filter_contains(res.0, key_bytes(#[trigger] res.1[i])) by {
                if i < fresh.len() {
                    assert(res.1[i] == fresh[i]);
                }
            }
        }
        assert forall|i: int| 0 <= i < links.len() implies filter_contains(admit_links(bits, links).0, key_bytes(#[trigger] links[i])) by {
            if i < prev.len() {
                assert(links[i] == prev[i]);
            }
        }
    }
}


/// Law: every offered link that the filter does not report present when its
/// turn comes is admitted (a link is left out only when the filter already
/// holds it, because of an earlier link or the filter's prior contents).
pub proof fn law_admit_links_complete(bits: Seq<bool>, links: Seq<Seq<char>>, i: int)
    requires
        0 <= i < links.len(),
        !filter_contains(admit_links(bits, links.take(i)).0, key_bytes(links[i])),
    ensures
        admit_links(bits, links).1.contains(links[i]),
    decreases links.len(),
{
    let prev = links.drop_last();
    if i == links.len() - 1 {
        assert(links.take(i) =~= prev);
        let fresh = admit_links(bits, prev).1.push(links.last());
        assert(fresh[fresh.len() - 1] == links[i]);
    } else {
        assert(prev.take(i) =~= links.take(i));
        assert(prev[i] == links[i]);
        law_admit_links_complete(bits, prev, i);
        let f0 = admit_links(bits, prev).1;
        let k = choose|k: int| 0 <= k < f0.len() && f0[k] == links[i];
        let b = admit_links(bits, prev).0;
        if !filter_contains(b, key_bytes(links.last())) {
            assert(f0.push(links.last())[k] == links[i]);
        }
    }
}

/// Law: offering links in two batches, one after the other, admits the same
/// links in the same order and leaves the same filter as offering them all at
/// once.
pub proof fn law_admit_links_batches(bits: Seq<bool>, xs: Seq<Seq<char>>, ys: Seq<Seq<char>>)
    ensures
        admit_links(bits, xs + ys).0 == admit_links(admit_links(bits, xs).0, ys).0,
        admit_links(bits, xs + ys).1 == admit_links(bits, xs).1 + admit_links(admit_links(bits, xs).0, ys).1,
    decreases ys.len(),
{
    if ys.len() == 0 {
        assert(xs + ys =~= xs);
        assert(admit_links(bits, xs).1 + Seq::<Seq<char>>::empty() =~= admit_links(bits, xs).1);
    } else {
        let ys0 = ys.drop_last();
        law_admit_links_batches(bits, xs, ys0);
        assert((xs + ys).drop_last() =~= xs + ys0);
        assert((xs + ys).last() == ys.last());
        let f1 = admit_links(bits, xs).1;
        let f2 = admit_links(admit_links(bits, xs).0, ys0).1;
        assert((f1 + f2).push(ys.last()) =~= f1 + f2.push(ys.last()));
    }
}

} // verus!
