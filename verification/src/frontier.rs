//! The queue of a breadth-first, same-site crawl: which pages to fetch next,
//! which links found on a fetched page to queue, and the leads kept. Fetching
//! pages is left to the caller.
use vstd::prelude::*;
use vstd::hash_set::StringHashSet;

use crate::crawler::{
    base_domain, base_domain_of, extract_internal_links, internal_links_in, normalize_url,
    normalized_url, url_key, BATCH_SIZE,
};
use crate::extractor::{extract_all, raw_lead};
use crate::lead::{key_seen_before, keys_of, lead_dedup, lead_has_data, Lead, LeadView};
use crate::text::same_text;

verus! {

/// The links among `links` that a crawl which has admitted the (normalized)
/// URLs `admitted` queues: those whose normalized form was neither admitted
/// before nor taken by an earlier link of `links`.
pub open spec fn fresh_links(admitted: Seq<Seq<char>>, links: Seq<Seq<char>>) -> Seq<Seq<char>>
    decreases links.len(),
{
    if links.len() == 0 {
        Seq::empty()
    } else {
        let prev = fresh_links(admitted, links.drop_last());
        if admitted.contains(normalized_url(links.last())) || key_seen_before(
            links,
            url_key(),
            links.len() - 1,
        ) {
            prev
        } else {
            prev.push(links.last())
        }
    }
}

/// The state of a crawl: its start page and domain, its depth limit, the pages
/// still to fetch with their depth, every normalized URL admitted so far in
/// order, the pages handed out for fetching, the pages whose contents were
/// offered (with their depth and HTML), the pages handed out whose fetch
/// failed, and the leads kept.
pub struct FrontierView {
    pub start: Seq<char>,
    pub base_domain: Seq<char>,
    pub max_depth: u32,
    pub queue: Seq<(Seq<char>, u32)>,
    pub admitted: Seq<Seq<char>>,
    pub taken: Seq<(Seq<char>, u32)>,
    pub pages: Seq<(Seq<char>, u32, Seq<char>)>,
    pub failed: Seq<(Seq<char>, u32)>,
    pub leads: Seq<LeadView>,
}

/// The page `u` is reached at depth `d`: it is the start page at depth 0, and at
/// a greater depth it is an internal link of a page offered at the depth before,
/// which is itself reached.
pub open spec fn reached(
    start: Seq<char>,
    base_domain: Seq<char>,
    pages: Seq<(Seq<char>, u32, Seq<char>)>,
    u: Seq<char>,
    d: nat,
) -> bool
    decreases d,
{
    if d == 0 {
        u == start
    } else {
        exists|i: int|
            #![trigger pages[i]]
            0 <= i < pages.len() && pages[i].1 == d - 1 && internal_links_in(
                pages[i].2,
                pages[i].0,
                base_domain,
            ).contains(u) && reached(start, base_domain, pages, pages[i].0, (d - 1) as nat)
    }
}

/// The page `u` is reached at depth `d` in the crawl `f`.
pub open spec fn reached_in(f: FrontierView, u: Seq<char>, d: nat) -> bool {
    reached(f.start, f.base_domain, f.pages, u, d)
}

/// The normalized URLs of queued or handed-out pages.
pub open spec fn item_urls(items: Seq<(Seq<char>, u32)>) -> Seq<Seq<char>> {
    items.map_values(|x: (Seq<char>, u32)| normalized_url(x.0))
}

/// The normalized URLs of offered pages.
pub open spec fn fetched_urls(pages: Seq<(Seq<char>, u32, Seq<char>)>) -> Seq<Seq<char>> {
    pages.map_values(|p: (Seq<char>, u32, Seq<char>)| normalized_url(p.0))
}

/// The normalized URLs of the pages of the crawl `f` that are done with: those
/// offered, then those whose fetch failed.
pub open spec fn finished_urls(f: FrontierView) -> Seq<Seq<char>> {
    fetched_urls(f.pages) + item_urls(f.failed)
}

/// The number of pages of the crawl `f` in flight: handed out, and neither
/// offered nor failed.
pub open spec fn in_flight(f: FrontierView) -> int {
    f.taken.len() - f.pages.len() - f.failed.len()
}

/// The invariant of a crawl, but for the links of its offered pages: the
/// admitted URLs are, in order, those of the pages handed out and then of the
/// pages queued, and no URL is admitted twice; every queued page lies within
/// the depth limit and is reached; every page handed out lies within the depth
/// limit and is reached; every offered or failed page was handed out, no two
/// of them share a normalized URL, and at most `BATCH_SIZE` pages are in
/// flight; and every lead kept is the lead of an offered page, holding data.
pub open spec fn crawl_core(f: FrontierView) -> bool {
    &&& f.admitted.no_duplicates()
    &&& f.admitted == item_urls(f.taken + f.queue)
    &&& forall|i: int|
        0 <= i < f.queue.len() ==> (#[trigger] f.queue[i]).1 <= f.max_depth && f.admitted.contains(
            normalized_url(f.queue[i].0),
        ) && reached_in(f, f.queue[i].0, f.queue[i].1 as nat)
    &&& forall|i: int|
        0 <= i < f.taken.len() ==> (#[trigger] f.taken[i]).1 <= f.max_depth && reached_in(
            f,
            f.taken[i].0,
            f.taken[i].1 as nat,
        )
    &&& forall|i: int| 0 <= i < f.pages.len() ==> f.taken.contains(((#[trigger] f.pages[i]).0, f.pages[i].1))
    &&& forall|i: int| 0 <= i < f.failed.len() ==> f.taken.contains(#[trigger] f.failed[i])
    &&& finished_urls(f).no_duplicates()
    &&& 0 <= in_flight(f) <= BATCH_SIZE
    &&& forall|i: int| 0 <= i < f.leads.len() ==> #[trigger] lead_from_page(f, i)
}

/// The offered page at position `i` of the crawl `f`, when it lies below the
/// depth limit, has the normalized URL of each of its internal links admitted.
pub open spec fn links_admitted(f: FrontierView, i: int) -> bool {
    f.pages[i].1 < f.max_depth ==> forall|u: Seq<char>|
        #[trigger] internal_links_in(f.pages[i].2, f.pages[i].0, f.base_domain).contains(u)
            ==> f.admitted.contains(normalized_url(u))
}

/// The first `n` offered pages of the crawl `f` have their links admitted.
pub open spec fn links_wf(f: FrontierView, n: int) -> bool {
    forall|i: int| 0 <= i < n ==> #[trigger] links_admitted(f, i)
}

/// The invariant of a crawl: that of `crawl_core`, and every offered page below
/// the depth limit has the normalized URL of each of its internal links admitted.
pub open spec fn frontier_wf(f: FrontierView) -> bool {
    &&& crawl_core(f)
    &&& links_wf(f, f.pages.len() as int)
}

/// The page `url`, handed out at `depth`, is in flight in the crawl `f`: it
/// was handed out, and no page with its normalized URL was offered or failed.
pub open spec fn can_visit(f: FrontierView, url: Seq<char>, depth: u32) -> bool {
    &&& f.taken.contains((url, depth))
    &&& !finished_urls(f).contains(normalized_url(url))
}

/// The crawl state once the fetch of the page `url`, handed out at `depth`,
/// failed: the page is recorded as failed.
pub open spec fn after_fail(f: FrontierView, url: Seq<char>, depth: u32) -> FrontierView {
    FrontierView { failed: f.failed.push((url, depth)), ..f }
}

/// The lead at position `i` of the crawl `f` is the lead of the offered page at
/// position `j`, and holds data.
pub open spec fn lead_of_page(f: FrontierView, i: int, j: int) -> bool {
    &&& 0 <= j < f.pages.len()
    &&& f.leads[i] == lead_dedup(raw_lead(f.pages[j].2, f.pages[j].0))
    &&& lead_has_data(f.leads[i])
}

/// The lead at position `i` of the crawl `f` is the lead of an offered page.
pub open spec fn lead_from_page(f: FrontierView, i: int) -> bool {
    exists|j: int| #[trigger] lead_of_page(f, i, j)
}

/// The crawl state once the links found on a page at `depth` are offered: when
/// `depth` is below the limit, the fresh ones are queued one level deeper and
/// admitted; otherwise nothing changes.
pub open spec fn after_links(f: FrontierView, depth: u32, links: Seq<Seq<char>>) -> FrontierView {
    if depth < f.max_depth {
        let fresh = fresh_links(f.admitted, links);
        FrontierView {
            queue: f.queue + fresh.map_values(|u: Seq<char>| (u, (depth + 1) as u32)),
            admitted: f.admitted + fresh.map_values(|u: Seq<char>| normalized_url(u)),
            ..f
        }
    } else {
        f
    }
}

/// The crawl state once the page `url`, handed out at `depth`, was fetched with
/// contents `html`: the page is recorded, its lead kept when it holds data, and
/// its internal links offered.
pub open spec fn after_visit(f: FrontierView, url: Seq<char>, depth: u32, html: Seq<char>) -> FrontierView {
    after_links(after_record(f, url, depth, html), depth, internal_links_in(html, url, f.base_domain))
}

/// The crawl state once the page `url`, handed out at `depth`, was fetched with
/// contents `html` and recorded, its lead kept when it holds data.
pub open spec fn after_record(f: FrontierView, url: Seq<char>, depth: u32, html: Seq<char>) -> FrontierView {
    let lead = lead_dedup(raw_lead(html, url));
    FrontierView {
        pages: f.pages.push((url, depth, html)),
        leads: if lead_has_data(lead) {
            f.leads.push(lead)
        } else {
            f.leads
        },
        ..f
    }
}

/// The queue of a breadth-first crawl, the URLs it has admitted, and the leads it keeps.
pub struct Frontier {
    queue: std::collections::VecDeque<(String, u32)>,
    visited: StringHashSet,
    finished: StringHashSet,
    in_flight: usize,
    max_depth: u32,
    base_domain: String,
    taken: Vec<(String, u32)>,
    leads: Vec<Lead>,
    start: Ghost<Seq<char>>,
    admitted: Ghost<Seq<Seq<char>>>,
    pages: Ghost<Seq<(Seq<char>, u32, Seq<char>)>>,
    failed: Ghost<Seq<(Seq<char>, u32)>>,
}

impl View for Frontier {
    type V = FrontierView;

    closed spec fn view(&self) -> FrontierView {
        FrontierView {
            start: self.start@,
            base_domain: self.base_domain@,
            max_depth: self.max_depth,
            queue: self.queue.deep_view(),
            admitted: self.admitted@,
            taken: self.taken.deep_view(),
            pages: self.pages@,
            failed: self.failed@,
            leads: self.leads.deep_view(),
        }
    }
}

impl Frontier {
    /// The frontier's own invariant: the crawl invariant, with the visited set
    /// holding exactly the admitted URLs, the finished set exactly the
    /// normalized URLs of the offered and failed pages, and the count of pages
    /// in flight.
    pub closed spec fn wf(&self) -> bool {
        &&& frontier_wf(self@)
        &&& self.visited@ == self.admitted@.to_set()
        &&& self.finished@ == finished_urls(self@).to_set()
        &&& self.in_flight == in_flight(self@)
    }

    /// A crawl of `start_url` to at most `max_depth` levels, staying on the host
    /// of `start_url`: the start page is queued at depth 0 and admitted. Fails
    /// as `base_domain` does when the start URL has no host.
    pub fn new(start_url: &str, max_depth: u32) -> (r: Result<Self, String>)
        ensures
            match r {
                Err(m) => base_domain_of(start_url@) == Err::<Seq<char>, Seq<char>>(m@),
                Ok(f) => {
                    &&& f.wf()
                    &&& base_domain_of(start_url@) == Ok::<Seq<char>, Seq<char>>(f@.base_domain)
                    &&& f@.start == start_url@
                    &&& f@.max_depth == max_depth
                    &&& f@.queue == seq![(start_url@, 0u32)]
                    &&& f@.admitted == seq![normalized_url(start_url@)]
                    &&& f@.taken.len() == 0
                    &&& f@.pages.len() == 0
                    &&& f@.failed.len() == 0
                    &&& f@.leads.len() == 0
                },
            },
    {
        let domain = match base_domain(start_url) {
            Ok(d) => d,
            Err(m) => {
                return Err(m);
            },
        };
        let mut queue = std::collections::VecDeque::new();
        queue.push_back((start_url.to_owned(), 0u32));
        let mut visited = StringHashSet::new();
        let n = normalize_url(start_url);
        let ghost k = n@;
        visited.insert(n);
        let admitted: Ghost<Seq<Seq<char>>> = Ghost(Seq::<Seq<char>>::empty().push(k));
        let start: Ghost<Seq<char>> = Ghost(start_url@);
        let pages: Ghost<Seq<(Seq<char>, u32, Seq<char>)>> = Ghost(Seq::empty());
        let r = Frontier {
            queue,
            visited,
            finished: StringHashSet::new(),
            in_flight: 0,
            max_depth,
            base_domain: domain,
            taken: Vec::new(),
            leads: Vec::new(),
            start,
            admitted,
            pages,
            failed: Ghost(Seq::empty()),
        };
        assert(r@.queue =~= seq![(start_url@, 0u32)]);
        assert(r@.taken =~= Seq::<(Seq<char>, u32)>::empty());
        assert(r@.leads =~= Seq::<LeadView>::empty());
        assert(r.admitted@[0] == k);
        assert forall|a: Seq<char>| r.admitted@.to_set().contains(a) == r.visited@.contains(a) by {
            if r.admitted@.contains(a) {
                let m = choose|m: int| 0 <= m < r.admitted@.len() && r.admitted@[m] == a;
                assert(m == 0);
            }
        }
        assert(r.visited@ =~= r.admitted@.to_set());
        assert(r@.queue[0].0 == start_url@);
        assert(r@.admitted.contains(k)) by {
            assert(r@.admitted[0] == k);
        }
        assert(reached_in(r@, start_url@, 0));
        assert(r@.taken + r@.queue =~= seq![(start_url@, 0u32)]);
        assert(r@.admitted =~= item_urls(r@.taken + r@.queue));
        assert(finished_urls(r@) =~= Seq::<Seq<char>>::empty());
        assert(r.finished@ =~= finished_urls(r@).to_set());
        Ok(r)
    }

    /// The domain the crawl stays on.
    pub fn domain(&self) -> (r: &str)
        ensures
            r@ == self@.base_domain,
    {
        self.base_domain.as_str()
    }

    /// The leads kept so far.
    pub fn leads(&self) -> (r: &Vec<Lead>)
        ensures
            r.deep_view() == self@.leads,
    {
        &self.leads
    }

    /// Takes the next pages to fetch from the front of the queue, as many as
    /// there is room for beside the pages in flight, so that at most
    /// `BATCH_SIZE` are in flight; they are recorded as handed out.
    pub fn next_batch(&mut self) -> (batch: Vec<(String, u32)>)
        requires
            old(self).wf(),
        ensures
            final(self).wf(),
            batch.deep_view() == old(self)@.queue.take(batch.len() as int),
            batch.len() == if old(self)@.queue.len() < BATCH_SIZE - in_flight(old(self)@) {
                old(self)@.queue.len() as int
            } else {
                BATCH_SIZE - in_flight(old(self)@)
            },
            final(self)@ == (FrontierView {
                queue: old(self)@.queue.skip(batch.len() as int),
                taken: old(self)@.taken + batch.deep_view(),
                ..old(self)@
            }),
    {
        let ghost f0 = self@;
        let ghost q0 = self@.queue;
        let mut batch: Vec<(String, u32)> = Vec::new();
        let room = BATCH_SIZE - self.in_flight;
        assert(q0.skip(0) =~= q0);
        assert(f0.taken + batch.deep_view() =~= f0.taken);
        assert(q0.take(0) =~= batch.deep_view());
        loop
            invariant
                self.wf(),
                f0 == old(self)@,
                q0 == f0.queue,
                room == BATCH_SIZE - in_flight(f0),
                batch.len() <= room,
                batch.len() <= q0.len(),
                batch.deep_view() == q0.take(batch.len() as int),
                self@ == (FrontierView {
                    queue: q0.skip(batch.len() as int),
                    taken: f0.taken + batch.deep_view(),
                    ..f0
                }),
            ensures
                self.wf(),
                batch.deep_view() == q0.take(batch.len() as int),
                self@ == (FrontierView {
                    queue: q0.skip(batch.len() as int),
                    taken: f0.taken + batch.deep_view(),
                    ..f0
                }),
                batch.len() == if q0.len() < room {
                    q0.len()
                } else {
                    room as nat
                },
            decreases room - batch.len(),
        {
            if batch.len() >= room {
                break;
            }
            let ghost qv = self.queue@;
            let ghost dq = self@.queue;
            let ghost before = self@;
            match self.queue.pop_front() {
                Some(item) => {
                    let ghost b0 = batch.deep_view();
                    let ghost tk0 = self.taken.deep_view();
                    assert(qv.len() > 0);
                    assert(dq.len() == qv.len());
                    assert(dq[0] == qv[0].deep_view());
                    assert(dq == q0.skip(batch.len() as int));
                    assert(dq[0] == q0[batch.len() as int]);
                    let copy = (item.0.clone(), item.1);
                    self.taken.push(copy);
                    batch.push(item);
                    self.in_flight = self.in_flight + 1;
                    assert(batch.deep_view() =~= b0.push(qv[0].deep_view()));
                    assert(self.taken.deep_view() =~= tk0.push(qv[0].deep_view()));
                    assert(q0.take(batch.len() as int) =~= q0.take(batch.len() - 1).push(
                        q0[batch.len() - 1],
                    ));
                    assert(self@.queue =~= dq.skip(1));
                    assert(dq.skip(1) =~= q0.skip(batch.len() as int));
                    assert(self@.taken =~= f0.taken + batch.deep_view());
                    assert forall|i: int| 0 <= i < self@.queue.len() implies (#[trigger] self@.queue[i]).1
                        <= self@.max_depth && self@.admitted.contains(normalized_url(self@.queue[i].0))
                        && reached_in(self@, self@.queue[i].0, self@.queue[i].1 as nat) by {
                        assert(self@.queue[i] == before.queue[i + 1]);
                    }
                    assert forall|i: int| 0 <= i < self@.taken.len() implies (#[trigger] self@.taken[i]).1
                        <= self@.max_depth && reached_in(self@, self@.taken[i].0, self@.taken[i].1 as nat) by {
                        if i < tk0.len() {
                            assert(self@.taken[i] == before.taken[i]);
                        } else {
                            assert(self@.taken[i] == before.queue[0]);
                        }
                    }
                    assert(self@.leads == before.leads);
                    assert(self@.pages == before.pages);
                    assert(self@.admitted == before.admitted);
                    assert forall|i: int| 0 <= i < self@.leads.len() implies #[trigger] lead_from_page(
                        self@,
                        i,
                    ) by {
                        assert(lead_from_page(before, i));
                        let j = choose|j: int| #[trigger] lead_of_page(before, i, j);
                        assert(lead_of_page(self@, i, j));
                    }
                    assert forall|i: int| 0 <= i < self@.pages.len() implies self@.taken.contains(
                        ((#[trigger] self@.pages[i]).0, self@.pages[i].1),
                    ) by {
                        let m = choose|m: int|
                            0 <= m < before.taken.len() && before.taken[m] == (
                                before.pages[i].0,
                                before.pages[i].1,
                            );
                        assert(self@.taken[m] == before.taken[m]);
                    }
                    assert(self@.taken + self@.queue =~= before.taken + before.queue);
                    assert forall|i: int| 0 <= i < self@.failed.len() implies self@.taken.contains(
                        #[trigger] self@.failed[i],
                    ) by {
                        let m = choose|m: int| 0 <= m < before.taken.len() && before.taken[m] == before.failed[i];
                        assert(self@.taken[m] == before.taken[m]);
                    }
                    assert(finished_urls(self@) == finished_urls(before));
                    assert(in_flight(self@) == in_flight(before) + 1);
                    assert forall|i: int| 0 <= i < self@.pages.len() implies #[trigger] links_admitted(
                        self@,
                        i,
                    ) by {
                        assert(links_admitted(before, i));
                    }
                },
                None => {
                    break;
                },
            }
        }
        batch
    }

    /// Whether `(url, depth)` was handed out.
    fn was_taken(&self, url: &str, depth: u32) -> (b: bool)
        ensures
            b == self@.taken.contains((url@, depth)),
    {
        let mut i: usize = 0;
        while i < self.taken.len()
            invariant
                i <= self.taken.len(),
                forall|k: int| 0 <= k < i ==> self@.taken[k] != (url@, depth),
            decreases self.taken.len() - i,
        {
            assert(self@.taken[i as int] == (self.taken@[i as int].0@, self.taken@[i as int].1));
            if self.taken[i].1 == depth && same_text(self.taken[i].0.as_str(), url) {
                assert(self@.taken[i as int] == (url@, depth));
                return true;
            }
            i = i + 1;
        }
        false
    }

    /// Records that the page `url`, handed out at `depth`, was fetched with the
    /// contents `html`: keeps its lead when that holds data, and offers its
    /// internal links. Returns the number of emails, phones and social links of
    /// the lead kept, if one was. A page that is not in flight (not handed out,
    /// or with a normalized URL already offered or failed) changes nothing.
    pub fn visit(&mut self, url: &str, depth: u32, html: &str) -> (r: Option<(usize, usize, usize)>)
        requires
            old(self).wf(),
        ensures
            final(self).wf(),
            can_visit(old(self)@, url@, depth) ==> final(self)@ == after_visit(
                old(self)@,
                url@,
                depth,
                html@,
            ),
            !can_visit(old(self)@, url@, depth) ==> final(self)@ == old(self)@,
            r is Some <==> can_visit(old(self)@, url@, depth) && lead_has_data(
                lead_dedup(raw_lead(html@, url@)),
            ),
            r matches Some(c) ==> c.0 == lead_dedup(raw_lead(html@, url@)).emails.len() && c.1
                == lead_dedup(raw_lead(html@, url@)).phones.len() && c.2 == lead_dedup(
                raw_lead(html@, url@),
            ).socials.len(),
    {
        if !self.was_taken(url, depth) {
            return None;
        }
        let ghost f0 = self@;
        let ghost finished0 = self.finished@;
        let n = normalize_url(url);
        if !self.finished.insert(n) {
            assert(self.finished@ =~= finished0);
            return None;
        }
        proof {
            lemma_room_for_one(f0, url@, depth);
        }
        self.in_flight = self.in_flight - 1;
        let lead = extract_all(html, url);
        let ghost lv = lead@;
        proof {
            let fu = fetched_urls(self.pages@);
            self.pages@ = self.pages@.push((url@, depth, html@));
            assert(fetched_urls(self.pages@) =~= fu.push(normalized_url(url@)));
            lemma_finish_one(fu, item_urls(f0.failed), normalized_url(url@));
        }
        let report = if lead.has_data() {
            let c = (lead.emails.len(), lead.phones.len(), lead.socials.len());
            let ghost l0 = self.leads.deep_view();
            self.leads.push(lead);
            assert(self.leads.deep_view() =~= l0.push(lv));
            Some(c)
        } else {
            None
        };
        assert(self@ == after_record(f0, url@, depth, html@));
        if depth < self.max_depth {
            let links = extract_internal_links(html, url, self.base_domain.as_str());
            self.add_links(depth, links);
        }
        proof {
            assert(!finished_urls(f0).contains(normalized_url(url@)));
            law_visit_keeps_invariant(f0, url@, depth, html@);
        }
        report
    }

    /// Records that the fetch of the page `url`, handed out at `depth`, failed,
    /// so that it is no longer in flight. Returns whether it was in flight; a
    /// page that was not changes nothing.
    pub fn fetch_failed(&mut self, url: &str, depth: u32) -> (r: bool)
        requires
            old(self).wf(),
        ensures
            final(self).wf(),
            r == can_visit(old(self)@, url@, depth),
            r ==> final(self)@ == after_fail(old(self)@, url@, depth),
            !r ==> final(self)@ == old(self)@,
    {
        if !self.was_taken(url, depth) {
            return false;
        }
        let ghost f0 = self@;
        let ghost finished0 = self.finished@;
        let n = normalize_url(url);
        if !self.finished.insert(n) {
            assert(self.finished@ =~= finished0);
            return false;
        }
        proof {
            lemma_room_for_one(f0, url@, depth);
        }
        self.in_flight = self.in_flight - 1;
        proof {
            self.failed@ = self.failed@.push((url@, depth));
            lemma_finish_one(fetched_urls(f0.pages), item_urls(f0.failed), normalized_url(url@));
            assert(item_urls(self.failed@) =~= item_urls(f0.failed).push(normalized_url(url@)));
            assert(self@ == after_fail(f0, url@, depth));
            law_fail_keeps_invariant(f0, url@, depth);
        }
        true
    }

    /// Offers links found on a page fetched at `depth`, below the depth limit:
    /// each link whose normalized URL was not admitted before is admitted and
    /// queued one level deeper.
    fn add_links(&mut self, depth: u32, links: Vec<String>)
        requires
            old(self).visited@ == old(self)@.admitted.to_set(),
            depth < old(self)@.max_depth,
        ensures
            final(self).visited@ == final(self)@.admitted.to_set(),
            final(self).finished@ == old(self).finished@,
            final(self).in_flight == old(self).in_flight,
            final(self)@ == after_links(old(self)@, depth, links.deep_view()),
    {
        let ghost f0 = self@;
        let ghost finished0 = self.finished@;
        let ghost lv = links.deep_view();
        let mut i: usize = 0;
        proof {
            lemma_fresh_links(f0.admitted, lv.take(0));
            assert(fresh_links(f0.admitted, lv.take(0)) =~= Seq::<Seq<char>>::empty());
            assert(self@.queue =~= f0.queue + Seq::<Seq<char>>::empty().map_values(|u: Seq<char>| (u, (depth + 1) as u32)));
            assert(self@.admitted =~= f0.admitted + Seq::<Seq<char>>::empty().map_values(|u: Seq<char>| normalized_url(u)));
        }
        while i < links.len()
            invariant
                i <= links.len(),
                lv == links.deep_view(),
                depth < f0.max_depth,
                self.finished@ == finished0,
                self.in_flight == old(self).in_flight,
                self.visited@ == self@.admitted.to_set(),
                self@ == (FrontierView {
                    queue: f0.queue + fresh_links(f0.admitted, lv.take(i as int)).map_values(
                        |u: Seq<char>| (u, (depth + 1) as u32),
                    ),
                    admitted: f0.admitted + fresh_links(f0.admitted, lv.take(i as int)).map_values(
                        |u: Seq<char>| normalized_url(u),
                    ),
                    ..f0
                }),
            decreases links.len() - i,
        {
            let ghost t = lv.take(i as int);
            let ghost t1 = lv.take(i + 1);
            let ghost fr = fresh_links(f0.admitted, t);
            proof {
                assert(t1.drop_last() =~= t);
                assert(t1.last() == links@[i as int]@);
                lemma_fresh_links(f0.admitted, t);
            }
            let link = &links[i];
            let n = normalize_url(link.as_str());
            proof {
                assert(n@ == url_key()(t1[i as int]));
                if key_seen_before(t1, url_key(), i as int) {
                    let j = choose|j: int| 0 <= j < i && #[trigger] url_key()(t1[j]) == url_key()(t1[i as int]);
                    assert(t[j] == t1[j]);
                    assert(keys_of(t, url_key()).contains(n@));
                }
                if self.visited@.contains(n@) {
                    assert(self@.admitted.contains(n@));
                    let m = choose|m: int| 0 <= m < self@.admitted.len() && self@.admitted[m] == n@;
                    if m >= f0.admitted.len() {
                        let mm = m - f0.admitted.len();
                        assert(normalized_url(fr[mm]) == n@);
                        assert(keys_of(fr, url_key()).contains(n@));
                        let j = choose|j: int| 0 <= j < t.len() && #[trigger] url_key()(t[j]) == n@;
                        assert(t1[j] == t[j]);
                    } else {
                        assert(f0.admitted.contains(n@));
                    }
                }
                if f0.admitted.contains(n@) {
                    assert(self@.admitted[f0.admitted.index_of(n@)] == n@);
                }
                if !f0.admitted.contains(n@) && key_seen_before(t1, url_key(), i as int) {
                    assert(keys_of(fr, url_key()).contains(n@));
                    let m = choose|m: int| 0 <= m < fr.len() && #[trigger] url_key()(fr[m]) == n@;
                    assert(self@.admitted[f0.admitted.len() + m] == n@);
                }
            }
            let ghost seen_before = self.visited@.contains(n@);
            assert(seen_before == (f0.admitted.contains(normalized_url(t1.last())) || key_seen_before(
                t1,
                url_key(),
                t1.len() - 1,
            )));
            let ghost q_before = self@.queue;
            let ghost a_before = self@.admitted;
            let ghost v_before = self.visited@;
            if self.visited.insert(n) {
                let ghost k = normalized_url(link@);
                self.queue.push_back((link.clone(), depth + 1));
                assert(self@.queue =~= q_before.push((link@, (depth + 1) as u32)));
                proof {
                    self.admitted@ = self.admitted@.push(k);
                    let fr1 = fresh_links(f0.admitted, t1);
                    assert(fr1 == fr.push(link@));
                    assert(self@.queue =~= f0.queue + fr1.map_values(|u: Seq<char>| (u, (depth + 1) as u32)));
                    assert(self@.admitted =~= f0.admitted + fr1.map_values(|u: Seq<char>| normalized_url(u)));
                    a_before.lemma_push_to_set_commute(k);
                    assert(self@.admitted == a_before.push(k));
                    assert(self.visited@ =~= self@.admitted.to_set());
                }
            } else {
                proof {
                    let fr1 = fresh_links(f0.admitted, t1);
                    assert(fr1 == fr);
                    assert(self.visited@ =~= v_before);
                }
            }
            i = i + 1;
        }
        proof {
            assert(lv.take(i as int) =~= lv);
        }
    }
}

/// Marking one more normalized URL `k` as done, after the offered ones or after
/// the failed ones, keeps the done URLs distinct and adds `k` to their set.
proof fn lemma_finish_one(a: Seq<Seq<char>>, b: Seq<Seq<char>>, k: Seq<char>)
    requires
        (a + b).no_duplicates(),
        !(a + b).contains(k),
    ensures
        (a.push(k) + b).no_duplicates(),
        (a.push(k) + b).to_set() == (a + b).to_set().insert(k),
        (a + b.push(k)) == (a + b).push(k),
        ((a + b).push(k)).no_duplicates(),
        (a + b).push(k).to_set() == (a + b).to_set().insert(k),
{
    let c = a.push(k) + b;
    let n = a.len() as int;
    assert forall|x: int, y: int| 0 <= x < c.len() && 0 <= y < c.len() && x != y implies c[x] != c[y] by {
        if x != n && y != n {
            let x1 = if x < n { x } else { x - 1 };
            let y1 = if y < n { y } else { y - 1 };
            assert(c[x] == (a + b)[x1]);
            assert(c[y] == (a + b)[y1]);
        } else if x == n {
            let y1 = if y < n { y } else { y - 1 };
            assert(c[y] == (a + b)[y1]);
        } else {
            let x1 = if x < n { x } else { x - 1 };
            assert(c[x] == (a + b)[x1]);
        }
    }
    assert forall|e: Seq<char>| c.contains(e) <==> (a + b).contains(e) || e == k by {
        if c.contains(e) {
            let x = choose|x: int| 0 <= x < c.len() && c[x] == e;
            if x < n {
                assert((a + b)[x] == e);
            } else if x > n {
                assert((a + b)[x - 1] == e);
            }
        }
        if (a + b).contains(e) {
            let x = choose|x: int| 0 <= x < (a + b).len() && (a + b)[x] == e;
            if x < n {
                assert(c[x] == e);
            } else {
                assert(c[x + 1] == e);
            }
        }
        if e == k {
            assert(c[n] == e);
        }
    }
    assert(c.to_set() =~= (a + b).to_set().insert(k));
    assert(a + b.push(k) =~= (a + b).push(k));
    (a + b).lemma_push_to_set_commute(k);
    let d = (a + b).push(k);
    assert forall|x: int, y: int| 0 <= x < d.len() && 0 <= y < d.len() && x != y implies d[x] != d[y] by {
        if x < d.len() - 1 && y < d.len() - 1 {
            assert(d[x] == (a + b)[x]);
            assert(d[y] == (a + b)[y]);
        } else if x < d.len() - 1 {
            assert(d[x] == (a + b)[x]);
        } else {
            assert(d[y] == (a + b)[y]);
        }
    }
}

/// A page in flight leaves room: fewer pages are offered or failed than were
/// handed out.
proof fn lemma_room_for_one(f: FrontierView, url: Seq<char>, depth: u32)
    requires
        crawl_core(f),
        can_visit(f, url, depth),
    ensures
        in_flight(f) >= 1,
{
    let fin = finished_urls(f);
    let k = normalized_url(url);
    let all = item_urls(f.taken);
    let p = f.pages.len() as int;
    assert forall|x: int, y: int| 0 <= x < all.len() && 0 <= y < all.len() && x != y implies all[x] != all[y] by {
        assert((f.taken + f.queue)[x] == f.taken[x]);
        assert((f.taken + f.queue)[y] == f.taken[y]);
        assert(all[x] == f.admitted[x]);
        assert(all[y] == f.admitted[y]);
    }
    let fk = fin.push(k);
    assert forall|x: int, y: int| 0 <= x < fk.len() && 0 <= y < fk.len() && x != y implies fk[x] != fk[y] by {
        if x < fin.len() && y < fin.len() {
            assert(fk[x] == fin[x]);
            assert(fk[y] == fin[y]);
        } else if x < fin.len() {
            assert(fk[x] == fin[x]);
        } else {
            assert(fk[y] == fin[y]);
        }
    }
    assert forall|e: Seq<char>| fk.to_set().contains(e) implies all.to_set().contains(e) by {
        let x = choose|x: int| 0 <= x < fk.len() && fk[x] == e;
        if x < p {
            assert(fk[x] == normalized_url(f.pages[x].0));
            assert(f.taken.contains((f.pages[x].0, f.pages[x].1)));
            let t = choose|t: int| 0 <= t < f.taken.len() && f.taken[t] == (f.pages[x].0, f.pages[x].1);
            assert(all[t] == e);
        } else if x < fin.len() {
            assert(fk[x] == normalized_url(f.failed[x - p].0));
            assert(f.taken.contains(f.failed[x - p]));
            let t = choose|t: int| 0 <= t < f.taken.len() && f.taken[t] == f.failed[x - p];
            assert(all[t] == e);
        } else {
            let t = choose|t: int| 0 <= t < f.taken.len() && f.taken[t] == (url, depth);
            assert(all[t] == e);
        }
    }
    fk.unique_seq_to_set();
    all.unique_seq_to_set();
    vstd::seq_lib::seq_to_set_is_finite(all);
    vstd::set_lib::lemma_len_subset(fk.to_set(), all.to_set());
}

/// Recording that the fetch of a page in flight failed keeps the crawl
/// invariant, and leaves one page fewer in flight.
pub proof fn law_fail_keeps_invariant(f: FrontierView, url: Seq<char>, depth: u32)
    requires
        frontier_wf(f),
        can_visit(f, url, depth),
    ensures
        frontier_wf(after_fail(f, url, depth)),
        in_flight(after_fail(f, url, depth)) == in_flight(f) - 1,
{
    let g = after_fail(f, url, depth);
    lemma_room_for_one(f, url, depth);
    lemma_finish_one(fetched_urls(f.pages), item_urls(f.failed), normalized_url(url));
    assert(item_urls(g.failed) =~= item_urls(f.failed).push(normalized_url(url)));
    assert forall|i: int| 0 <= i < g.queue.len() implies (#[trigger] g.queue[i]).1 <= g.max_depth
        && g.admitted.contains(normalized_url(g.queue[i].0)) && reached_in(g, g.queue[i].0, g.queue[i].1 as nat) by {
        assert(reached_in(f, f.queue[i].0, f.queue[i].1 as nat));
    }
    assert forall|i: int| 0 <= i < g.taken.len() implies (#[trigger] g.taken[i]).1 <= g.max_depth
        && reached_in(g, g.taken[i].0, g.taken[i].1 as nat) by {
        assert(reached_in(f, f.taken[i].0, f.taken[i].1 as nat));
    }
    assert forall|i: int| 0 <= i < g.failed.len() implies g.taken.contains(#[trigger] g.failed[i]) by {
        if i < f.failed.len() {
            assert(g.failed[i] == f.failed[i]);
        }
    }
    assert forall|i: int| 0 <= i < g.leads.len() implies #[trigger] lead_from_page(g, i) by {
        assert(lead_from_page(f, i));
        let j = choose|j: int| #[trigger] lead_of_page(f, i, j);
        assert(lead_of_page(g, i, j));
    }
    assert forall|i: int| 0 <= i < g.pages.len() implies #[trigger] links_admitted(g, i) by {
        assert(links_admitted(f, i));
    }
}

/// Reaching a page stays true as more pages are offered.
pub proof fn lemma_reached_grows(
    start: Seq<char>,
    base_domain: Seq<char>,
    pages: Seq<(Seq<char>, u32, Seq<char>)>,
    x: (Seq<char>, u32, Seq<char>),
    u: Seq<char>,
    d: nat,
)
    requires
        reached(start, base_domain, pages, u, d),
    ensures
        reached(start, base_domain, pages.push(x), u, d),
    decreases d,
{
    if d > 0 {
        let i = choose|i: int|
            #![trigger pages[i]]
            0 <= i < pages.len() && pages[i].1 == d - 1 && internal_links_in(
                pages[i].2,
                pages[i].0,
                base_domain,
            ).contains(u) && reached(start, base_domain, pages, pages[i].0, (d - 1) as nat);
        lemma_reached_grows(start, base_domain, pages, x, pages[i].0, (d - 1) as nat);
        assert(pages.push(x)[i] == pages[i]);
    }
}

/// Recording a fetched page that may be offered keeps the crawl invariant but
/// for the links of that page, which need offering only below the depth limit,
/// and the page is reached.
proof fn lemma_record_keeps_invariant(f: FrontierView, url: Seq<char>, depth: u32, html: Seq<char>)
    requires
        frontier_wf(f),
        can_visit(f, url, depth),
    ensures
        crawl_core(after_record(f, url, depth, html)),
        links_wf(after_record(f, url, depth, html), f.pages.len() as int),
        depth >= f.max_depth ==> frontier_wf(after_record(f, url, depth, html)),
        reached_in(after_record(f, url, depth, html), url, depth as nat),
        depth <= f.max_depth,
{
    let g = after_record(f, url, depth, html);
    let fu = fetched_urls(f.pages);
    assert(fetched_urls(g.pages) =~= fu.push(normalized_url(url)));
    lemma_finish_one(fu, item_urls(f.failed), normalized_url(url));
    lemma_room_for_one(f, url, depth);
    assert forall|i: int| 0 <= i < f.pages.len() implies #[trigger] links_admitted(g, i) by {
        assert(links_admitted(f, i));
        assert(g.pages[i] == f.pages[i]);
    }
    let t = choose|t: int| 0 <= t < f.taken.len() && f.taken[t] == (url, depth);
    assert(depth <= f.max_depth && reached_in(f, url, depth as nat)) by {
        assert(f.taken[t] == (url, depth));
    }
    lemma_reached_grows(f.start, f.base_domain, f.pages, (url, depth, html), url, depth as nat);
    assert forall|i: int| 0 <= i < g.queue.len() implies (#[trigger] g.queue[i]).1 <= g.max_depth
        && g.admitted.contains(normalized_url(g.queue[i].0)) && reached_in(g, g.queue[i].0, g.queue[i].1 as nat) by {
        lemma_reached_grows(f.start, f.base_domain, f.pages, (url, depth, html), f.queue[i].0, f.queue[i].1 as nat);
    }
    assert forall|i: int| 0 <= i < g.taken.len() implies (#[trigger] g.taken[i]).1 <= g.max_depth
        && reached_in(g, g.taken[i].0, g.taken[i].1 as nat) by {
        lemma_reached_grows(f.start, f.base_domain, f.pages, (url, depth, html), f.taken[i].0, f.taken[i].1 as nat);
    }
    assert forall|i: int| 0 <= i < g.pages.len() implies g.taken.contains(((#[trigger] g.pages[i]).0, g.pages[i].1)) by {
        if i < f.pages.len() {
            assert(g.pages[i] == f.pages[i]);
        } else {
            assert(g.taken[t] == (url, depth));
        }
    }
    assert forall|i: int| 0 <= i < g.leads.len() implies #[trigger] lead_from_page(g, i) by {
        if i < f.leads.len() {
            assert(g.leads[i] == f.leads[i]);
            assert(lead_from_page(f, i));
            let j = choose|j: int| #[trigger] lead_of_page(f, i, j);
            assert(g.pages[j] == f.pages[j]);
            assert(lead_of_page(g, i, j));
        } else {
            assert(g.pages[f.pages.len() as int] == (url, depth, html));
            assert(lead_of_page(g, i, f.pages.len() as int));
        }
    }
}

/// Offering the internal links of the last recorded page, which is reached and
/// below the depth limit, keeps the crawl invariant.
#[verifier::rlimit(40)]
proof fn lemma_offer_keeps_invariant(g: FrontierView, url: Seq<char>, depth: u32, html: Seq<char>)
    requires
        crawl_core(g),
        links_wf(g, g.pages.len() - 1),
        g.pages.len() > 0,
        g.pages.last() == (url, depth, html),
        reached_in(g, url, depth as nat),
        depth < g.max_depth,
    ensures
        frontier_wf(after_links(g, depth, internal_links_in(html, url, g.base_domain))),
{
    let links = internal_links_in(html, url, g.base_domain);
    let h = after_links(g, depth, links);
    let fresh = fresh_links(g.admitted, links);
    lemma_fresh_links(g.admitted, links);
    assert forall|x: int, y: int|
        0 <= x < h.admitted.len() && 0 <= y < h.admitted.len() && x != y implies h.admitted[x]
        != h.admitted[y] by {
        let n = g.admitted.len() as int;
        if x < n && y < n {
            assert(h.admitted[x] == g.admitted[x]);
            assert(h.admitted[y] == g.admitted[y]);
        } else if x >= n && y >= n {
            assert(h.admitted[x] == url_key()(fresh[x - n]));
            assert(h.admitted[y] == url_key()(fresh[y - n]));
        } else if x < n {
            assert(h.admitted[y] == normalized_url(fresh[y - n]));
            assert(g.admitted.contains(h.admitted[x]));
        } else {
            assert(h.admitted[x] == normalized_url(fresh[x - n]));
            assert(g.admitted.contains(h.admitted[y]));
        }
    }
    assert forall|i: int| 0 <= i < h.queue.len() implies (#[trigger] h.queue[i]).1 <= h.max_depth
        && h.admitted.contains(normalized_url(h.queue[i].0)) && reached_in(h, h.queue[i].0, h.queue[i].1 as nat) by {
        let n = g.queue.len() as int;
        if i < n {
            assert(h.queue[i] == g.queue[i]);
            let m = choose|m: int| 0 <= m < g.admitted.len() && g.admitted[m] == normalized_url(
                g.queue[i].0,
            );
            assert(h.admitted[m] == g.admitted[m]);
        } else {
            let u = fresh[i - n];
            assert(h.queue[i] == (u, (depth + 1) as u32));
            assert(h.admitted[g.admitted.len() + i - n] == normalized_url(u));
            assert(links.contains(u));
            let p = g.pages.len() - 1;
            assert(g.pages[p] == (url, depth, html));
            assert(reached(g.start, g.base_domain, g.pages, u, (depth + 1) as nat));
        }
    }
    assert forall|i: int| 0 <= i < h.taken.len() implies (#[trigger] h.taken[i]).1 <= h.max_depth
        && reached_in(h, h.taken[i].0, h.taken[i].1 as nat) by {
        assert(h.taken[i] == g.taken[i]);
    }
    assert forall|i: int| 0 <= i < h.pages.len() implies h.taken.contains(((#[trigger] h.pages[i]).0, h.pages[i].1)) by {
        assert(h.pages[i] == g.pages[i]);
    }
    assert forall|i: int| 0 <= i < h.leads.len() implies #[trigger] lead_from_page(h, i) by {
        assert(h.leads[i] == g.leads[i]);
        assert(lead_from_page(g, i));
        let j = choose|j: int| #[trigger] lead_of_page(g, i, j);
        assert(h.pages[j] == g.pages[j]);
        assert(lead_of_page(h, i, j));
    }
    lemma_offer_keeps_order(g, depth, links);
    lemma_offer_admits_links(g, url, depth, html);
}

/// Offering links below the depth limit keeps the admitted URLs those of the
/// pages handed out and then queued, in order.
proof fn lemma_offer_keeps_order(g: FrontierView, depth: u32, links: Seq<Seq<char>>)
    requires
        g.admitted == item_urls(g.taken + g.queue),
        depth < g.max_depth,
    ensures
        after_links(g, depth, links).admitted == item_urls(
            after_links(g, depth, links).taken + after_links(g, depth, links).queue,
        ),
{
    let h = after_links(g, depth, links);
    let fresh = fresh_links(g.admitted, links);
    let old_items = g.taken + g.queue;
    let new_items = h.taken + h.queue;
    assert(new_items =~= old_items + fresh.map_values(|u: Seq<char>| (u, (depth + 1) as u32)));
    assert forall|i: int| 0 <= i < h.admitted.len() implies h.admitted[i] == item_urls(new_items)[i] by {
        if i < old_items.len() {
            assert(new_items[i] == old_items[i]);
            assert(h.admitted[i] == g.admitted[i]);
        } else {
            let k = i - old_items.len();
            assert(new_items[i] == (fresh[k], (depth + 1) as u32));
            assert(h.admitted[i] == normalized_url(fresh[k]));
        }
    }
    assert(h.admitted =~= item_urls(new_items));
}

/// Offering the internal links of the last recorded page, below the depth
/// limit, admits the normalized URL of each of them, and keeps those of the
/// links of the pages before admitted.
proof fn lemma_offer_admits_links(g: FrontierView, url: Seq<char>, depth: u32, html: Seq<char>)
    requires
        links_wf(g, g.pages.len() - 1),
        g.pages.len() > 0,
        g.pages.last() == (url, depth, html),
        depth < g.max_depth,
    ensures
        links_wf(
            after_links(g, depth, internal_links_in(html, url, g.base_domain)),
            g.pages.len() as int,
        ),
{
    let links = internal_links_in(html, url, g.base_domain);
    let h = after_links(g, depth, links);
    let fresh = fresh_links(g.admitted, links);
    lemma_fresh_links(g.admitted, links);
    assert forall|a: Seq<char>| g.admitted.contains(a) implies h.admitted.contains(a) by {
        let m = choose|m: int| 0 <= m < g.admitted.len() && g.admitted[m] == a;
        assert(h.admitted[m] == g.admitted[m]);
    }
    assert forall|i: int| 0 <= i < h.pages.len() implies #[trigger] links_admitted(h, i) by {
        if i < g.pages.len() - 1 {
            assert(links_admitted(g, i));
        } else {
            assert(h.pages[i] == (url, depth, html));
            assert forall|u: Seq<char>| #[trigger] links.contains(u) implies h.admitted.contains(
                normalized_url(u),
            ) by {
                let k = normalized_url(u);
                if !g.admitted.contains(k) {
                    let j = choose|j: int| 0 <= j < links.len() && links[j] == u;
                    assert(url_key()(links[j]) == k);
                    assert(keys_of(links, url_key()).contains(k));
                    assert(keys_of(fresh, url_key()).contains(k));
                    let m = choose|m: int| 0 <= m < fresh.len() && #[trigger] url_key()(fresh[m]) == k;
                    assert(h.admitted[g.admitted.len() + m] == normalized_url(fresh[m]));
                }
            }
        }
    }
}

/// Visiting a page in flight keeps the crawl invariant: no URL is admitted
/// twice; every queued or handed-out page lies within the depth limit and is
/// reached from the start through internal links; no page is offered twice; at
/// most `BATCH_SIZE` pages are in flight; every fetched page below the depth
/// limit has its internal links admitted; and every lead kept is the lead of a
/// fetched page, holding data.
pub proof fn law_visit_keeps_invariant(f: FrontierView, url: Seq<char>, depth: u32, html: Seq<char>)
    requires
        frontier_wf(f),
        can_visit(f, url, depth),
    ensures
        frontier_wf(after_visit(f, url, depth, html)),
{
    lemma_record_keeps_invariant(f, url, depth, html);
    let g = after_record(f, url, depth, html);
    if depth < f.max_depth {
        lemma_offer_keeps_invariant(g, url, depth, html);
    }
}

/// The lead at position `i` of the crawl `f` is the lead of the offered page at
/// position `j`, holds data, and that page lies within the depth limit and is
/// reached from the start page.
pub open spec fn lead_of_reached_page(f: FrontierView, i: int, j: int) -> bool {
    &&& 0 <= j < f.pages.len()
    &&& f.leads[i] == lead_dedup(raw_lead(f.pages[j].2, f.pages[j].0))
    &&& lead_has_data(f.leads[i])
    &&& f.pages[j].1 <= f.max_depth
    &&& reached_in(f, f.pages[j].0, f.pages[j].1 as nat)
}

/// The lead at position `i` of the crawl `f` is the lead of a reached page.
pub open spec fn lead_from_reached_page(f: FrontierView, i: int) -> bool {
    exists|j: int| #[trigger] lead_of_reached_page(f, i, j)
}

/// The lead at position `i` of a crawl comes from a reached page.
proof fn lemma_lead_of_reached_page(f: FrontierView, i: int)
    requires
        frontier_wf(f),
        0 <= i < f.leads.len(),
    ensures
        lead_from_reached_page(f, i),
{
    assert(lead_from_page(f, i));
    let j = choose|j: int| #[trigger] lead_of_page(f, i, j);
    assert(f.taken.contains((f.pages[j].0, f.pages[j].1)));
    let t = choose|t: int| 0 <= t < f.taken.len() && f.taken[t] == (f.pages[j].0, f.pages[j].1);
    assert(f.taken[t] == (f.pages[j].0, f.pages[j].1));
    assert(lead_of_reached_page(f, i, j));
}

/// Every lead a crawl keeps is the lead (deduplicated) of a page it fetched,
/// holds data, and that page lies within the depth limit and is reached from
/// the start page through a chain of internal links, one level per link.
pub proof fn law_leads_come_from_reached_pages(f: FrontierView)
    requires
        frontier_wf(f),
    ensures
        forall|i: int| 0 <= i < f.leads.len() ==> #[trigger] lead_from_reached_page(f, i),
{
    assert forall|i: int| 0 <= i < f.leads.len() implies #[trigger] lead_from_reached_page(f, i) by {
        lemma_lead_of_reached_page(f, i);
    }
}

/// A crawl with depth limit 0 hands out only the start page, so every lead it
/// keeps is that of the start page.
pub proof fn law_depth_zero_visits_only_start(f: FrontierView)
    requires
        frontier_wf(f),
        f.max_depth == 0,
    ensures
        forall|i: int| 0 <= i < f.taken.len() ==> (#[trigger] f.taken[i]).0 == f.start,
        forall|i: int| 0 <= i < f.queue.len() ==> (#[trigger] f.queue[i]).0 == f.start,
        forall|i: int| 0 <= i < f.leads.len() ==> (#[trigger] f.leads[i]).url == f.start,
{
    law_leads_come_from_reached_pages(f);
    assert forall|i: int| 0 <= i < f.leads.len() implies (#[trigger] f.leads[i]).url == f.start by {
        assert(lead_from_reached_page(f, i));
        let j = choose|j: int| #[trigger] lead_of_reached_page(f, i, j);
        assert(f.pages[j].1 == 0);
    }
}

/// In a crawl with depth limit 1, every page handed out is the start page or an
/// internal link of the start page as fetched.
pub proof fn law_depth_one_visits_start_and_its_links(f: FrontierView)
    requires
        frontier_wf(f),
        f.max_depth == 1,
    ensures
        forall|i: int|
            0 <= i < f.taken.len() ==> (#[trigger] f.taken[i]).0 == f.start || exists|j: int|
                #![trigger f.pages[j]]
                0 <= j < f.pages.len() && f.pages[j].0 == f.start && f.pages[j].1 == 0
                    && internal_links_in(f.pages[j].2, f.start, f.base_domain).contains(f.taken[i].0),
{
    assert forall|i: int| 0 <= i < f.taken.len() implies (#[trigger] f.taken[i]).0 == f.start
        || exists|j: int|
        #![trigger f.pages[j]]
        0 <= j < f.pages.len() && f.pages[j].0 == f.start && f.pages[j].1 == 0 && internal_links_in(
            f.pages[j].2,
            f.start,
            f.base_domain,
        ).contains(f.taken[i].0) by {
        if f.taken[i].1 == 1 {
            let j = choose|j: int|
                #![trigger f.pages[j]]
                0 <= j < f.pages.len() && f.pages[j].1 == 0 && internal_links_in(
                    f.pages[j].2,
                    f.pages[j].0,
                    f.base_domain,
                ).contains(f.taken[i].0) && reached(f.start, f.base_domain, f.pages, f.pages[j].0, 0);
        }
    }
}

/// No two pages a crawl fetched share a normalized URL: each page is fetched
/// at most once.
pub proof fn law_fetched_pages_distinct(f: FrontierView)
    requires
        frontier_wf(f),
    ensures
        forall|i: int, j: int|
            0 <= i < f.pages.len() && 0 <= j < f.pages.len() && i != j ==> normalized_url(
                (#[trigger] f.pages[i]).0,
            ) != normalized_url((#[trigger] f.pages[j]).0),
{
    assert forall|i: int, j: int|
        0 <= i < f.pages.len() && 0 <= j < f.pages.len() && i != j implies normalized_url(
            (#[trigger] f.pages[i]).0,
        ) != normalized_url((#[trigger] f.pages[j]).0) by {
        assert(finished_urls(f)[i] == normalized_url(f.pages[i].0));
        assert(finished_urls(f)[j] == normalized_url(f.pages[j].0));
    }
}

/// At every point of a crawl at most `BATCH_SIZE` pages are in flight: handed
/// out for fetching, and neither offered nor failed. The pages offered or
/// failed were all handed out, and no two of them share a normalized URL.
pub proof fn law_at_most_a_batch_in_flight(f: FrontierView)
    requires
        frontier_wf(f),
    ensures
        0 <= in_flight(f) <= BATCH_SIZE,
        finished_urls(f).no_duplicates(),
        forall|i: int| 0 <= i < f.pages.len() ==> f.taken.contains(((#[trigger] f.pages[i]).0, f.pages[i].1)),
        forall|i: int| 0 <= i < f.failed.len() ==> f.taken.contains(#[trigger] f.failed[i]),
{
}

/// Once the queue of a crawl is empty, every internal link of every page it
/// fetched below the depth limit has its normalized URL among the pages handed
/// out for fetching; and when each page handed out was fetched, among the pages
/// fetched.
pub proof fn law_crawl_complete(f: FrontierView)
    requires
        frontier_wf(f),
        f.queue.len() == 0,
    ensures
        forall|i: int, u: Seq<char>|
            0 <= i < f.pages.len() && f.pages[i].1 < f.max_depth && #[trigger] internal_links_in(
                f.pages[i].2,
                f.pages[i].0,
                f.base_domain,
            ).contains(u) ==> exists|t: int|
                0 <= t < f.taken.len() && normalized_url((#[trigger] f.taken[t]).0) == normalized_url(u),
        (forall|t: int|
            0 <= t < f.taken.len() ==> fetched_urls(f.pages).contains(
                normalized_url((#[trigger] f.taken[t]).0),
            )) ==> forall|i: int, u: Seq<char>|
            0 <= i < f.pages.len() && f.pages[i].1 < f.max_depth && #[trigger] internal_links_in(
                f.pages[i].2,
                f.pages[i].0,
                f.base_domain,
            ).contains(u) ==> exists|j: int|
                0 <= j < f.pages.len() && normalized_url((#[trigger] f.pages[j]).0) == normalized_url(u),
{
    assert(f.taken + f.queue =~= f.taken);
    assert forall|i: int, u: Seq<char>|
        0 <= i < f.pages.len() && f.pages[i].1 < f.max_depth && #[trigger] internal_links_in(
            f.pages[i].2,
            f.pages[i].0,
            f.base_domain,
        ).contains(u) implies exists|t: int|
        0 <= t < f.taken.len() && normalized_url((#[trigger] f.taken[t]).0) == normalized_url(u) by {
        assert(links_admitted(f, i));
        let m = choose|m: int| 0 <= m < f.admitted.len() && f.admitted[m] == normalized_url(u);
        assert(f.admitted[m] == normalized_url(f.taken[m].0));
    }
    if forall|t: int|
        0 <= t < f.taken.len() ==> fetched_urls(f.pages).contains(
            normalized_url((#[trigger] f.taken[t]).0),
        ) {
        assert forall|i: int, u: Seq<char>|
            0 <= i < f.pages.len() && f.pages[i].1 < f.max_depth && #[trigger] internal_links_in(
                f.pages[i].2,
                f.pages[i].0,
                f.base_domain,
            ).contains(u) implies exists|j: int|
            0 <= j < f.pages.len() && normalized_url((#[trigger] f.pages[j]).0) == normalized_url(u) by {
            let t = choose|t: int|
                0 <= t < f.taken.len() && normalized_url((#[trigger] f.taken[t]).0) == normalized_url(u);
            assert(fetched_urls(f.pages).contains(normalized_url(f.taken[t].0)));
            let j = choose|j: int|
                0 <= j < fetched_urls(f.pages).len() && fetched_urls(f.pages)[j] == normalized_url(
                    f.taken[t].0,
                );
            assert(fetched_urls(f.pages)[j] == normalized_url(f.pages[j].0));
        }
    }
}

/// The links queued by `fresh_links` come from `links`, are not admitted yet,
/// and have distinct normalized forms, which are the normalized forms of the
/// links that were not admitted.
pub proof fn lemma_fresh_links(admitted: Seq<Seq<char>>, links: Seq<Seq<char>>)
    ensures
        forall|m: int|
            0 <= m < fresh_links(admitted, links).len() ==> links.contains(
                #[trigger] fresh_links(admitted, links)[m],
            ),
        forall|m: int|
            0 <= m < fresh_links(admitted, links).len() ==> !admitted.contains(
                normalized_url(#[trigger] fresh_links(admitted, links)[m]),
            ),
        forall|k: Seq<char>|
            keys_of(fresh_links(admitted, links), url_key()).contains(k) <==> (keys_of(
                links,
                url_key(),
            ).contains(k) && !admitted.contains(k)),
        crate::lead::distinct_keys(fresh_links(admitted, links), url_key()),
    decreases links.len(),
{
    let r = fresh_links(admitted, links);
    if links.len() > 0 {
        let t = links.drop_last();
        let p = fresh_links(admitted, t);
        lemma_fresh_links(admitted, t);
        let last = links.last();
        let kl = normalized_url(last);
        assert forall|m: int| 0 <= m < r.len() implies links.contains(#[trigger] r[m]) by {
            if m < p.len() {
                assert(r[m] == p[m]);
                let j = choose|j: int| 0 <= j < t.len() && t[j] == p[m];
                assert(links[j] == t[j]);
            } else {
                assert(links[links.len() - 1] == r[m]);
            }
        }
        assert forall|m: int| 0 <= m < r.len() implies !admitted.contains(
            normalized_url(#[trigger] r[m]),
        ) by {
            if m < p.len() {
                assert(r[m] == p[m]);
            }
        }
        assert forall|k: Seq<char>|
            keys_of(r, url_key()).contains(k) <==> (keys_of(links, url_key()).contains(k)
                && !admitted.contains(k)) by {
            if keys_of(r, url_key()).contains(k) {
                let m = choose|m: int| 0 <= m < r.len() && #[trigger] url_key()(r[m]) == k;
                if m < p.len() {
                    assert(r[m] == p[m]);
                    assert(keys_of(p, url_key()).contains(k));
                    let j = choose|j: int| 0 <= j < t.len() && #[trigger] url_key()(t[j]) == k;
                    assert(links[j] == t[j]);
                } else {
                    assert(url_key()(links[links.len() - 1]) == k);
                }
            }
            if keys_of(links, url_key()).contains(k) && !admitted.contains(k) {
                let j = choose|j: int| 0 <= j < links.len() && #[trigger] url_key()(links[j]) == k;
                if j < links.len() - 1 {
                    assert(t[j] == links[j]);
                    assert(keys_of(t, url_key()).contains(k));
                    assert(keys_of(p, url_key()).contains(k));
                    let m = choose|m: int| 0 <= m < p.len() && #[trigger] url_key()(p[m]) == k;
                    assert(r[m] == p[m]);
                } else if key_seen_before(links, url_key(), links.len() - 1) {
                    let j2 = choose|j2: int| 0 <= j2 < links.len() - 1 && #[trigger] url_key()(links[j2])
                        == url_key()(links[links.len() - 1]);
                    assert(t[j2] == links[j2]);
                    assert(keys_of(t, url_key()).contains(k));
                    assert(keys_of(p, url_key()).contains(k));
                    let m = choose|m: int| 0 <= m < p.len() && #[trigger] url_key()(p[m]) == k;
                    assert(r[m] == p[m]);
                } else {
                    assert(url_key()(r[r.len() - 1]) == k);
                }
            }
        }
        if !(admitted.contains(kl) || key_seen_before(links, url_key(), links.len() - 1)) {
            assert forall|x: int, y: int| 0 <= x < y < r.len() implies url_key()(#[trigger] r[x])
                != url_key()(#[trigger] r[y]) by {
                if y == r.len() - 1 {
                    assert(r[x] == p[x]);
                    assert(keys_of(p, url_key()).contains(url_key()(p[x])));
                    let j = choose|j: int| 0 <= j < t.len() && #[trigger] url_key()(t[j]) == url_key()(p[x]);
                    assert(links[j] == t[j]);
                } else {
                    assert(r[x] == p[x]);
                    assert(r[y] == p[y]);
                }
            }
        }
    }
}


} // verus!
