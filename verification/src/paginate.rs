//! The pagination engine: drives page fetches to termination and merges the
//! result.
//!
//! The upstream signals exhaustion in either of two ways, and both must be
//! honoured: it may return an empty page (the primary path), or it may
//! repeat the same forward token forever once the window reaches the end.
//! The engine therefore terminates on the first empty page, or as soon as a
//! page's forward token equals the token the page was requested with. An
//! upstream that never does either makes retrieval run for as long as pages
//! keep coming — an accepted upstream-contract assumption, deliberately not
//! capped here (unlike enumeration, which has a hard ceiling).
//!
//! Each page request depends on the token produced by the previous response,
//! so the engine is a strictly sequential state machine: [`Paginator`] holds
//! the loop state and [`Paginator::step`] consumes one fetched page. The
//! surrounding application performs the fetch between steps.

use vstd::prelude::*;
use crate::records::{Page, PageModel, Record, RecordModel};
use crate::sorting::{is_stable_sort_of, sort_records};

verus! {

/// The continuation-token state: either no explicit token has been supplied
/// yet (the first request), or the token of the previous response. An
/// empty-string token is an ordinary token, not an absence.
pub enum TokenState {
    Start,
    Continue(String),
}

impl View for TokenState {
    type V = Option<Seq<char>>;

    open spec fn view(&self) -> Option<Seq<char>> {
        match self {
            TokenState::Start => None,
            TokenState::Continue(t) => Some(t@),
        }
    }
}

/// The records a terminating run of pages delivers, in fetch order, given
/// the token `prev` that the first page was requested with. `None` means the
/// run ended without either termination signal.
pub open spec fn collect_pages(
    pages: Seq<PageModel>,
    prev: Option<Seq<char>>,
) -> Option<Seq<RecordModel>>
    decreases pages.len(),
{
    if pages.len() == 0 {
        None
    } else {
        let p = pages[0];
        if p.records.len() == 0 {
            Some(Seq::empty())
        } else if prev is Some && p.forward_token == prev->0 {
            Some(p.records)
        } else {
            match collect_pages(pages.skip(1), Some(p.forward_token)) {
                Some(rest) => Some(p.records + rest),
                None => None,
            }
        }
    }
}

/// Position `k` carries a termination signal: an empty page, or a forward
/// token equal to the token its page was requested with.
pub open spec fn terminating_index(
    pages: Seq<PageModel>,
    prev: Option<Seq<char>>,
    k: int,
) -> bool {
    &&& 0 <= k < pages.len()
    &&& (pages[k].records.len() == 0 || (k == 0 && prev is Some && pages[0].forward_token
        == prev->0) || (k > 0 && pages[k].forward_token == pages[k - 1].forward_token))
}

/// Any run of pages with a termination signal somewhere is collected in
/// full: the engine never runs past position `k`.
pub proof fn lemma_collect_terminates(pages: Seq<PageModel>, prev: Option<Seq<char>>, k: int)
    requires
        terminating_index(pages, prev, k),
    ensures
        collect_pages(pages, prev) is Some,
    decreases k,
{
    let p = pages[0];
    if p.records.len() == 0 {
    } else if prev is Some && p.forward_token == prev->0 {
    } else {
        assert(k >= 1);
        assert(terminating_index(pages.skip(1), Some(p.forward_token), k - 1));
        lemma_collect_terminates(pages.skip(1), Some(p.forward_token), k - 1);
    }
}

/// Law: for every sequence of pages that eventually signals exhaustion —
/// by an empty page or by repeating a forward token — retrieval terminates:
/// the collected record run is defined. Together with the contract of
/// [`retrieve_all_from_pages`], the result is then the stable timestamp sort
/// of exactly those records.
pub proof fn lemma_retrieval_terminates(pages: Seq<PageModel>)
    requires
        exists|k: int| terminating_index(pages, None, k),
    ensures
        collect_pages(pages, None) is Some,
{
    let k = choose|k: int| terminating_index(pages, None, k);
    lemma_collect_terminates(pages, None, k);
}

/// Law: an empty first page yields an empty record run, with no error.
pub proof fn lemma_empty_first_page(pages: Seq<PageModel>)
    requires
        pages.len() > 0,
        pages[0].records.len() == 0,
    ensures
        collect_pages(pages, None) == Some(Seq::<RecordModel>::empty()),
{
}

/// Law: a forward token that repeats immediately after the first non-empty
/// page still terminates retrieval, even though no empty page ever occurs.
pub proof fn lemma_immediate_token_repeat(pages: Seq<PageModel>)
    requires
        pages.len() >= 2,
        pages[0].records.len() > 0,
        pages[1].forward_token == pages[0].forward_token,
    ensures
        collect_pages(pages, None) is Some,
{
    lemma_collect_terminates(pages, None, 1);
}

/// The sequential state of one full retrieval: the token to request the
/// next page with, the records accumulated so far in fetch order, and
/// whether a termination signal has been seen.
pub struct Paginator {
    pub token: TokenState,
    pub records: Vec<Record>,
    pub done: bool,
}

impl Paginator {
    /// A retrieval that has not issued any request yet.
    pub fn new() -> (r: Paginator)
        ensures
            r.token@ is None,
            r.records@.len() == 0,
            !r.done,
    {
        Paginator { token: TokenState::Start, records: Vec::new(), done: false }
    }

    /// Consumes the page that the upstream returned for `self.token`.
    ///
    /// An empty page terminates at once, contributing nothing. A non-empty
    /// page contributes its records; if its forward token equals the token
    /// it was requested with, the run is over, otherwise the forward token
    /// becomes the next request's token.
    pub fn step(&mut self, page: Page)
        requires
            !old(self).done,
        ensures
            page@.records.len() == 0 ==> final(self).done && final(self).records.deep_view()
                == old(self).records.deep_view() && final(self).token@ == old(self).token@,
            page@.records.len() > 0 ==> final(self).records.deep_view() == old(
                self,
            ).records.deep_view() + page@.records,
            page@.records.len() > 0 && old(self).token@ is Some && old(self).token@->0
                == page@.forward_token ==> final(self).done,
            page@.records.len() > 0 && !(old(self).token@ is Some && old(self).token@->0
                == page@.forward_token) ==> !final(self).done && final(self).token@ == Some(
                page@.forward_token,
            ),
    {
        let Page { records: mut page_records, forward_token, backward_token: _ } = page;
        if page_records.len() == 0 {
            self.done = true;
            return ;
        }
        let ghost pre_records: Seq<Record> = self.records@;
        self.records.append(&mut page_records);
        proof {
            assert(self.records.deep_view() =~= old(self).records.deep_view() + page@.records);
        }
        let repeated = match &self.token {
            TokenState::Start => false,
            TokenState::Continue(t) => *t == forward_token,
        };
        if repeated {
            self.done = true;
        } else {
            self.token = TokenState::Continue(forward_token);
        }
    }

    /// Ends the retrieval, handing back every accumulated record in stable
    /// timestamp order.
    pub fn into_sorted_records(self) -> (r: Vec<Record>)
        ensures
            is_stable_sort_of(self.records.deep_view(), r.deep_view()),
    {
        sort_records(self.records)
    }
}

/// Runs a full retrieval over an already-fetched run of pages, where
/// `pages[i]` is the upstream's response to the engine's `i`-th request:
/// collects records until a termination signal and sorts them stably by
/// timestamp. Returns `None` when the run ends without a termination
/// signal — the caller supplied too few pages to finish.
pub fn retrieve_all_from_pages(pages: Vec<Page>) -> (r: Option<Vec<Record>>)
    ensures
        match collect_pages(pages.deep_view(), None) {
            Some(s) => r is Some && is_stable_sort_of(s, r->0.deep_view()),
            None => r is None,
        },
{
    let ghost all: Seq<PageModel> = pages.deep_view();
    let mut engine = Paginator::new();
    let mut rest = pages;
    proof {
        assert(rest.deep_view() =~= all.skip(0));
        if collect_pages(all, None) is Some {
            assert(Seq::<RecordModel>::empty() + collect_pages(all, None)->0 =~= collect_pages(
                all,
                None,
            )->0);
        }
    }
    while !engine.done && rest.len() > 0
        invariant
            rest.deep_view() == all.skip(all.len() - rest@.len()),
            rest@.len() <= all.len(),
            engine.done ==> collect_pages(all, None) == Some(engine.records.deep_view()),
            !engine.done ==> match collect_pages(rest.deep_view(), engine.token@) {
                Some(suffix) => collect_pages(all, None) == Some(
                    engine.records.deep_view() + suffix,
                ),
                None => collect_pages(all, None) is None,
            },
        decreases rest@.len(),
    {
        let ghost pre_rest: Seq<PageModel> = rest.deep_view();
        let ghost pre_records: Seq<RecordModel> = engine.records.deep_view();
        let ghost pre_token: Option<Seq<char>> = engine.token@;
        let page = rest.remove(0);
        proof {
            assert(rest.deep_view() =~= pre_rest.skip(1));
            assert(rest.deep_view() =~= all.skip(all.len() - rest@.len()));
        }
        engine.step(page);
        proof {
            let p = pre_rest[0];
            if p.records.len() == 0 {
                assert(pre_records + Seq::<RecordModel>::empty() =~= pre_records);
            } else if pre_token is Some && p.forward_token == pre_token->0 {
            } else {
                match collect_pages(pre_rest.skip(1), Some(p.forward_token)) {
                    Some(suffix2) => {
                        assert(pre_records + (p.records + suffix2) =~= (pre_records + p.records)
                            + suffix2);
                    },
                    None => {},
                }
            }
        }
    }
    if engine.done {
        Some(engine.into_sorted_records())
    } else {
        None
    }
}

} // verus!
