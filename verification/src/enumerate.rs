//! The enumeration engine: lists collection names through a token-paginated
//! listing API.
//!
//! Unlike the pagination engine, the upstream here reliably signals
//! completion by omitting the continuation token, so the loop runs until the
//! returned token is absent — under a hard iteration ceiling that converts a
//! misbehaving upstream, one that never clears its token, into an explicit
//! failure instead of an infinite loop. On completion the names are sorted
//! lexicographically.

use vstd::prelude::*;
use crate::sorting::{is_lex_sort_of, sort_names};

verus! {

/// One response window from the listing API: a run of names, and the token
/// to request the next window with — absent when the listing is complete.
pub struct NamesPage {
    pub names: Vec<String>,
    pub next_token: Option<String>,
}

/// The mathematical model of a [`NamesPage`].
pub struct NamesPageModel {
    pub names: Seq<Seq<char>>,
    pub next_token: Option<Seq<char>>,
}

impl View for NamesPage {
    type V = NamesPageModel;

    open spec fn view(&self) -> NamesPageModel {
        NamesPageModel { names: self.names.deep_view(), next_token: self.next_token.deep_view() }
    }
}

impl DeepView for NamesPage {
    type V = NamesPageModel;

    open spec fn deep_view(&self) -> NamesPageModel {
        self.view()
    }
}

/// Why an enumeration failed.
#[derive(Debug)]
pub enum EnumerationError {
    /// The upstream still returned a continuation token after the configured
    /// maximum number of listing requests.
    IterationCeiling,
    /// The supplied run of listing pages ended while the continuation token
    /// was still present.
    TruncatedInput,
}

/// What an enumeration run comes to at the spec level, with `budget`
/// listing requests allowed in all.
pub enum EnumOutcome {
    /// The token went absent; the names of every window, in fetch order.
    Finished(Seq<Seq<char>>),
    /// The budget was spent and the token was still present.
    CeilingHit,
    /// The supplied pages ran out while the token was still present.
    Unfinished,
}

/// The outcome of feeding `pages` in order to an enumeration allowed
/// `budget` requests, where `pages[i]` is the response to the `i`-th
/// request.
pub open spec fn enum_collect(pages: Seq<NamesPageModel>, budget: nat) -> EnumOutcome
    decreases pages.len(),
{
    if budget == 0 {
        EnumOutcome::CeilingHit
    } else if pages.len() == 0 {
        EnumOutcome::Unfinished
    } else {
        let p = pages[0];
        if p.next_token is None {
            EnumOutcome::Finished(p.names)
        } else {
            match enum_collect(pages.skip(1), (budget - 1) as nat) {
                EnumOutcome::Finished(rest) => EnumOutcome::Finished(p.names + rest),
                EnumOutcome::CeilingHit => EnumOutcome::CeilingHit,
                EnumOutcome::Unfinished => EnumOutcome::Unfinished,
            }
        }
    }
}

/// Law: when the continuation token never becomes absent, the iteration
/// ceiling fires at exactly the configured bound — after `n` requests, not
/// after fewer pages than that.
pub proof fn lemma_ceiling_exact(pages: Seq<NamesPageModel>, n: nat)
    requires
        1 <= n <= pages.len(),
        forall|j: int| 0 <= j < n ==> (#[trigger] pages[j].next_token) is Some,
    ensures
        enum_collect(pages, n) == EnumOutcome::CeilingHit,
    decreases n,
{
    if n > 1 {
        assert forall|j: int| 0 <= j < n - 1 implies (#[trigger] pages.skip(1)[j].next_token)
            is Some by {
            assert(pages.skip(1)[j] == pages[j + 1]);
        }
        lemma_ceiling_exact(pages.skip(1), (n - 1) as nat);
    } else {
        assert(pages[0].next_token is Some);
        assert(enum_collect(pages.skip(1), 0) == EnumOutcome::CeilingHit);
    }
}

/// Law: the ceiling never fires early — if the token goes absent on some
/// request within the budget, enumeration finishes.
pub proof fn lemma_no_early_ceiling(pages: Seq<NamesPageModel>, n: nat, j: int)
    requires
        0 <= j < n,
        j < pages.len(),
        pages[j].next_token is None,
        forall|l: int| 0 <= l < j ==> (#[trigger] pages[l].next_token) is Some,
    ensures
        enum_collect(pages, n) is Finished,
    decreases j,
{
    if j > 0 {
        lemma_no_early_ceiling(pages.skip(1), (n - 1) as nat, j - 1);
    }
}

/// The sequential state of one enumeration: the names accumulated so far in
/// fetch order, the token of the latest response, how many requests have
/// been answered, the configured request ceiling, and whether the upstream
/// has signalled completion.
pub struct Enumerator {
    pub names: Vec<String>,
    pub token: Option<String>,
    pub fetched: usize,
    pub limit: usize,
    pub done: bool,
}

impl Enumerator {
    /// An enumeration that has not issued any request yet, allowed at most
    /// `limit` listing requests.
    pub fn new(limit: usize) -> (r: Enumerator)
        ensures
            r.names@.len() == 0,
            r.token is None,
            r.fetched == 0,
            r.limit == limit,
            !r.done,
    {
        Enumerator { names: Vec::new(), token: None, fetched: 0, limit, done: false }
    }

    /// Consumes the listing page that the upstream returned for the current
    /// token. An absent token in the response completes the enumeration; a
    /// present one requires a further request, which the ceiling may refuse.
    pub fn step(&mut self, page: NamesPage) -> (r: Result<(), EnumerationError>)
        requires
            !old(self).done,
            old(self).fetched < old(self).limit,
        ensures
            final(self).limit == old(self).limit,
            final(self).fetched == old(self).fetched + 1,
            final(self).names.deep_view() == old(self).names.deep_view() + page@.names,
            page@.next_token is None ==> r is Ok && final(self).done,
            page@.next_token is Some && old(self).fetched + 1 < old(self).limit ==> r is Ok
                && !final(self).done && final(self).token.deep_view() == page@.next_token,
            page@.next_token is Some && old(self).fetched + 1 == old(self).limit ==> r is Err
                && r->Err_0 is IterationCeiling,
    {
        let NamesPage { names: mut page_names, next_token } = page;
        self.names.append(&mut page_names);
        proof {
            assert(self.names.deep_view() =~= old(self).names.deep_view() + page@.names);
        }
        self.fetched = self.fetched + 1;
        match next_token {
            None => {
                self.done = true;
                Ok(())
            },
            Some(t) => {
                if self.fetched == self.limit {
                    Err(EnumerationError::IterationCeiling)
                } else {
                    self.token = Some(t);
                    Ok(())
                }
            },
        }
    }

    /// Ends the enumeration, handing back every accumulated name in
    /// lexicographic order.
    pub fn into_sorted_names(self) -> (r: Vec<String>)
        ensures
            is_lex_sort_of(self.names.deep_view(), r.deep_view()),
    {
        sort_names(self.names)
    }
}

/// Runs a full enumeration over an already-fetched run of listing pages,
/// where `pages[i]` is the upstream's response to the `i`-th request, with
/// at most `max_pages` requests allowed: accumulates names until the token
/// goes absent and sorts them lexicographically. Fails with
/// `IterationCeiling` when `max_pages` responses all carry a token, and
/// with `TruncatedInput` when the supplied run ends while a token is still
/// present.
#[verifier::loop_isolation(false)]
pub fn list_all_from_pages(pages: Vec<NamesPage>, max_pages: usize) -> (r: Result<
    Vec<String>,
    EnumerationError,
>)
    ensures
        match enum_collect(pages.deep_view(), max_pages as nat) {
            EnumOutcome::Finished(names) => r is Ok && is_lex_sort_of(names, r->Ok_0.deep_view()),
            EnumOutcome::CeilingHit => r is Err && r->Err_0 is IterationCeiling,
            EnumOutcome::Unfinished => r is Err && r->Err_0 is TruncatedInput,
        },
{
    let ghost all: Seq<NamesPageModel> = pages.deep_view();
    if max_pages == 0 {
        return Err(EnumerationError::IterationCeiling);
    }
    let mut engine = Enumerator::new(max_pages);
    let mut rest = pages;
    proof {
        assert(rest.deep_view() =~= all.skip(0));
        match enum_collect(all, max_pages as nat) {
            EnumOutcome::Finished(names) => {
                assert(Seq::<Seq<char>>::empty() + names =~= names);
            },
            _ => {},
        }
    }
    while !engine.done && rest.len() > 0
        invariant
            engine.limit == max_pages,
            rest.deep_view() == all.skip(all.len() - rest@.len()),
            rest@.len() <= all.len(),
            engine.done ==> enum_collect(all, max_pages as nat) == EnumOutcome::Finished(
                engine.names.deep_view(),
            ),
            !engine.done ==> engine.fetched < engine.limit,
            !engine.done ==> match enum_collect(
                rest.deep_view(),
                (engine.limit - engine.fetched) as nat,
            ) {
                EnumOutcome::Finished(suffix) => enum_collect(all, max_pages as nat)
                    == EnumOutcome::Finished(engine.names.deep_view() + suffix),
                EnumOutcome::CeilingHit => enum_collect(all, max_pages as nat)
                    == EnumOutcome::CeilingHit,
                EnumOutcome::Unfinished => enum_collect(all, max_pages as nat)
                    == EnumOutcome::Unfinished,
            },
        decreases rest@.len(),
    {
        let ghost pre_rest: Seq<NamesPageModel> = rest.deep_view();
        let ghost pre_names: Seq<Seq<char>> = engine.names.deep_view();
        let ghost pre_budget: nat = (engine.limit - engine.fetched) as nat;
        let page = rest.remove(0);
        proof {
            assert(rest.deep_view() =~= pre_rest.skip(1));
            assert(rest.deep_view() =~= all.skip(all.len() - rest@.len()));
        }
        match engine.step(page) {
            Ok(()) => {
                proof {
                    let p = pre_rest[0];
                    if p.next_token is Some {
                        match enum_collect(pre_rest.skip(1), (engine.limit - engine.fetched) as nat) {
                            EnumOutcome::Finished(suffix2) => {
                                assert(pre_names + (p.names + suffix2) =~= (pre_names + p.names)
                                    + suffix2);
                            },
                            _ => {},
                        }
                    }
                }
            },
            Err(e) => {
                proof {
                    let p = pre_rest[0];
                    assert(p.next_token is Some);
                    assert(pre_budget == 1);
                    assert(enum_collect(pre_rest.skip(1), 0) == EnumOutcome::CeilingHit);
                    assert(enum_collect(pre_rest, 1) == EnumOutcome::CeilingHit);
                }
                return Err(e);
            },
        }
    }
    if engine.done {
        Ok(engine.into_sorted_names())
    } else {
        Err(EnumerationError::TruncatedInput)
    }
}

} // verus!
