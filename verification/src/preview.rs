//! The preview fan-out: bounded renderings of the most recent collections.
//!
//! Given an already-sorted (oldest to newest) name sequence, the fan-out
//! selects the most recent names, fetches a single bounded page for each —
//! concurrently, under a fixed worker budget — and renders every page to
//! text: the page's records sorted by timestamp, each text trimmed, joined
//! with newlines. The fetches themselves are performed by the surrounding
//! application between the verified steps; the selection, the bounds
//! checks, the rendering, and the worker budget's accounting live here.

use vstd::prelude::*;
use vstd::string::StringExecFns;
use crate::chars::push_char;
use crate::records::{Record, RecordModel};
use crate::sorting::{is_stable_sort_of, sort_records};

verus! {

/// The ceiling on how many records one preview may request.
pub const MAX_PREVIEW_EVENTS: u32 = 200;

/// Why a preview configuration was rejected before any request.
#[derive(Debug)]
pub enum ConfigurationError {
    /// The per-stream record count exceeds [`MAX_PREVIEW_EVENTS`].
    FetchCountTooLarge,
    /// Previews were requested over zero streams.
    StreamCountZero,
}

/// Checks the preview bounds before any fetch is attempted: the stream
/// count must be positive and the per-stream record count within the
/// ceiling.
pub fn validate_preview_config(fetch_count: u32, stream_count: u32) -> (r: Result<
    (),
    ConfigurationError,
>)
    ensures
        r is Ok <==> (stream_count >= 1 && fetch_count <= MAX_PREVIEW_EVENTS),
        r is Err && r->Err_0 is StreamCountZero <==> stream_count == 0,
        r is Err && r->Err_0 is FetchCountTooLarge <==> (stream_count >= 1 && fetch_count
            > MAX_PREVIEW_EVENTS),
{
    if stream_count == 0 {
        Err(ConfigurationError::StreamCountZero)
    } else if fetch_count > MAX_PREVIEW_EVENTS {
        Err(ConfigurationError::FetchCountTooLarge)
    } else {
        Ok(())
    }
}

/// Picks the `count` most recent names from an oldest-to-newest sequence:
/// the suffix, newest first. Fewer when fewer exist.
pub fn select_preview_names(names: &Vec<String>, count: usize) -> (r: Vec<String>)
    ensures
        r@.len() == if count <= names@.len() {
            count as int
        } else {
            names@.len() as int
        },
        forall|k: int| 0 <= k < r@.len() ==> r@[k] == names@[names@.len() - 1 - k],
{
    let n = names.len();
    let take_n = if count < n {
        count
    } else {
        n
    };
    let mut out: Vec<String> = Vec::new();
    let mut k: usize = 0;
    while k < take_n
        invariant
            k <= take_n <= n,
            n == names@.len(),
            out@.len() == k,
            forall|j: int| 0 <= j < k ==> out@[j] == names@[n - 1 - j],
        decreases take_n - k,
    {
        out.push(names[n - 1 - k].clone());
        k = k + 1;
    }
    out
}

/// A whitespace character, as record text is trimmed: exactly the code
/// points with the Unicode `White_Space` property — the ASCII whitespace
/// controls and space, next line, no-break space, ogham space mark, the
/// typographic spaces, the line and paragraph separators, the narrow
/// no-break space, the medium mathematical space, and the ideographic
/// space.
pub open spec fn is_space(c: char) -> bool {
    let u = c as u32;
    ||| u == 0x09
    ||| u == 0x0A
    ||| u == 0x0B
    ||| u == 0x0C
    ||| u == 0x0D
    ||| u == 0x20
    ||| u == 0x85
    ||| u == 0xA0
    ||| u == 0x1680
    ||| (0x2000 <= u && u <= 0x200A)
    ||| u == 0x2028
    ||| u == 0x2029
    ||| u == 0x202F
    ||| u == 0x205F
    ||| u == 0x3000
}

/// The text without its leading whitespace.
pub open spec fn trim_start_spec(s: Seq<char>) -> Seq<char>
    decreases s.len(),
{
    if s.len() > 0 && is_space(s[0]) {
        trim_start_spec(s.skip(1))
    } else {
        s
    }
}

/// The text without its trailing whitespace.
pub open spec fn trim_end_spec(s: Seq<char>) -> Seq<char>
    decreases s.len(),
{
    if s.len() > 0 && is_space(s.last()) {
        trim_end_spec(s.drop_last())
    } else {
        s
    }
}

/// The text without leading or trailing whitespace.
pub open spec fn trim_spec(s: Seq<char>) -> Seq<char> {
    trim_end_spec(trim_start_spec(s))
}

proof fn lemma_trim_start_at(s: Seq<char>, a: int)
    requires
        0 <= a <= s.len(),
        forall|k: int| 0 <= k < a ==> is_space(#[trigger] s[k]),
        a == s.len() || !is_space(s[a]),
    ensures
        trim_start_spec(s) == s.skip(a),
    decreases a,
{
    if a == 0 {
        assert(s.skip(0) =~= s);
    } else {
        assert(forall|k: int| 0 <= k < a - 1 ==> is_space(#[trigger] s.skip(1)[k]));
        lemma_trim_start_at(s.skip(1), a - 1);
        assert(s.skip(1).skip(a - 1) =~= s.skip(a));
    }
}

proof fn lemma_trim_end_at(s: Seq<char>, b: int)
    requires
        0 <= b <= s.len(),
        forall|k: int| b <= k < s.len() ==> is_space(#[trigger] s[k]),
        b == 0 || !is_space(s[b - 1]),
    ensures
        trim_end_spec(s) == s.take(b),
    decreases s.len() - b,
{
    if b == s.len() {
        assert(s.take(b) =~= s);
    } else {
        assert(is_space(s.last()));
        lemma_trim_end_at(s.drop_last(), b);
        assert(s.drop_last().take(b) =~= s.take(b));
    }
}

fn is_space_at(s: &str, i: usize) -> (r: bool)
    requires
        i < s@.len(),
    ensures
        r == is_space(s@[i as int]),
{
    let c = s.get_char(i);
    let u = c as u32;
    u == 0x09 || u == 0x0A || u == 0x0B || u == 0x0C || u == 0x0D || u == 0x20 || u == 0x85 || u
        == 0xA0 || u == 0x1680 || (0x2000 <= u && u <= 0x200A) || u == 0x2028 || u == 0x2029 || u
        == 0x202F || u == 0x205F || u == 0x3000
}

/// The text with leading and trailing whitespace removed.
pub fn trim_text(s: &str) -> (r: String)
    ensures
        r@ == trim_spec(s@),
{
    let n = s.unicode_len();
    let mut a: usize = 0;
    while a < n && is_space_at(s, a)
        invariant
            a <= n,
            n == s@.len(),
            forall|k: int| 0 <= k < a ==> is_space(#[trigger] s@[k]),
        decreases n - a,
    {
        a = a + 1;
    }
    let mut b: usize = n;
    while b > a && is_space_at(s, b - 1)
        invariant
            a <= b <= n,
            n == s@.len(),
            forall|k: int| b <= k < n ==> is_space(#[trigger] s@[k]),
        decreases b,
    {
        b = b - 1;
    }
    proof {
        lemma_trim_start_at(s@, a as int);
        let t = s@.skip(a as int);
        assert(forall|k: int|
            b - a <= k < t.len() ==> is_space(#[trigger] t[k]));
        if b > a {
            assert(t[b - a - 1] == s@[b - 1]);
        }
        lemma_trim_end_at(t, b - a);
        assert(t.take(b - a) =~= s@.subrange(a as int, b as int));
    }
    let piece = s.substring_char(a, b);
    piece.to_owned()
}

/// The trimmed text of every record, in order.
pub open spec fn trimmed_texts(records: Seq<RecordModel>) -> Seq<Seq<char>> {
    records.map_values(|m: RecordModel| trim_spec(m.text))
}

/// The newline-joined form of a run of texts.
pub open spec fn joined(parts: Seq<Seq<char>>) -> Seq<char>
    decreases parts.len(),
{
    if parts.len() == 0 {
        Seq::empty()
    } else if parts.len() == 1 {
        parts[0]
    } else {
        parts[0] + seq!['\n'] + joined(parts.skip(1))
    }
}

proof fn lemma_joined_snoc(parts: Seq<Seq<char>>, p: Seq<char>)
    ensures
        joined(parts.push(p)) == if parts.len() == 0 {
            p
        } else {
            joined(parts) + seq!['\n'] + p
        },
    decreases parts.len(),
{
    if parts.len() == 0 {
        assert(parts.push(p)[0] == p);
    } else if parts.len() == 1 {
        let s = parts.push(p);
        assert(s[0] == parts[0]);
        assert(s.skip(1) =~= seq![p]);
        assert(joined(s.skip(1)) == p);
    } else {
        let s = parts.push(p);
        assert(s[0] == parts[0]);
        assert(s.skip(1) =~= parts.skip(1).push(p));
        lemma_joined_snoc(parts.skip(1), p);
        assert(parts[0] + seq!['\n'] + (joined(parts.skip(1)) + seq!['\n'] + p) =~= (parts[0]
            + seq!['\n'] + joined(parts.skip(1))) + seq!['\n'] + p);
    }
}

/// Renders records to text: each record's text trimmed, in the given
/// order, joined with newlines.
#[verifier::loop_isolation(false)]
pub fn get_text_from_events(records: &Vec<Record>) -> (r: String)
    ensures
        r@ == joined(trimmed_texts(records.deep_view())),
{
    let ghost parts: Seq<Seq<char>> = trimmed_texts(records.deep_view());
    let n = records.len();
    let mut out = String::new();
    let mut i: usize = 0;
    proof {
        assert(parts.take(0) =~= Seq::<Seq<char>>::empty());
    }
    while i < n
        invariant
            i <= n,
            out@ == joined(parts.take(i as int)),
        decreases n - i,
    {
        let ghost pre: Seq<char> = out@;
        if i > 0 {
            push_char(&mut out, '\n');
        }
        let t = trim_text(records[i].text.as_str());
        out.append(t.as_str());
        proof {
            lemma_joined_snoc(parts.take(i as int), parts[i as int]);
            assert(parts.take(i + 1) =~= parts.take(i as int).push(parts[i as int]));
            if i > 0 {
                assert(out@ =~= (pre + seq!['\n']) + parts[i as int]);
                assert(out@ =~= joined(parts.take(i as int)) + seq!['\n'] + parts[i as int]);
            } else {
                assert(out@ =~= pre + parts[i as int]);
                assert(pre + parts[i as int] =~= parts[i as int]);
            }
        }
        i = i + 1;
    }
    proof {
        assert(parts.take(n as int) =~= parts);
    }
    out
}

/// Renders one fetched preview page: the page's records in stable
/// timestamp order, trimmed and newline-joined.
pub fn render_preview(records: Vec<Record>) -> (r: String)
    ensures
        exists|sorted: Seq<RecordModel>|
            is_stable_sort_of(records.deep_view(), sorted) && r@ == joined(
                trimmed_texts(sorted),
            ),
{
    let ghost input: Seq<RecordModel> = records.deep_view();
    let sorted = sort_records(records);
    let out = get_text_from_events(&sorted);
    proof {
        assert(is_stable_sort_of(input, sorted.deep_view()) && out@ == joined(
            trimmed_texts(sorted.deep_view()),
        ));
    }
    out
}

/// Collects each selected name with the rendering of its fetched page into
/// the preview map. Keys are the names in the given order; with distinct
/// names the keys are unique.
pub fn build_preview_map(names: Vec<String>, pages: Vec<Vec<Record>>) -> (r: Vec<(String, String)>)
    requires
        names@.len() == pages@.len(),
    ensures
        r@.len() == names@.len(),
        forall|k: int|
            0 <= k < r@.len() ==> (#[trigger] r@[k]).0 == names@[k] && exists|
                sorted: Seq<RecordModel>,
            |
                is_stable_sort_of(pages.deep_view()[k], sorted) && r@[k].1@ == joined(
                    trimmed_texts(sorted),
                ),
{
    let ghost names0: Seq<String> = names@;
    let ghost pages0: Seq<Seq<RecordModel>> = pages.deep_view();
    let mut rest_names = names;
    let mut rest_pages = pages;
    let mut out: Vec<(String, String)> = Vec::new();
    while rest_names.len() > 0
        invariant
            rest_names@.len() == rest_pages@.len(),
            out@.len() + rest_names@.len() == names0.len(),
            names0.len() == pages0.len(),
            rest_names@ == names0.skip(out@.len() as int),
            rest_pages.deep_view() == pages0.skip(out@.len() as int),
            forall|k: int|
                0 <= k < out@.len() ==> (#[trigger] out@[k]).0 == names0[k] && exists|
                    sorted: Seq<RecordModel>,
                |
                    is_stable_sort_of(pages0[k], sorted) && out@[k].1@ == joined(
                        trimmed_texts(sorted),
                    ),
        decreases rest_names@.len(),
    {
        let ghost pre_len: int = out@.len() as int;
        let ghost pre_pages: Seq<Vec<Record>> = rest_pages@;
        let ghost pre_dv: Seq<Seq<RecordModel>> = rest_pages.deep_view();
        let name = rest_names.remove(0);
        let page = rest_pages.remove(0);
        proof {
            assert(rest_names@ =~= names0.skip(pre_len + 1));
            assert(page.deep_view() == pre_dv[0]);
            assert(page.deep_view() == pages0[pre_len]);
            let new_dv = rest_pages.deep_view();
            assert forall|i: int| 0 <= i < new_dv.len() implies new_dv[i] == pages0.skip(
                pre_len + 1,
            )[i] by {
                assert(rest_pages@[i] == pre_pages[i + 1]);
                assert(pre_dv[i + 1] == pre_pages[i + 1].deep_view());
                assert(pre_dv[i + 1] == pages0.skip(pre_len)[i + 1]);
            }
            assert(new_dv =~= pages0.skip(pre_len + 1));
        }
        let text = render_preview(page);
        out.push((name, text));
    }
    out
}

/// The fixed worker budget the fan-out schedules its fetches over. The
/// budget is process-wide configuration: one pool is built once and reused
/// across preview calls.
///
/// Law (concurrency bound): `in_flight <= limit` is established by the
/// constructor and preserved by every operation — a fetch only starts when
/// [`WorkerPool::try_acquire`] grants a slot, so no more than `limit`
/// fetches are ever in flight at once.
pub struct WorkerPool {
    pub limit: usize,
    pub in_flight: usize,
}

impl WorkerPool {
    /// The concurrency bound: never more work in flight than the budget.
    pub open spec fn wf(&self) -> bool {
        self.in_flight <= self.limit
    }

    /// An idle pool with the given budget.
    pub fn new(limit: usize) -> (r: WorkerPool)
        ensures
            r.wf(),
            r.limit == limit,
            r.in_flight == 0,
    {
        WorkerPool { limit, in_flight: 0 }
    }

    /// Asks for a worker slot; grants one exactly when the budget is not
    /// exhausted.
    pub fn try_acquire(&mut self) -> (r: bool)
        requires
            old(self).wf(),
        ensures
            final(self).wf(),
            final(self).limit == old(self).limit,
            r <==> old(self).in_flight < old(self).limit,
            r ==> final(self).in_flight == old(self).in_flight + 1,
            !r ==> final(self).in_flight == old(self).in_flight,
    {
        if self.in_flight < self.limit {
            self.in_flight = self.in_flight + 1;
            true
        } else {
            false
        }
    }

    /// Returns a slot when a fetch completes.
    pub fn release(&mut self)
        requires
            old(self).wf(),
            old(self).in_flight > 0,
        ensures
            final(self).wf(),
            final(self).limit == old(self).limit,
            final(self).in_flight == old(self).in_flight - 1,
    {
        self.in_flight = self.in_flight - 1;
    }
}

} // verus!
