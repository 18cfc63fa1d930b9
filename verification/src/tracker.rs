//! The bounded recency store and the candidate-validation policy.
//!
//! A [`Tracker`] holds the most recently selected quotes, least recent first,
//! never more than its capacity and never with a duplicate. [`validate_quote`]
//! reconciles a randomly chosen candidate against a tracker: a tracked
//! candidate is replaced by the first untracked pool item found by a forward
//! cyclic scan from the candidate's pool position, and a repeat is allowed
//! only when every pool item is tracked.

use vstd::prelude::*;
use vstd::seq_lib::*;
use vstd::string::*;

verus! {

/// Mathematical model of a recency store: the tracked history (least recent
/// first) and the capacity bound.
pub ghost struct StoreModel {
    pub history: Seq<Seq<char>>,
    pub capacity: nat,
}

/// No two entries of `h` are equal.
pub open spec fn distinct_seq(h: Seq<Seq<char>>) -> bool {
    forall|i: int, j: int| 0 <= i < j < h.len() ==> h[i] != h[j]
}

/// `q` is one of the entries of `h`.
pub open spec fn spec_tracked(h: Seq<Seq<char>>, q: Seq<char>) -> bool {
    h.contains(q)
}

/// `h` with every occurrence of `q` removed, order kept.
pub open spec fn spec_remove(h: Seq<Seq<char>>, q: Seq<char>) -> Seq<Seq<char>> {
    h.filter(|x: Seq<char>| x != q)
}

/// One record step: remove `q` from its current position, append it as most
/// recent, and evict the oldest entry when the capacity is exceeded.
pub open spec fn spec_record(h: Seq<Seq<char>>, cap: nat, q: Seq<char>) -> Seq<Seq<char>> {
    let pushed = spec_remove(h, q).push(q);
    if pushed.len() > cap {
        pushed.skip(1)
    } else {
        pushed
    }
}

/// A whole store after one record step.
pub open spec fn record_model(m: StoreModel, q: Seq<char>) -> StoreModel {
    StoreModel { history: spec_record(m.history, m.capacity, q), capacity: m.capacity }
}

/// A valid store model: positive capacity within machine range, history
/// within capacity, and no duplicate entries.
pub open spec fn wf_model(m: StoreModel) -> bool {
    &&& 1 <= m.capacity <= usize::MAX as nat
    &&& m.history.len() <= m.capacity
    &&& distinct_seq(m.history)
}

/// The empty store model with capacity `cap`.
pub open spec fn empty_model(cap: nat) -> StoreModel {
    StoreModel { history: Seq::empty(), capacity: cap }
}

/// A persistent tracker that stores recently used quotes.
pub struct Tracker {
    /// Recently used quotes, least recent first.
    pub last_quotes: Vec<String>,
    /// Maximum number of quotes retained.
    pub capacity: usize,
}

impl View for Tracker {
    type V = StoreModel;

    open spec fn view(&self) -> StoreModel {
        StoreModel { history: self.last_quotes.deep_view(), capacity: self.capacity as nat }
    }
}

/// Removing `q` keeps the other entries, their order, and distinctness.
pub proof fn lemma_remove_props(h: Seq<Seq<char>>, q: Seq<char>)
    requires
        distinct_seq(h),
    ensures
        spec_remove(h, q).len() <= h.len(),
        !spec_remove(h, q).contains(q),
        distinct_seq(spec_remove(h, q)),
        spec_tracked(h, q) ==> spec_remove(h, q).len() == h.len() - 1,
        !spec_tracked(h, q) ==> spec_remove(h, q) == h,
        forall|x: Seq<char>|
            #[trigger] spec_remove(h, q).contains(x) <==> (h.contains(x) && x != q),
    decreases h.len(),
{
    reveal(Seq::filter);
    let rem = spec_remove(h, q);
    if h.len() == 0 {
        assert(rem =~= h);
        assert forall|x: Seq<char>| #[trigger] rem.contains(x) <==> (h.contains(x) && x != q) by {
            if rem.contains(x) {
                let i = choose|i: int| 0 <= i < rem.len() && rem[i] == x;
            }
        }
    } else {
        let hd = h.drop_last();
        let last = h.last();
        assert(distinct_seq(hd)) by {
            assert forall|i: int, j: int| 0 <= i < j < hd.len() implies hd[i] != hd[j] by {
                assert(hd[i] == h[i] && hd[j] == h[j]);
            }
        }
        lemma_remove_props(hd, q);
        let sub = spec_remove(hd, q);
        assert(rem == if last != q { sub.push(last) } else { sub });
        // membership in `h` splits into membership in `hd` or equality to `last`
        assert forall|x: Seq<char>| #[trigger] h.contains(x) implies (hd.contains(x) || x == last) by {
            let i = choose|i: int| 0 <= i < h.len() && h[i] == x;
            if i < h.len() - 1 {
                assert(hd[i] == x);
            }
        }
        assert forall|x: Seq<char>| hd.contains(x) implies #[trigger] h.contains(x) by {
            let i = choose|i: int| 0 <= i < hd.len() && hd[i] == x;
            assert(h[i] == x);
        }
        assert(h.contains(last)) by {
            assert(h[h.len() - 1] == last);
        }
        if last != q {
            // `last` is not among the earlier entries, so the push keeps distinctness
            assert(!hd.contains(last)) by {
                if hd.contains(last) {
                    let i = choose|i: int| 0 <= i < hd.len() && hd[i] == last;
                    assert(h[i] == h[h.len() - 1]);
                }
            }
            assert forall|x: Seq<char>| #[trigger] rem.contains(x) implies (sub.contains(x) || x
                == last) by {
                let i = choose|i: int| 0 <= i < rem.len() && rem[i] == x;
                if i < rem.len() - 1 {
                    assert(sub[i] == x);
                }
            }
            assert forall|x: Seq<char>| sub.contains(x) implies #[trigger] rem.contains(x) by {
                let i = choose|i: int| 0 <= i < sub.len() && sub[i] == x;
                assert(rem[i] == x);
            }
            assert(rem.contains(last)) by {
                assert(rem[rem.len() - 1] == last);
            }
            assert(distinct_seq(rem)) by {
                assert forall|i: int, j: int| 0 <= i < j < rem.len() implies rem[i] != rem[j] by {
                    if j < rem.len() - 1 {
                        assert(rem[i] == sub[i] && rem[j] == sub[j]);
                    } else {
                        assert(rem[i] == sub[i]);
                        assert(sub.contains(sub[i]));
                    }
                }
            }
            if !spec_tracked(h, q) {
                assert(rem == h) by {
                    assert(!hd.contains(q));
                    assert(sub == hd);
                    assert(rem =~= h);
                }
            }
        }
        assert forall|x: Seq<char>| #[trigger] rem.contains(x) <==> (h.contains(x) && x != q) by {
            if rem.contains(x) {
                if last != q {
                    assert(sub.contains(x) || x == last);
                } else {
                    assert(sub.contains(x));
                }
            }
            if h.contains(x) && x != q {
                if x == last && last != q {
                    assert(rem.contains(last));
                } else {
                    assert(hd.contains(x));
                    assert(sub.contains(x));
                    if last != q {
                        let i = choose|i: int| 0 <= i < sub.len() && sub[i] == x;
                        assert(rem[i] == x);
                    }
                }
            }
        }
    }
}

/// One record step preserves the invariant, puts `q` last, and keeps the
/// capacity; on a tracked `q` the history length does not change.
pub proof fn lemma_record_model_props(m: StoreModel, q: Seq<char>)
    requires
        wf_model(m),
    ensures
        wf_model(record_model(m, q)),
        record_model(m, q).capacity == m.capacity,
        record_model(m, q).history.len() >= 1,
        record_model(m, q).history.last() == q,
        spec_tracked(record_model(m, q).history, q),
        spec_tracked(m.history, q) ==> record_model(m, q).history.len() == m.history.len(),
        !spec_tracked(m.history, q) ==> record_model(m, q).history.len() >= m.history.len(),
{
    lemma_remove_props(m.history, q);
    let rem = spec_remove(m.history, q);
    let pushed = rem.push(q);
    let r = record_model(m, q).history;
    assert(distinct_seq(pushed)) by {
        assert forall|i: int, j: int| 0 <= i < j < pushed.len() implies pushed[i] != pushed[j] by {
            if j < pushed.len() - 1 {
                assert(pushed[i] == rem[i] && pushed[j] == rem[j]);
            } else {
                assert(pushed[i] == rem[i]);
                assert(rem.contains(rem[i]));
            }
        }
    }
    if pushed.len() > m.capacity {
        assert(r == pushed.skip(1));
        assert(distinct_seq(r)) by {
            assert forall|i: int, j: int| 0 <= i < j < r.len() implies r[i] != r[j] by {
                assert(r[i] == pushed[i + 1] && r[j] == pushed[j + 1]);
            }
        }
        assert(r.last() == pushed.last());
    }
    assert(r.last() == q);
    assert(spec_tracked(r, q)) by {
        assert(r[r.len() - 1] == q);
    }
}

impl Tracker {
    /// The store invariant, on the model of this tracker.
    pub open spec fn wf(&self) -> bool {
        wf_model(self@)
    }

    /// Creates a new, empty tracker with the given capacity.
    pub fn new(capacity: usize) -> (t: Tracker)
        requires
            capacity >= 1,
        ensures
            t@ == empty_model(capacity as nat),
            t.wf(),
    {
        let t = Tracker { last_quotes: Vec::new(), capacity };
        proof {
            assert(t@.history =~= empty_model(capacity as nat).history);
        }
        t
    }

    /// Checks whether a quote is already tracked.
    pub fn is_tracked(&self, quote: &str) -> (b: bool)
        ensures
            b == spec_tracked(self@.history, quote@),
    {
        let q = quote.to_owned();
        let n = self.last_quotes.len();
        let mut k: usize = 0;
        while k < n
            invariant
                n == self.last_quotes.len(),
                k <= n,
                q@ == quote@,
                forall|m: int| 0 <= m < k ==> self@.history[m] != quote@,
            decreases n - k,
        {
            if self.last_quotes[k] == q {
                proof {
                    assert(self@.history[k as int] == quote@);
                }
                return true;
            }
            k += 1;
        }
        proof {
            if spec_tracked(self@.history, quote@) {
                let m = choose|m: int|
                    0 <= m < self@.history.len() && self@.history[m] == quote@;
            }
        }
        false
    }

    /// Records a quote as most recently used: any existing occurrence is
    /// removed first, the quote is appended, and the oldest entry is evicted
    /// when the capacity would be exceeded. The quote is tracked afterwards.
    pub fn add_quote(&mut self, quote: String)
        requires
            old(self).wf(),
        ensures
            final(self)@.capacity == old(self)@.capacity,
            final(self)@.history == spec_record(old(self)@.history, old(self)@.capacity, quote@),
            final(self).wf(),
            spec_tracked(final(self)@.history, quote@),
            final(self)@.history.last() == quote@,
    {
        let ghost h0 = self@.history;
        let ghost q = quote@;
        let mut kept: Vec<String> = Vec::new();
        let n = self.last_quotes.len();
        let mut k: usize = 0;
        proof {
            reveal(Seq::filter);
            assert(kept.deep_view() =~= spec_remove(h0.take(0), q));
        }
        while k < n
            invariant
                n == self.last_quotes.len(),
                k <= n,
                h0 == self@.history,
                q == quote@,
                kept.deep_view() == spec_remove(h0.take(k as int), q),
            decreases n - k,
        {
            let ghost kept_before = kept.deep_view();
            if !(self.last_quotes[k] == quote) {
                kept.push(self.last_quotes[k].clone());
            }
            proof {
                reveal(Seq::filter);
                let pre = h0.take(k as int);
                let cur = h0.take(k + 1);
                assert(cur.drop_last() =~= pre);
                assert(cur.last() == h0[k as int]);
                if h0[k as int] != q {
                    assert(spec_remove(cur, q) == spec_remove(pre, q).push(h0[k as int]));
                    assert(kept.deep_view() =~= kept_before.push(h0[k as int]));
                } else {
                    assert(spec_remove(cur, q) == spec_remove(pre, q));
                }
            }
            k += 1;
        }
        proof {
            assert(h0.take(n as int) =~= h0);
            lemma_remove_props(h0, q);
        }
        self.last_quotes = kept;
        self.last_quotes.push(quote);
        proof {
            assert(self.last_quotes.deep_view() =~= spec_remove(h0, q).push(q));
        }
        if self.last_quotes.len() > self.capacity {
            let ghost before = self.last_quotes.deep_view();
            self.last_quotes.remove(0);
            proof {
                assert(self.last_quotes.deep_view() =~= before.skip(1));
            }
        }
        proof {
            lemma_record_model_props(
                StoreModel { history: h0, capacity: old(self)@.capacity },
                q,
            );
        }
    }
}

/// The pool index reached from index `i` after walking `off` positions
/// forward, wrapping around at `len`.
pub open spec fn cyc_index(i: int, off: int, len: int) -> int {
    if i + off < len {
        i + off
    } else {
        i + off - len
    }
}

/// The first index at or after `from` where `q` occurs in `pool`.
pub open spec fn first_index_of(pool: Seq<Seq<char>>, q: Seq<char>, from: int) -> Option<int>
    decreases pool.len() - from,
{
    if from < 0 || from >= pool.len() {
        None
    } else if pool[from] == q {
        Some(from)
    } else {
        first_index_of(pool, q, from + 1)
    }
}

/// The first pool index visited by the forward cyclic scan from `i` (offsets
/// `off`, `off + 1`, ... up to `pool.len() - 1`) whose item is not in `h`.
pub open spec fn scan_from(pool: Seq<Seq<char>>, h: Seq<Seq<char>>, i: int, off: int) -> Option<
    int,
>
    decreases pool.len() - off,
{
    if i < 0 || i >= pool.len() || off < 1 || off >= pool.len() {
        None
    } else {
        let j = cyc_index(i, off, pool.len() as int);
        if !spec_tracked(h, pool[j]) {
            Some(j)
        } else {
            scan_from(pool, h, i, off + 1)
        }
    }
}

/// What `validate_quote` returns and how it leaves the store, as a function
/// of the pool, the store model, and the candidate.
pub open spec fn spec_validate(pool: Seq<Seq<char>>, m: StoreModel, cand: Seq<char>) -> (
    Seq<char>,
    StoreModel,
) {
    if !spec_tracked(m.history, cand) {
        (cand, record_model(m, cand))
    } else {
        match first_index_of(pool, cand, 0) {
            None => (cand, m),
            Some(i) => match scan_from(pool, m.history, i, 1) {
                Some(j) => (pool[j], record_model(m, pool[j])),
                None => (cand, m),
            },
        }
    }
}

/// Removing `q` from a sequence that does not hold it changes nothing.
proof fn lemma_remove_absent(s: Seq<Seq<char>>, q: Seq<char>)
    requires
        forall|k: int| 0 <= k < s.len() ==> s[k] != q,
    ensures
        spec_remove(s, q) == s,
    decreases s.len(),
{
    reveal(Seq::filter);
    if s.len() == 0 {
        assert(spec_remove(s, q) =~= s);
    } else {
        let hd = s.drop_last();
        assert(forall|k: int| 0 <= k < hd.len() ==> hd[k] == s[k] && #[trigger] hd[k] != q);
        lemma_remove_absent(hd, q);
        assert(spec_remove(s, q) =~= s);
    }
}

/// Whether `h` ends with the entries of `s`, in order.
pub open spec fn ends_with(h: Seq<Seq<char>>, s: Seq<Seq<char>>) -> bool {
    s.len() <= h.len() && h.skip(h.len() - s.len()) == s
}

/// Recording `x` keeps a trailing run of entries that are all different from
/// `x` and still leave room, and extends it by `x`.
proof fn lemma_record_keeps_suffix(m: StoreModel, s: Seq<Seq<char>>, x: Seq<char>)
    requires
        wf_model(m),
        ends_with(m.history, s),
        !s.contains(x),
        s.len() < m.capacity,
    ensures
        ends_with(record_model(m, x).history, s.push(x)),
{
    let h = m.history;
    let cut = h.len() - s.len();
    let p = h.take(cut);
    assert(h =~= p + s);
    let pred = |y: Seq<char>| y != x;
    Seq::filter_distributes_over_add(p, s, pred);
    assert(forall|k: int| 0 <= k < s.len() ==> s[k] != x) by {
        assert forall|k: int| 0 <= k < s.len() implies s[k] != x by {
            if s[k] == x {
                assert(s.contains(x));
            }
        }
    }
    lemma_remove_absent(s, x);
    let rp = spec_remove(p, x);
    assert(spec_remove(h, x) == rp + s);
    let pushed = spec_remove(h, x).push(x);
    assert(pushed =~= rp + s.push(x));
    let r = record_model(m, x).history;
    if pushed.len() > m.capacity {
        assert(rp.len() >= 1);
        assert(r == pushed.skip(1));
        assert(r =~= rp.skip(1) + s.push(x));
        assert(r.skip(r.len() - (s.len() + 1)) =~= s.push(x));
    } else {
        assert(r.skip(r.len() - (s.len() + 1)) =~= s.push(x));
    }
}

/// The store after recording each entry of `items`, in order.
pub open spec fn record_all(m: StoreModel, items: Seq<Seq<char>>) -> StoreModel
    decreases items.len(),
{
    if items.len() == 0 {
        m
    } else {
        record_all(record_model(m, items[0]), items.drop_first())
    }
}

/// Recording pairwise-distinct entries that fit beside an existing trailing
/// run appends them all to that run.
proof fn lemma_record_all_appends(m: StoreModel, s: Seq<Seq<char>>, items: Seq<Seq<char>>)
    requires
        wf_model(m),
        distinct_seq(items),
        ends_with(m.history, s),
        forall|k: int| 0 <= k < s.len() ==> !items.contains(#[trigger] s[k]),
        s.len() + items.len() <= m.capacity,
    ensures
        wf_model(record_all(m, items)),
        record_all(m, items).capacity == m.capacity,
        ends_with(record_all(m, items).history, s + items),
    decreases items.len(),
{
    if items.len() == 0 {
        assert(s + items =~= s);
    } else {
        let x = items[0];
        let rest = items.drop_first();
        let m1 = record_model(m, x);
        lemma_record_model_props(m, x);
        assert(!s.contains(x)) by {
            if s.contains(x) {
                let k = choose|k: int| 0 <= k < s.len() && s[k] == x;
                assert(items.contains(x)) by {
                    assert(items[0] == x);
                }
            }
        }
        lemma_record_keeps_suffix(m, s, x);
        assert(distinct_seq(rest)) by {
            assert forall|a: int, b: int| 0 <= a < b < rest.len() implies rest[a] != rest[b] by {
                assert(rest[a] == items[a + 1] && rest[b] == items[b + 1]);
            }
        }
        assert forall|k: int| 0 <= k < s.push(x).len() implies !rest.contains(
            #[trigger] s.push(x)[k],
        ) by {
            if rest.contains(s.push(x)[k]) {
                let b = choose|b: int| 0 <= b < rest.len() && rest[b] == s.push(x)[k];
                assert(rest[b] == items[b + 1]);
                if k < s.len() {
                    assert(items.contains(s[k]));
                } else {
                    assert(items[0] == items[b + 1]);
                }
            }
        }
        lemma_record_all_appends(m1, s.push(x), rest);
        assert(s.push(x) + rest =~= s + items);
    }
}

/// Recording at least `capacity` pairwise-distinct quotes leaves exactly the
/// most recent `capacity` of them, in call order.
proof fn lemma_record_all_suffix(m: StoreModel, items: Seq<Seq<char>>)
    requires
        wf_model(m),
        distinct_seq(items),
        items.len() >= m.capacity,
    ensures
        wf_model(record_all(m, items)),
        record_all(m, items).capacity == m.capacity,
        record_all(m, items).history.len() == m.capacity,
        record_all(m, items).history == items.skip(items.len() - m.capacity),
    decreases items.len(),
{
    if items.len() == m.capacity {
        assert(ends_with(m.history, Seq::empty())) by {
            assert(m.history.skip(m.history.len() as int) =~= Seq::<Seq<char>>::empty());
        }
        lemma_record_all_appends(m, Seq::empty(), items);
        let r = record_all(m, items).history;
        assert(Seq::empty() + items =~= items);
        assert(r.skip(r.len() - items.len()) == items);
        assert(r =~= items.skip(0));
    } else {
        let x = items[0];
        let rest = items.drop_first();
        let m1 = record_model(m, x);
        lemma_record_model_props(m, x);
        assert(distinct_seq(rest)) by {
            assert forall|a: int, b: int| 0 <= a < b < rest.len() implies rest[a] != rest[b] by {
                assert(rest[a] == items[a + 1] && rest[b] == items[b + 1]);
            }
        }
        lemma_record_all_suffix(m1, rest);
        assert(rest.skip(rest.len() - m.capacity) =~= items.skip(items.len() - m.capacity));
    }
}

/// After recording `capacity + 1` pairwise-distinct quotes, the history holds
/// exactly the last `capacity` of them, in call order.
pub proof fn lemma_record_fills_to_capacity(m: StoreModel, items: Seq<Seq<char>>)
    requires
        wf_model(m),
        distinct_seq(items),
        items.len() == m.capacity + 1,
    ensures
        record_all(m, items).history.len() == m.capacity,
        record_all(m, items).history == items.skip(1),
{
    lemma_record_all_suffix(m, items);
}

/// Re-recording a tracked quote does not change the history's length and
/// moves the quote to the most recent position.
pub proof fn lemma_record_present(m: StoreModel, q: Seq<char>)
    requires
        wf_model(m),
        spec_tracked(m.history, q),
    ensures
        record_model(m, q).history.len() == m.history.len(),
        record_model(m, q).history.last() == q,
{
    lemma_record_model_props(m, q);
}

/// If the scan from offset `off` finds nothing, every position visited from
/// that offset on holds a tracked item.
proof fn lemma_scan_none(pool: Seq<Seq<char>>, h: Seq<Seq<char>>, i: int, off: int)
    requires
        0 <= i < pool.len(),
        1 <= off <= pool.len(),
        scan_from(pool, h, i, off) is None,
    ensures
        forall|k: int|
            off <= k < pool.len() ==> spec_tracked(
                h,
                pool[#[trigger] cyc_index(i, k, pool.len() as int)],
            ),
    decreases pool.len() - off,
{
    if off < pool.len() {
        lemma_scan_none(pool, h, i, off + 1);
    }
}

/// What a successful scan returns: an in-range pool index whose item is not
/// tracked.
proof fn lemma_scan_some(pool: Seq<Seq<char>>, h: Seq<Seq<char>>, i: int, off: int)
    requires
        scan_from(pool, h, i, off) is Some,
    ensures
        0 <= scan_from(pool, h, i, off).unwrap() < pool.len(),
        !spec_tracked(h, pool[scan_from(pool, h, i, off).unwrap()]),
    decreases pool.len() - off,
{
    let j = cyc_index(i, off, pool.len() as int);
    if spec_tracked(h, pool[j]) {
        lemma_scan_some(pool, h, i, off + 1);
    }
}

/// When every pool item is tracked, the scan finds nothing.
proof fn lemma_scan_all_tracked(pool: Seq<Seq<char>>, h: Seq<Seq<char>>, i: int, off: int)
    requires
        forall|k: int| 0 <= k < pool.len() ==> spec_tracked(h, #[trigger] pool[k]),
    ensures
        scan_from(pool, h, i, off) is None,
    decreases pool.len() - off,
{
    if 0 <= i < pool.len() && 1 <= off < pool.len() {
        lemma_scan_all_tracked(pool, h, i, off + 1);
    }
}

/// The first index returned for `q` is in range, holds `q`, and nothing
/// before it does.
proof fn lemma_first_index_props(pool: Seq<Seq<char>>, q: Seq<char>, from: int)
    requires
        first_index_of(pool, q, from) is Some,
    ensures
        from <= first_index_of(pool, q, from).unwrap() < pool.len(),
        pool[first_index_of(pool, q, from).unwrap()] == q,
    decreases pool.len() - from,
{
    if !(from < 0 || from >= pool.len() || pool[from] == q) {
        lemma_first_index_props(pool, q, from + 1);
    }
}

/// A quote that occurs at or after `from` has a first index there.
proof fn lemma_first_index_exists(pool: Seq<Seq<char>>, q: Seq<char>, from: int)
    requires
        0 <= from <= pool.len(),
        exists|k: int| from <= k < pool.len() && pool[k] == q,
    ensures
        first_index_of(pool, q, from) is Some,
    decreases pool.len() - from,
{
    let k = choose|k: int| from <= k < pool.len() && pool[k] == q;
    if pool[from] != q {
        assert(from + 1 <= k);
        lemma_first_index_exists(pool, q, from + 1);
    }
}

/// An untracked candidate is returned as it is, recorded, and tracked
/// afterwards.
pub proof fn lemma_validate_untracked(pool: Seq<Seq<char>>, m: StoreModel, cand: Seq<char>)
    requires
        wf_model(m),
        !spec_tracked(m.history, cand),
    ensures
        spec_validate(pool, m, cand).0 == cand,
        spec_validate(pool, m, cand).1 == record_model(m, cand),
        spec_tracked(spec_validate(pool, m, cand).1.history, cand),
{
    lemma_record_model_props(m, cand);
}

/// A tracked candidate beside at least one untracked pool item: the result is
/// the first untracked item in forward cyclic order from the candidate's
/// position, and that item is tracked afterwards.
pub proof fn lemma_validate_finds_untracked(pool: Seq<Seq<char>>, m: StoreModel, cand: Seq<char>)
    requires
        wf_model(m),
        pool.len() > 0,
        spec_tracked(m.history, cand),
        pool.contains(cand),
        exists|j: int| 0 <= j < pool.len() && !spec_tracked(m.history, #[trigger] pool[j]),
    ensures
        first_index_of(pool, cand, 0) is Some,
        scan_from(pool, m.history, first_index_of(pool, cand, 0).unwrap(), 1) is Some,
        ({
            let j = scan_from(pool, m.history, first_index_of(pool, cand, 0).unwrap(), 1).unwrap();
            &&& 0 <= j < pool.len()
            &&& !spec_tracked(m.history, pool[j])
            &&& spec_validate(pool, m, cand).0 == pool[j]
            &&& spec_validate(pool, m, cand).1 == record_model(m, pool[j])
            &&& spec_tracked(spec_validate(pool, m, cand).1.history, pool[j])
        }),
{
    let k0 = choose|k: int| 0 <= k < pool.len() && pool[k] == cand;
    lemma_first_index_exists(pool, cand, 0);
    let i = first_index_of(pool, cand, 0).unwrap();
    lemma_first_index_props(pool, cand, 0);
    let len = pool.len() as int;
    if scan_from(pool, m.history, i, 1) is None {
        lemma_scan_none(pool, m.history, i, 1);
        let j = choose|j: int| 0 <= j < pool.len() && !spec_tracked(m.history, #[trigger] pool[j]);
        assert(j != i);
        let off = if j > i {
            j - i
        } else {
            j - i + len
        };
        assert(1 <= off < len);
        assert(cyc_index(i, off, len) == j);
        assert(spec_tracked(m.history, pool[cyc_index(i, off, len)]));
        assert(false);
    }
    lemma_scan_some(pool, m.history, i, 1);
    let j = scan_from(pool, m.history, i, 1).unwrap();
    lemma_record_model_props(m, pool[j]);
}

/// When every pool item is tracked, the candidate comes back and the store is
/// left unchanged.
pub proof fn lemma_validate_all_tracked(pool: Seq<Seq<char>>, m: StoreModel, cand: Seq<char>)
    requires
        pool.len() > 0,
        pool.contains(cand),
        forall|k: int| 0 <= k < pool.len() ==> spec_tracked(m.history, #[trigger] pool[k]),
    ensures
        spec_validate(pool, m, cand).0 == cand,
        spec_validate(pool, m, cand).1 == m,
{
    let k0 = choose|k: int| 0 <= k < pool.len() && pool[k] == cand;
    assert(spec_tracked(m.history, cand));
    lemma_first_index_exists(pool, cand, 0);
    let i = first_index_of(pool, cand, 0).unwrap();
    lemma_first_index_props(pool, cand, 0);
    lemma_scan_all_tracked(pool, m.history, i, 1);
}

/// Finds the first position of `q` in `quotes`, if any.
fn find_first(quotes: &[String], q: &String) -> (r: Option<usize>)
    ensures
        match r {
            Some(i) => i < quotes@.len() && first_index_of(quotes.deep_view(), q@, 0) == Some(
                i as int,
            ),
            None => first_index_of(quotes.deep_view(), q@, 0) is None,
        },
{
    let ghost pool = quotes.deep_view();
    let len = quotes.len();
    let mut k: usize = 0;
    while k < len
        invariant
            len == quotes@.len(),
            k <= len,
            pool == quotes.deep_view(),
            first_index_of(pool, q@, 0) == first_index_of(pool, q@, k as int),
        decreases len - k,
    {
        if quotes[k] == *q {
            proof {
                assert(pool[k as int] == q@);
            }
            return Some(k);
        }
        proof {
            assert(pool[k as int] != q@);
        }
        k += 1;
    }
    None
}

/// Validates a candidate quote against the tracker.
///
/// An untracked candidate is recorded and returned. A tracked candidate that
/// occurs in the pool is replaced by the first untracked item found scanning
/// forward cyclically from its position; that item is recorded. When no such
/// item exists, or the candidate is absent from the pool, the candidate is
/// returned and the tracker is left unchanged.
#[verifier::loop_isolation(false)]
pub fn validate_quote(candidate: &str, quotes: &[String], tracker: &mut Tracker) -> (r: String)
    requires
        old(tracker).wf(),
        quotes@.len() > 0,
    ensures
        final(tracker).wf(),
        r@ == spec_validate(quotes.deep_view(), old(tracker)@, candidate@).0,
        final(tracker)@ == spec_validate(quotes.deep_view(), old(tracker)@, candidate@).1,
{
    let ghost pool = quotes.deep_view();
    let ghost m0 = old(tracker)@;
    let ghost cand = candidate@;
    if tracker.is_tracked(candidate) {
        let len = quotes.len();
        let q = candidate.to_owned();
        if let Some(i) = find_first(quotes, &q) {
            let mut off: usize = 1;
            while off < len
                invariant
                    len == quotes@.len(),
                    len > 0,
                    i < len,
                    1 <= off <= len,
                    pool == quotes.deep_view(),
                    m0 == tracker@,
                    tracker.wf(),
                    cand == candidate@,
                    spec_tracked(m0.history, cand),
                    first_index_of(pool, cand, 0) == Some(i as int),
                    scan_from(pool, m0.history, i as int, 1) == scan_from(
                        pool,
                        m0.history,
                        i as int,
                        off as int,
                    ),
                decreases len - off,
            {
                let j = if off < len - i {
                    i + off
                } else {
                    off - (len - i)
                };
                proof {
                    assert(j as int == cyc_index(i as int, off as int, len as int));
                }
                let potential = &quotes[j];
                if !tracker.is_tracked(potential.as_str()) {
                    proof {
                        assert(pool[j as int] == potential@);
                        assert(scan_from(pool, m0.history, i as int, off as int) == Some(
                            j as int,
                        ));
                    }
                    tracker.add_quote(potential.clone());
                    proof {
                        assert(tracker@ == record_model(m0, pool[j as int]));
                    }
                    return potential.clone();
                }
                off += 1;
            }
            proof {
                assert(scan_from(pool, m0.history, i as int, len as int) is None);
            }
            candidate.to_owned()
        } else {
            candidate.to_owned()
        }
    } else {
        tracker.add_quote(candidate.to_owned());
        candidate.to_owned()
    }
}

} // verus!
