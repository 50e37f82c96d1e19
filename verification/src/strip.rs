//! Spinning strips: reels, wheels, and anything else that scrolls to a decided
//! stop.
//!
//! The strips move in real-valued time and are animated by the drawing code.
//! What is kept here is the integer part that has to be exactly right:
//!
//! - how far a strip travels, which must be a whole number of revolutions
//!   plus the distance to its stop, or it lands somewhere else;
//! - which stops are announced in a tick: every strip that has come to rest
//!   and was not announced before, each exactly once, in the order the strips
//!   stopped.

use vstd::prelude::*;

verus! {

/// The strip length used for arithmetic: an empty strip counts as one symbol.
pub open spec fn effective_len(strip_len: usize) -> int {
    if strip_len == 0 { 1 } else { strip_len as int }
}

/// Symbols from `from` forward to `to` on a strip of `len`, both taken
/// modulo the length.
pub open spec fn forward_distance(from: int, to: int, len: int) -> int {
    ((to % len) + len - (from % len)) % len
}

/// How many symbols strip `index` travels from `from` to `to`: the whole
/// revolutions (`revolutions`, plus one more every second strip) and then the
/// distance forward to the stop. Both stops are taken modulo the strip
/// length, and an empty strip counts as one symbol.
pub fn travel_symbols(strip_len: usize, from: usize, to: usize, index: usize, revolutions: usize) -> (travel: usize)
    requires
        (revolutions + index / 2) * effective_len(strip_len) + effective_len(strip_len) <= usize::MAX,
        (to as int % effective_len(strip_len)) + effective_len(strip_len) <= usize::MAX,
    ensures
        travel == (revolutions + index / 2) * effective_len(strip_len)
            + forward_distance(from as int, to as int, effective_len(strip_len)),
        (from as int % effective_len(strip_len) + travel) % effective_len(strip_len)
            == to as int % effective_len(strip_len),
        travel >= (revolutions + index / 2) * effective_len(strip_len),
{
    let len = if strip_len == 0 { 1 } else { strip_len };
    let ghost l = len as int;
    let from = from % len;
    let to = to % len;
    let delta = (to + len - from) % len;
    assert(l == effective_len(strip_len));
    let ghost t = revolutions as int + index as int / 2;
    assert(t <= usize::MAX && t * l <= usize::MAX) by (nonlinear_arith)
        requires t * l + l <= usize::MAX, l >= 1, t >= 0;
    let turns = revolutions + index / 2;
    let whole = turns * len;
    let travel = whole + delta;
    proof {
        assert(0 <= from < l && 0 <= to < l && 0 <= delta < l);
        assert((from + travel) % l == to as int) by (nonlinear_arith)
            requires
                travel == turns * l + delta,
                delta == (to + l - from) % l,
                0 <= from < l,
                0 <= to < l,
                l >= 1,
                turns >= 0;
    }
    travel
}

/// Law: a strip always lands on its stop. Whatever the strip length, stops,
/// index and revolutions, the travel is a whole number of revolutions plus
/// the forward distance, so starting from `from` it ends on `to`.
pub proof fn lemma_travel_lands_on_the_stop(from: int, to: int, len: int, turns: int)
    requires
        len >= 1,
        turns >= 0,
    ensures
        (from % len + turns * len + forward_distance(from, to, len)) % len == to % len,
        (turns * len + forward_distance(from, to, len)) % len == forward_distance(from, to, len),
{
    let f = from % len;
    let t = to % len;
    let d = forward_distance(from, to, len);
    assert(0 <= f < len && 0 <= t < len) by (nonlinear_arith)
        requires f == from % len, t == to % len, len >= 1;
    assert(0 <= d < len) by (nonlinear_arith)
        requires d == (t + len - f) % len, len >= 1;
    assert((f + turns * len + d) % len == t) by (nonlinear_arith)
        requires d == (t + len - f) % len, 0 <= f < len, 0 <= t < len, len >= 1, turns >= 0;
    assert((turns * len + d) % len == d) by (nonlinear_arith)
        requires 0 <= d < len, len >= 1, turns >= 0;
}

/// Strip `a` stopped before strip `b`: earlier stop key first, and among
/// equal keys the lower index.
pub open spec fn stops_before(stops_at: Seq<u32>, a: usize, b: usize) -> bool {
    stops_at[a as int] < stops_at[b as int] || (stops_at[a as int] == stops_at[b as int] && a < b)
}

/// Strip `i` comes to rest in this tick: it is at rest and was not
/// announced before.
pub open spec fn newly_settled(announced: Seq<bool>, settled: Seq<bool>, i: int) -> bool {
    settled[i] && !announced[i]
}

/// The announced flags after a tick: a strip is announced once it has been
/// at rest in some tick.
pub open spec fn announced_after(announced: Seq<bool>, settled: Seq<bool>) -> Seq<bool> {
    Seq::new(announced.len(), |i: int| announced[i] || settled[i])
}

/// Which strips of a row have had their stop announced.
pub struct StopAnnouncer {
    announced: Vec<bool>,
}

impl View for StopAnnouncer {
    type V = Seq<bool>;

    /// Whether each strip has been announced.
    closed spec fn view(&self) -> Seq<bool> {
        self.announced@
    }
}

impl StopAnnouncer {
    /// A row of `count` strips, none announced.
    pub fn new(count: usize) -> (announcer: Self)
        ensures
            announcer@ == Seq::new(count as nat, |i: int| false),
    {
        let mut announced: Vec<bool> = Vec::new();
        let mut i: usize = 0;
        while i < count
            invariant
                i <= count,
                announced@ == Seq::new(i as nat, |k: int| false),
            decreases count - i,
        {
            announced.push(false);
            i = i + 1;
        }
        StopAnnouncer { announced }
    }

    /// Whether every strip has been announced.
    pub fn all_announced(&self) -> (all: bool)
        ensures
            all == forall|i: int| 0 <= i < self@.len() ==> #[trigger] self@[i],
    {
        let mut i: usize = 0;
        while i < self.announced.len()
            invariant
                i <= self@.len(),
                forall|k: int| 0 <= k < i ==> #[trigger] self@[k],
            decreases self@.len() - i,
        {
            if !self.announced[i] {
                return false;
            }
            i = i + 1;
        }
        true
    }

    /// Announce the strips that came to rest in this tick. `settled[i]`
    /// tells whether strip `i` is at rest now and `stops_at[i]` orders the
    /// strips by when they stop (an order key of their stop times). The
    /// result holds every strip at rest that was not announced before, each
    /// once, in stop order; those strips are announced from now on.
    pub fn announce(&mut self, settled: &[bool], stops_at: &[u32]) -> (stopped: Vec<usize>)
        requires
            settled@.len() == old(self)@.len(),
            stops_at@.len() == old(self)@.len(),
        ensures
            final(self)@ == announced_after(old(self)@, settled@),
            forall|i: int| 0 <= i < old(self)@.len() ==> (newly_settled(old(self)@, settled@, i) <==> stopped@.contains(i as usize)),
            forall|k: int| 0 <= k < stopped@.len() ==> #[trigger] stopped@[k] < old(self)@.len(),
            forall|j: int, k: int| 0 <= j < k < stopped@.len() ==> stops_before(stops_at@, #[trigger] stopped@[j], #[trigger] stopped@[k]),
    {
        let ghost before = self.announced@;
        let n = self.announced.len();
        let mut stopped: Vec<usize> = Vec::new();
        let mut i: usize = 0;
        while i < n
            invariant
                n == before.len(),
                settled@.len() == n,
                stops_at@.len() == n,
                i <= n,
                self.announced@.len() == n,
                forall|k: int| 0 <= k < i ==> #[trigger] self.announced@[k] == (before[k] || settled@[k]),
                forall|k: int| i <= k < n ==> #[trigger] self.announced@[k] == before[k],
                forall|k: int| 0 <= k < i ==> (newly_settled(before, settled@, k) <==> stopped@.contains(k as usize)),
                forall|k: int| 0 <= k < stopped@.len() ==> #[trigger] stopped@[k] < i,
                forall|j: int, k: int| 0 <= j < k < stopped@.len() ==> stops_before(stops_at@, #[trigger] stopped@[j], #[trigger] stopped@[k]),
            decreases n - i,
        {
            if settled[i] && !self.announced[i] {
                let key = stops_at[i];
                let mut p: usize = 0;
                while p < stopped.len() && stops_at[stopped[p]] <= key
                    invariant
                        p <= stopped@.len(),
                        stops_at@.len() == n,
                        forall|k: int| 0 <= k < stopped@.len() ==> #[trigger] stopped@[k] < i,
                        i < n,
                        key == stops_at@[i as int],
                        forall|k: int| 0 <= k < p ==> stops_at@[#[trigger] stopped@[k] as int] <= key,
                    decreases stopped@.len() - p,
                {
                    p = p + 1;
                }
                let ghost old_stopped = stopped@;
                proof {
                    assert forall|k: int| p <= k < old_stopped.len() implies stops_at@[#[trigger] old_stopped[k] as int] > key by {
                        if p < old_stopped.len() {
                            assert(stops_at@[old_stopped[p as int] as int] > key);
                            if k > p {
                                assert(stops_before(stops_at@, old_stopped[p as int], old_stopped[k]));
                            }
                        }
                    }
                }
                stopped.insert(p, i);
                proof {
                    let s = stopped@;
                    assert(s == old_stopped.insert(p as int, i));
                    assert forall|j: int, k: int| 0 <= j < k < s.len() implies stops_before(stops_at@, #[trigger] s[j], #[trigger] s[k]) by {
                        if k < p {
                            assert(s[j] == old_stopped[j] && s[k] == old_stopped[k]);
                        } else if k == p {
                            assert(s[j] == old_stopped[j]);
                            assert(stops_at@[old_stopped[j] as int] <= key);
                            assert(old_stopped[j] < i);
                        } else if j < p {
                            assert(s[j] == old_stopped[j] && s[k] == old_stopped[k - 1]);
                            assert(stops_before(stops_at@, old_stopped[j], old_stopped[k - 1]));
                        } else if j == p {
                            assert(s[k] == old_stopped[k - 1]);
                            assert(stops_at@[old_stopped[k - 1] as int] > key);
                        } else {
                            assert(s[j] == old_stopped[j - 1] && s[k] == old_stopped[k - 1]);
                            assert(stops_before(stops_at@, old_stopped[j - 1], old_stopped[k - 1]));
                        }
                    }
                    assert forall|k: int| 0 <= k < i + 1 implies (newly_settled(before, settled@, k) <==> s.contains(k as usize)) by {
                        if k < i {
                            if old_stopped.contains(k as usize) {
                                let w = choose|w: int| 0 <= w < old_stopped.len() && old_stopped[w] == k as usize;
                                if w < p {
                                    assert(s[w] == k as usize);
                                } else {
                                    assert(s[w + 1] == k as usize);
                                }
                            }
                            if s.contains(k as usize) {
                                let w = choose|w: int| 0 <= w < s.len() && s[w] == k as usize;
                                if w < p {
                                    assert(old_stopped[w] == k as usize);
                                } else if w == p {
                                    assert(false);
                                } else {
                                    assert(old_stopped[w - 1] == k as usize);
                                }
                            }
                        } else {
                            assert(s[p as int] == i);
                        }
                    }
                    assert forall|k: int| 0 <= k < s.len() implies #[trigger] s[k] < i + 1 by {
                        if k < p {
                            assert(s[k] == old_stopped[k]);
                        } else if k > p {
                            assert(s[k] == old_stopped[k - 1]);
                        }
                    }
                }
                self.announced.set(i, true);
            } else {
                proof {
                    assert forall|k: int| 0 <= k < i + 1 implies (newly_settled(before, settled@, k) <==> stopped@.contains(k as usize)) by {
                        if k == i as int {
                            if stopped@.contains(k as usize) {
                                let w = choose|w: int| 0 <= w < stopped@.len() && stopped@[w] == k as usize;
                                assert(stopped@[w] < i);
                            }
                        }
                    }
                }
            }
            i = i + 1;
        }
        assert(self.announced@ =~= announced_after(before, settled@));
        stopped
    }
}

/// Law: no stop is announced twice. A strip announced in one tick is not
/// announced in any later tick, and once every strip has been at rest every
/// strip has been announced, so later ticks announce nothing.
pub proof fn lemma_each_stop_is_announced_once(announced: Seq<bool>, first: Seq<bool>, second: Seq<bool>)
    requires
        first.len() == announced.len(),
        second.len() == announced.len(),
    ensures
        forall|i: int| 0 <= i < announced.len() && #[trigger] newly_settled(announced, first, i)
            ==> !newly_settled(announced_after(announced, first), second, i),
        (forall|i: int| 0 <= i < first.len() ==> #[trigger] first[i])
            ==> forall|i: int| 0 <= i < announced.len() ==> !#[trigger] newly_settled(announced_after(announced, first), second, i),
{
}

} // verus!
