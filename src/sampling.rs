//! Random choice of chat members: uniform, distinct, or weighted by a
//! cumulative-weight draw.
use rand::Rng;
use vstd::prelude::*;
use crate::board::{without_user, LedgerEntry};
use crate::chat::ChatKey;
use crate::ledger::Ledger;

verus! {

/// How many draws per wanted member a distinct sample may spend on
/// collisions before it takes the smallest indices not yet chosen.
pub const DRAWS_PER_MEMBER: u64 = 32;

/// Relies on rand's `Rng::gen_range` with the OS generator: a uniformly drawn
/// value in `0..bound`. It panics on an empty range, hence `bound > 0`, and
/// otherwise only if the operating system's generator fails.
#[verifier::external_body]
fn random_below(bound: u64) -> (r: u64)
    requires
        bound > 0,
    ensures
        r < bound,
{
    rand::rngs::OsRng.gen_range(0..bound)
}

/// The distinct values of `draws`, in the order first drawn, up to `count`.
pub open spec fn collect_distinct(draws: Seq<u64>, count: nat) -> Seq<u64>
    decreases draws.len(),
{
    if draws.len() == 0 {
        Seq::empty()
    } else {
        let prev = collect_distinct(draws.drop_last(), count);
        if prev.len() < count && !prev.contains(draws.last()) {
            prev.push(draws.last())
        } else {
            prev
        }
    }
}

pub open spec fn distinct_below(s: Seq<u64>, bound: int) -> bool {
    &&& s.no_duplicates()
    &&& forall|i: int| 0 <= i < s.len() ==> #[trigger] s[i] < bound
}

fn contains_u64(s: &Vec<u64>, x: u64) -> (r: bool)
    ensures
        r == s@.contains(x),
{
    let mut i: usize = 0;
    while i < s.len()
        invariant
            i <= s@.len(),
            forall|p: int| 0 <= p < i ==> #[trigger] s@[p] != x,
        decreases s@.len() - i,
    {
        if s[i] == x {
            return true;
        }
        i += 1;
    }
    false
}

/// Adds `draw` to `chosen` when `chosen` holds fewer than `count` values and
/// not `draw` itself; says whether it did.
pub fn offer_draw(chosen: &mut Vec<u64>, count: u64, draw: u64) -> (added: bool)
    ensures
        added == (old(chosen)@.len() < count && !old(chosen)@.contains(draw)),
        final(chosen)@ == if added {
            old(chosen)@.push(draw)
        } else {
            old(chosen)@
        },
{
    if (chosen.len() as u64) < count && !contains_u64(chosen, draw) {
        chosen.push(draw);
        true
    } else {
        false
    }
}

proof fn lemma_collect_distinct(draws: Seq<u64>, count: nat, bound: int)
    requires
        forall|i: int| 0 <= i < draws.len() ==> #[trigger] draws[i] < bound,
    ensures
        distinct_below(collect_distinct(draws, count), bound),
        collect_distinct(draws, count).len() <= count,
    decreases draws.len(),
{
    if draws.len() > 0 {
        let d = draws.drop_last();
        assert forall|i: int| 0 <= i < d.len() implies #[trigger] d[i] < bound by {
            assert(d[i] == draws[i]);
        }
        lemma_collect_distinct(d, count, bound);
        let prev = collect_distinct(d, count);
        if prev.len() < count && !prev.contains(draws.last()) {
            let next = prev.push(draws.last());
            assert forall|i: int, j: int| 0 <= i < next.len() && 0 <= j < next.len() && i != j implies next[i]
                != next[j] by {
                if i == prev.len() {
                    assert(next[j] == prev[j]);
                } else if j == prev.len() {
                    assert(next[i] == prev[i]);
                }
            }
        }
    }
}

/// The distinct indices among `draws`, in the order first drawn, at most
/// `count` of them.
pub fn distinct_indices(draws: &Vec<u64>, count: usize) -> (r: Vec<u64>)
    ensures
        r@ == collect_distinct(draws@, count as nat),
{
    let mut chosen: Vec<u64> = Vec::new();
    let mut i: usize = 0;
    while i < draws.len()
        invariant
            i <= draws@.len(),
            chosen@ == collect_distinct(draws@.subrange(0, i as int), count as nat),
        decreases draws@.len() - i,
    {
        proof {
            let t = draws@.subrange(0, i as int + 1);
            assert(t.drop_last() == draws@.subrange(0, i as int));
            assert(t.last() == draws@[i as int]);
        }
        offer_draw(&mut chosen, count as u64, draws[i]);
        i += 1;
    }
    proof {
        assert(draws@.subrange(0, draws@.len() as int) == draws@);
    }
    chosen
}

/// How many of `0 .. t` lie in `s`.
pub open spec fn count_in(s: Seq<u64>, t: int) -> int
    decreases t,
{
    if t <= 0 {
        0
    } else {
        count_in(s, t - 1) + if s.contains((t - 1) as u64) {
            1int
        } else {
            0int
        }
    }
}

proof fn lemma_count_all(s: Seq<u64>, t: int)
    requires
        0 <= t <= u64::MAX + 1,
        forall|j: int| 0 <= j < t ==> #[trigger] s.contains(j as u64),
    ensures
        count_in(s, t) == t,
    decreases t,
{
    if t > 0 {
        lemma_count_all(s, t - 1);
    }
}

proof fn lemma_count_empty(t: int)
    requires
        0 <= t,
    ensures
        count_in(Seq::<u64>::empty(), t) == 0,
    decreases t,
{
    if t > 0 {
        lemma_count_empty(t - 1);
    }
}

proof fn lemma_count_push(s: Seq<u64>, x: u64, t: int)
    requires
        !s.contains(x),
        0 <= t <= u64::MAX + 1,
    ensures
        count_in(s.push(x), t) == count_in(s, t) + if x < t {
            1int
        } else {
            0int
        },
    decreases t,
{
    if t > 0 {
        lemma_count_push(s, x, t - 1);
        let y = (t - 1) as u64;
        assert(s.push(x).contains(y) <==> s.contains(y) || y == x) by {
            if s.push(x).contains(y) {
                let k = choose|k: int| 0 <= k < s.push(x).len() && s.push(x)[k] == y;
                if k < s.len() {
                    assert(s[k] == y);
                }
            }
            if s.contains(y) {
                let k = choose|k: int| 0 <= k < s.len() && s[k] == y;
                assert(s.push(x)[k] == y);
            }
            if y == x {
                assert(s.push(x)[s.len() as int] == y);
            }
        }
    }
}

/// A sequence of distinct values below `t` holds exactly as many values as it
/// covers of `0 .. t`.
proof fn lemma_count_distinct(s: Seq<u64>, t: int)
    requires
        0 <= t <= u64::MAX + 1,
        distinct_below(s, t),
    ensures
        count_in(s, t) == s.len(),
    decreases s.len(),
{
    if s.len() > 0 {
        let d = s.drop_last();
        assert(d.push(s.last()) == s);
        assert(distinct_below(d, t)) by {
            assert forall|i: int| 0 <= i < d.len() implies #[trigger] d[i] < t by {
                assert(d[i] == s[i]);
            }
            assert forall|i: int, j: int| 0 <= i < d.len() && 0 <= j < d.len() && i != j implies d[i] != d[j] by {
                assert(d[i] == s[i] && d[j] == s[j]);
            }
        }
        assert(!d.contains(s.last())) by {
            if d.contains(s.last()) {
                let k = choose|k: int| 0 <= k < d.len() && d[k] == s.last();
                assert(s[k] == s[s.len() - 1]);
            }
        }
        lemma_count_distinct(d, t);
        lemma_count_push(d, s.last(), t);
        assert(s[s.len() - 1] < t);
    } else {
        assert(s == Seq::<u64>::empty());
        lemma_count_empty(t);
    }
}

/// `min(count, total)` distinct random indices below `total`, drawn with
/// retry on collision. Should `DRAWS_PER_MEMBER` draws per wanted index all
/// collide, the rest is taken from the smallest indices not yet chosen, so
/// the draw always ends.
pub fn random_distinct_indices(total: u64, count: u64) -> (r: Vec<u64>)
    ensures
        distinct_below(r@, total as int),
        r@.len() == if count < total {
            count
        } else {
            total
        },
{
    let want: u64 = if count < total { count } else { total };
    let mut chosen: Vec<u64> = Vec::new();
    if want == 0 {
        return chosen;
    }
    let budget: u64 = if want <= u64::MAX / DRAWS_PER_MEMBER { want * DRAWS_PER_MEMBER } else { u64::MAX };
    let ghost draws: Seq<u64> = Seq::empty();
    let mut spent: u64 = 0;
    while spent < budget && (chosen.len() as u64) < want
        invariant
            want > 0,
            want <= total,
            spent <= budget,
            draws.len() == spent,
            forall|i: int| 0 <= i < draws.len() ==> #[trigger] draws[i] < total,
            chosen@ == collect_distinct(draws, want as nat),
        decreases budget - spent,
    {
        let d = random_below(total);
        proof {
            let t = draws.push(d);
            assert(t.drop_last() == draws);
            assert(t.last() == d);
            draws = t;
        }
        offer_draw(&mut chosen, want, d);
        spent += 1;
    }
    proof {
        lemma_collect_distinct(draws, want as nat, total as int);
    }
    let mut j: u64 = 0;
    while j < total && (chosen.len() as u64) < want
        invariant
            want <= total,
            j <= total,
            distinct_below(chosen@, total as int),
            chosen@.len() <= want,
            chosen@.len() < want ==> forall|x: int| 0 <= x < j ==> #[trigger] chosen@.contains(x as u64),
        decreases total - j,
    {
        let ghost before = chosen@;
        offer_draw(&mut chosen, want, j);
        proof {
            assert forall|a: int, b: int| 0 <= a < chosen@.len() && 0 <= b < chosen@.len() && a != b implies chosen@[a]
                != chosen@[b] by {
                if a < before.len() && b < before.len() {
                } else if a < before.len() {
                    assert(before.contains(chosen@[a]));
                } else if b < before.len() {
                    assert(before.contains(chosen@[b]));
                }
            }
            if chosen@.len() < want {
                assert(before.len() < want);
                assert forall|x: int| 0 <= x < j + 1 implies #[trigger] chosen@.contains(x as u64) by {
                    if x < j {
                        assert(before.contains(x as u64));
                        let k = choose|k: int| 0 <= k < before.len() && before[k] == x as u64;
                        assert(chosen@[k] == x as u64);
                    } else if chosen@.len() > before.len() {
                        assert(chosen@[before.len() as int] == j);
                    } else {
                        assert(before.contains(j));
                    }
                }
            }
        }
        j += 1;
    }
    proof {
        if (chosen@.len() as u64) < want {
            lemma_count_all(chosen@, total as int);
            lemma_count_distinct(chosen@, total as int);
        }
    }
    chosen
}

/// The members of chat `key` other than `ex` at the given rank indices.
pub fn members_at(ledger: &Ledger, key: &ChatKey, ex: Option<u64>, idx: &Vec<u64>) -> (r: Vec<LedgerEntry>)
    requires
        ledger.wf(),
        forall|q: int| 0 <= q < idx@.len() ==> #[trigger] idx@[q] < without_user(ledger.ranked(key@), ex).len(),
    ensures
        r@.len() == idx@.len(),
        forall|q: int| 0 <= q < idx@.len() ==> #[trigger] r@[q] == without_user(ledger.ranked(key@), ex)[idx@[q] as int],
{
    let ghost pool = without_user(ledger.ranked(key@), ex);
    let n = ledger.count_members(key, ex);
    let mut out: Vec<LedgerEntry> = Vec::new();
    let mut i: usize = 0;
    while i < idx.len()
        invariant
            ledger.wf(),
            pool == without_user(ledger.ranked(key@), ex),
            n == pool.len(),
            forall|q: int| 0 <= q < idx@.len() ==> #[trigger] idx@[q] < pool.len(),
            i <= idx@.len(),
            out@.len() == i,
            forall|q: int| 0 <= q < i ==> #[trigger] out@[q] == pool[idx@[q] as int],
        decreases idx@.len() - i,
    {
        let e = match ledger.nth_member(key, ex, idx[i] as usize) {
            Some(e) => e,
            None => {
                proof {
                    assert(idx@[i as int] < pool.len());
                }
                return out;
            },
        };
        out.push(e);
        i += 1;
    }
    out
}

/// `count` distinct members of chat `key` other than `ex`, drawn at random by
/// index, or all of them when there are fewer.
pub fn random_members(ledger: &Ledger, key: &ChatKey, ex: Option<u64>, count: u64) -> (r: Vec<LedgerEntry>)
    requires
        ledger.wf(),
    ensures
        r@.len() == if count < without_user(ledger.ranked(key@), ex).len() {
            count as int
        } else {
            without_user(ledger.ranked(key@), ex).len() as int
        },
        forall|i: int|
            0 <= i < r@.len() ==> without_user(ledger.ranked(key@), ex).contains(#[trigger] r@[i]),
        forall|i: int, j: int| 0 <= i < r@.len() && 0 <= j < r@.len() && i != j ==> r@[i] != r@[j],
{
    let total = ledger.count_members(key, ex);
    let idx = random_distinct_indices(total as u64, count);
    let out = members_at(ledger, key, ex, &idx);
    proof {
        let pool = without_user(ledger.ranked(key@), ex);
        assert forall|a: int| 0 <= a < out@.len() implies pool.contains(#[trigger] out@[a]) by {
            assert(out@[a] == pool[idx@[a] as int]);
        }
        assert forall|a: int, b: int| 0 <= a < out@.len() && 0 <= b < out@.len() && a != b implies out@[a] != out@[b] by {
            assert(idx@[a] != idx@[b]);
            assert(out@[a] == pool[idx@[a] as int]);
            assert(out@[b] == pool[idx@[b] as int]);
            ledger.lemma_ranked_well(key@);
            crate::board::lemma_without_user_distinct(ledger.ranked(key@), ex, idx@[a] as int, idx@[b] as int);
        }
    }
    out
}

/// Sum of the first `n` weights.
pub open spec fn prefix_weight(w: Seq<u64>, n: int) -> int
    decreases n,
{
    if n <= 0 {
        0
    } else {
        prefix_weight(w, n - 1) + w[n - 1]
    }
}

proof fn lemma_prefix_monotone(w: Seq<u64>, a: int, b: int)
    requires
        0 <= a <= b <= w.len(),
    ensures
        prefix_weight(w, a) <= prefix_weight(w, b),
    decreases b - a,
{
    if a < b {
        lemma_prefix_monotone(w, a, b - 1);
    }
}

/// The member hit by `draw` when each member `i` owns the slice
/// `[prefix_weight(i), prefix_weight(i + 1))` of `[0, total)`: the first one
/// whose cumulative weight exceeds the draw.
pub fn pick_by_weight(weights: &Vec<u64>, draw: u64) -> (r: Option<usize>)
    requires
        prefix_weight(weights@, weights@.len() as int) <= u64::MAX,
    ensures
        r is None <==> draw >= prefix_weight(weights@, weights@.len() as int),
        r matches Some(i) ==> i < weights@.len() && prefix_weight(weights@, i as int) <= draw
            < prefix_weight(weights@, i + 1),
{
    let mut acc: u64 = 0;
    let mut i: usize = 0;
    while i < weights.len()
        invariant
            i <= weights@.len(),
            acc == prefix_weight(weights@, i as int),
            acc <= draw,
            prefix_weight(weights@, weights@.len() as int) <= u64::MAX,
        decreases weights@.len() - i,
    {
        proof {
            lemma_prefix_monotone(weights@, i + 1, weights@.len() as int);
        }
        let next = acc + weights[i];
        if draw < next {
            return Some(i);
        }
        acc = next;
        i += 1;
    }
    None
}

/// Draws a member by weight: `None` when all weights are zero, else an index
/// whose weight is positive.
pub fn random_by_weight(weights: &Vec<u64>) -> (r: Option<usize>)
    requires
        prefix_weight(weights@, weights@.len() as int) <= u64::MAX,
    ensures
        r is None <==> prefix_weight(weights@, weights@.len() as int) == 0,
        r matches Some(i) ==> i < weights@.len() && weights@[i as int] > 0,
{
    let mut total: u64 = 0;
    let mut i: usize = 0;
    while i < weights.len()
        invariant
            i <= weights@.len(),
            total == prefix_weight(weights@, i as int),
            prefix_weight(weights@, weights@.len() as int) <= u64::MAX,
        decreases weights@.len() - i,
    {
        proof {
            lemma_prefix_monotone(weights@, i + 1, weights@.len() as int);
        }
        total = total + weights[i];
        i += 1;
    }
    if total == 0 {
        return None;
    }
    let draw = random_below(total);
    pick_by_weight(weights, draw)
}

/// A member of chat `key` other than `ex`, changed after `since`, drawn
/// uniformly; `None` when there is none.
pub fn random_active_member(ledger: &Ledger, key: &ChatKey, ex: Option<u64>, since: i64) -> (r: Option<
    LedgerEntry,
>)
    requires
        ledger.wf(),
    ensures
        r is None <==> active_except(ledger.ranked(key@), ex, since).len() == 0,
        r matches Some(e) ==> active_except(ledger.ranked(key@), ex, since).contains(e),
{
    let active = ledger.active_members(key, since);
    let mut pool: Vec<LedgerEntry> = Vec::new();
    let mut i: usize = 0;
    while i < active.len()
        invariant
            i <= active@.len(),
            pool@ == active@.subrange(0, i as int).filter(|e: LedgerEntry| Some(e.user) != ex),
        decreases active@.len() - i,
    {
        proof {
            reveal(Seq::filter);
            let t = active@.subrange(0, i as int + 1);
            assert(t.drop_last() == active@.subrange(0, i as int));
            assert(t.last() == active@[i as int]);
        }
        let e = active[i];
        let keep = match ex {
            Some(x) => e.user != x,
            None => true,
        };
        if keep {
            pool.push(e);
        }
        i += 1;
    }
    proof {
        assert(active@.subrange(0, active@.len() as int) == active@);
    }
    if pool.len() == 0 {
        return None;
    }
    let k = random_below(pool.len() as u64);
    proof {
        assert(pool@.contains(pool@[k as int]));
    }
    Some(pool[k as usize])
}

/// The members changed after `since`, leaving out `ex`, in rank order.
pub open spec fn active_except(s: Seq<LedgerEntry>, ex: Option<u64>, since: i64) -> Seq<LedgerEntry> {
    crate::board::active_since(s, since).filter(|e: LedgerEntry| Some(e.user) != ex)
}

} // verus!
