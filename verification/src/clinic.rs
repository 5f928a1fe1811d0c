//! The clinic queue model.
//!
//! Visitors carry a minted ticket and a positive service duration, queue in
//! arrival order, and are spread over a fixed number of service windows by a
//! greedy rule: each visitor, in queue order, goes to the window with the
//! least accumulated load, the earliest such window on ties.

use crate::digits::{digit_char, digit_str};
use crate::parse::{parse_usize, parsed_dec};
use vstd::arithmetic::mul::lemma_mul_inequality;
use vstd::multiset::Multiset;
use vstd::prelude::*;

verus! {

/// The characters of a ticket for clock reading `n`: `T` and three
/// zero-padded decimal digits.
pub open spec fn ticket_seq(n: int) -> Seq<char> {
    seq!['T', digit_char(n / 100), digit_char((n / 10) % 10), digit_char(n % 10)]
}

/// Relies on `std::time::SystemTime::now` and its `duration_since` from
/// `UNIX_EPOCH`: the nanoseconds since the Unix epoch, or zero when the clock
/// reads earlier than the epoch. Nothing is assumed of the value.
#[verifier::external_body]
fn nanos_since_epoch() -> u128 {
    match std::time::SystemTime::now().duration_since(std::time::UNIX_EPOCH) {
        Ok(d) => d.as_nanos(),
        Err(_) => 0,
    }
}

/// The ticket string for clock reading `n`.
pub fn make_ticket(n: u64) -> (r: String)
    requires
        n < 1000,
    ensures
        r@ == ticket_seq(n as int),
{
    let mut r = String::new();
    r.append("T");
    r.append(digit_str((n / 100) as usize));
    r.append(digit_str(((n / 10) % 10) as usize));
    r.append(digit_str((n % 10) as usize));
    proof {
        reveal_strlit("T");
        assert(r@ =~= ticket_seq(n as int));
    }
    r
}

/// A ticket minted from the current clock: `T` followed by the three least
/// significant decimal digits of the nanoseconds since the Unix epoch.
/// Tickets are not guaranteed unique.
pub fn generate_ticket() -> (r: String)
    ensures
        exists|n: int| 0 <= n < 1000 && r@ == ticket_seq(n),
{
    let ns = nanos_since_epoch();
    let n = (ns % 1000) as u64;
    let r = make_ticket(n);
    proof {
        assert(0 <= n < 1000 && r@ == ticket_seq(n as int));
    }
    r
}

/// A service duration as the dialogue accepts it: a decimal number that
/// fits a `u32` and is strictly positive.
pub fn parse_duration(s: &str) -> (r: Option<u32>)
    ensures
        r is Some <==> (parsed_dec(s@, usize::MAX as int) matches Some(n) && 0 < n
            <= u32::MAX as int),
        r matches Some(d) ==> parsed_dec(s@, usize::MAX as int) == Some(d as int),
{
    match parse_usize(s) {
        Some(n) if n > 0 && n <= u32::MAX as usize => Some(n as u32),
        _ => None,
    }
}

/// A window count as the startup prompt accepts it: a decimal number that
/// is strictly positive.
pub fn parse_window_count(s: &str) -> (r: Option<usize>)
    ensures
        r is Some <==> (parsed_dec(s@, usize::MAX as int) matches Some(n) && n > 0),
        r matches Some(w) ==> parsed_dec(s@, usize::MAX as int) == Some(w as int),
{
    match parse_usize(s) {
        Some(n) if n > 0 => Some(n),
        _ => None,
    }
}

/// One queued visitor: a ticket and a service duration in minutes.
pub struct Visitor {
    pub ticket: String,
    pub duration: u32,
}

impl View for Visitor {
    type V = (Seq<char>, u32);

    open spec fn view(&self) -> (Seq<char>, u32) {
        (self.ticket@, self.duration)
    }
}

impl Clone for Visitor {
    fn clone(&self) -> (r: Self)
        ensures
            r@ == self@,
    {
        Visitor { ticket: self.ticket.clone(), duration: self.duration }
    }
}

/// The visitors of a queue, as ticket text and duration.
pub open spec fn views(q: Seq<Visitor>) -> Seq<(Seq<char>, u32)> {
    q.map_values(|v: Visitor| v@)
}

/// Mint a ticket, append the visitor, and hand the ticket back.
pub fn enqueue(queue: &mut Vec<Visitor>, duration: u32) -> (t: String)
    requires
        duration > 0,
    ensures
        final(queue)@.len() == old(queue)@.len() + 1,
        forall|j: int| 0 <= j < old(queue)@.len() ==> final(queue)@[j] == old(queue)@[j],
        final(queue)@.last().duration == duration,
        final(queue)@.last().ticket@ == t@,
        exists|n: int| 0 <= n < 1000 && t@ == ticket_seq(n),
{
    let t = generate_ticket();
    let ticket = t.clone();
    queue.push(Visitor { ticket, duration });
    t
}

/// One service window during distribution: its accumulated load in minutes
/// and its visitors in assignment order.
pub struct Window {
    pub load: u64,
    pub visitors: Vec<Visitor>,
}

/// The mathematical content of a window.
pub ghost struct BinV {
    pub load: int,
    pub vs: Seq<(Seq<char>, u32)>,
}

impl View for Window {
    type V = BinV;

    open spec fn view(&self) -> BinV {
        BinV { load: self.load as int, vs: views(self.visitors@) }
    }
}

/// The loads of a bin list.
pub open spec fn bin_loads(bins: Seq<BinV>) -> Seq<int> {
    bins.map_values(|b: BinV| b.load)
}

/// The position of the least value among the first `n` entries of `loads`,
/// the earliest such position on ties.
pub open spec fn min_idx_pfx(loads: Seq<int>, n: int) -> int
    decreases n,
{
    if n <= 1 {
        0
    } else if loads[n - 1] < loads[min_idx_pfx(loads, n - 1)] {
        n - 1
    } else {
        min_idx_pfx(loads, n - 1)
    }
}

/// The position of the least load, the earliest on ties.
pub open spec fn min_idx(loads: Seq<int>) -> int {
    min_idx_pfx(loads, loads.len() as int)
}

/// `w` empty bins.
pub open spec fn init_bins(w: int) -> Seq<BinV> {
    Seq::new(w as nat, |i: int| BinV { load: 0, vs: Seq::empty() })
}

/// Assign one visitor to the least-loaded bin (the earliest on ties).
pub open spec fn place(bins: Seq<BinV>, v: (Seq<char>, u32)) -> Seq<BinV> {
    let m = min_idx(bin_loads(bins));
    bins.update(m, BinV { load: bins[m].load + v.1, vs: bins[m].vs.push(v) })
}

/// The greedy distribution of queue `q` over `w` bins: each visitor, in
/// queue order, goes to the bin with the least load at that moment.
pub open spec fn spec_distribute(q: Seq<(Seq<char>, u32)>, w: int) -> Seq<BinV>
    decreases q.len(),
{
    if q.len() == 0 {
        init_bins(w)
    } else {
        place(spec_distribute(q.drop_last(), w), q.last())
    }
}

/// The sum of the durations in a visitor list.
pub open spec fn sum_durs(vs: Seq<(Seq<char>, u32)>) -> int
    decreases vs.len(),
{
    if vs.len() == 0 {
        0
    } else {
        sum_durs(vs.drop_last()) + vs.last().1
    }
}

/// `min_idx_pfx` really is the earliest position of the least value.
pub proof fn lemma_min_idx_pfx(loads: Seq<int>, n: int)
    requires
        1 <= n <= loads.len(),
    ensures
        0 <= min_idx_pfx(loads, n) < n,
        forall|k: int| 0 <= k < n ==> loads[min_idx_pfx(loads, n)] <= #[trigger] loads[k],
        forall|k: int|
            0 <= k < min_idx_pfx(loads, n) ==> #[trigger] loads[k] > loads[min_idx_pfx(loads, n)],
    decreases n,
{
    if n > 1 {
        lemma_min_idx_pfx(loads, n - 1);
    }
}

/// A distribution over `w` bins has `w` bins.
pub proof fn lemma_distribute_len(q: Seq<(Seq<char>, u32)>, w: int)
    requires
        w >= 1,
    ensures
        spec_distribute(q, w).len() == w,
    decreases q.len(),
{
    if q.len() > 0 {
        lemma_distribute_len(q.drop_last(), w);
        lemma_min_idx_pfx(bin_loads(spec_distribute(q.drop_last(), w)), w);
    }
}

/// Appending a visitor to the queue places that visitor onto the
/// distribution of the shorter queue.
pub proof fn lemma_distribute_push(q: Seq<(Seq<char>, u32)>, v: (Seq<char>, u32), w: int)
    ensures
        spec_distribute(q.push(v), w) == place(spec_distribute(q, w), v),
{
    assert(q.push(v).drop_last() =~= q);
    assert(q.push(v).last() == v);
}

/// The sum of `n` durations is at most `n` times the largest duration value.
pub proof fn lemma_sum_durs_bound(vs: Seq<(Seq<char>, u32)>)
    ensures
        sum_durs(vs) <= vs.len() * 0xffff_ffff,
    decreases vs.len(),
{
    if vs.len() > 0 {
        lemma_sum_durs_bound(vs.drop_last());
    }
}

/// Every bin's load lies between zero and the sum of all queued durations.
pub proof fn lemma_loads_bounded(q: Seq<(Seq<char>, u32)>, w: int)
    requires
        w >= 1,
    ensures
        forall|j: int|
            0 <= j < w ==> 0 <= (#[trigger] spec_distribute(q, w)[j].load) <= sum_durs(q),
    decreases q.len(),
{
    lemma_distribute_len(q, w);
    if q.len() > 0 {
        let dl = q.drop_last();
        let v = q.last();
        lemma_loads_bounded(dl, w);
        lemma_distribute_len(dl, w);
        let prev = spec_distribute(dl, w);
        lemma_min_idx_pfx(bin_loads(prev), w);
    }
}

/// The visitors of all bins together, as a multiset.
pub open spec fn bins_multiset(bins: Seq<BinV>) -> Multiset<(Seq<char>, u32)>
    decreases bins.len(),
{
    if bins.len() == 0 {
        Multiset::empty()
    } else {
        bins_multiset(bins.drop_last()).add(bins.last().vs.to_multiset())
    }
}

/// Replacing one bin swaps its visitors for the new bin's visitors
/// in the combined multiset.
proof fn lemma_bins_multiset_update(bins: Seq<BinV>, m: int, b: BinV)
    requires
        0 <= m < bins.len(),
    ensures
        bins_multiset(bins.update(m, b)).add(bins[m].vs.to_multiset()) == bins_multiset(
            bins,
        ).add(b.vs.to_multiset()),
    decreases bins.len(),
{
    broadcast use vstd::multiset::group_multiset_axioms;

    let upd = bins.update(m, b);
    if m == bins.len() - 1 {
        assert(upd.drop_last() =~= bins.drop_last());
        assert(upd.last() == b);
        assert(bins_multiset(upd).add(bins[m].vs.to_multiset()) =~= bins_multiset(bins).add(
            b.vs.to_multiset(),
        ));
    } else {
        assert(upd.drop_last() =~= bins.drop_last().update(m, b));
        lemma_bins_multiset_update(bins.drop_last(), m, b);
        assert(upd.last() == bins.last());
        assert(bins.drop_last()[m] == bins[m]);
        let dl = bins.drop_last();
        assert forall|x: (Seq<char>, u32)|
            bins_multiset(upd).add(bins[m].vs.to_multiset()).count(x) == bins_multiset(bins).add(
                b.vs.to_multiset(),
            ).count(x) by {
            assert(bins_multiset(dl.update(m, b)).add(bins[m].vs.to_multiset()).count(x)
                == bins_multiset(dl).add(b.vs.to_multiset()).count(x));
        }
        assert(bins_multiset(upd).add(bins[m].vs.to_multiset()) =~= bins_multiset(bins).add(
            b.vs.to_multiset(),
        ));
    }
}

/// No bins of an empty distribution hold any visitor.
proof fn lemma_init_bins_multiset(w: int)
    requires
        w >= 0,
    ensures
        bins_multiset(init_bins(w)) == Multiset::<(Seq<char>, u32)>::empty(),
    decreases w,
{
    broadcast use vstd::multiset::group_multiset_axioms;
    broadcast use vstd::seq_lib::group_to_multiset_ensures;

    if w > 0 {
        assert(init_bins(w).drop_last() =~= init_bins(w - 1));
        lemma_init_bins_multiset(w - 1);
        let e = Seq::<(Seq<char>, u32)>::empty();
        assert forall|x: (Seq<char>, u32)| e.to_multiset().count(x) == 0nat by {
            assert(!e.contains(x));
        }
        assert(e.to_multiset() =~= Multiset::<(Seq<char>, u32)>::empty());
        assert(bins_multiset(init_bins(w)) =~= Multiset::<(Seq<char>, u32)>::empty());
    }
}

/// Law: distribution preserves the queue. The visitors of all bins
/// together are exactly the queued visitors.
pub proof fn lemma_distribution_preserves_queue(q: Seq<(Seq<char>, u32)>, w: int)
    requires
        w >= 1,
    ensures
        bins_multiset(spec_distribute(q, w)) == q.to_multiset(),
    decreases q.len(),
{
    broadcast use vstd::multiset::group_multiset_axioms;
    broadcast use vstd::seq_lib::group_to_multiset_ensures;

    if q.len() == 0 {
        lemma_init_bins_multiset(w);
        assert forall|x: (Seq<char>, u32)| q.to_multiset().count(x) == 0nat by {
            assert(!q.contains(x));
        }
        assert(q.to_multiset() =~= Multiset::<(Seq<char>, u32)>::empty());
    } else {
        let dl = q.drop_last();
        let v = q.last();
        lemma_distribution_preserves_queue(dl, w);
        lemma_distribute_len(dl, w);
        let prev = spec_distribute(dl, w);
        lemma_min_idx_pfx(bin_loads(prev), w);
        let m = min_idx(bin_loads(prev));
        let b = BinV { load: prev[m].load + v.1, vs: prev[m].vs.push(v) };
        lemma_bins_multiset_update(prev, m, b);
        assert(spec_distribute(q, w) == prev.update(m, b));
        assert(b.vs.to_multiset() =~= prev[m].vs.to_multiset().insert(v));
        assert(dl.push(v) =~= q);
        assert(q.to_multiset() =~= dl.to_multiset().insert(v));
        assert forall|x: (Seq<char>, u32)|
            bins_multiset(spec_distribute(q, w)).count(x) == q.to_multiset().count(x) by {
            assert(bins_multiset(prev.update(m, b)).add(prev[m].vs.to_multiset()).count(x)
                == bins_multiset(prev).add(b.vs.to_multiset()).count(x));
            assert(b.vs.to_multiset().count(x) == prev[m].vs.to_multiset().insert(v).count(x));
        }
        assert(bins_multiset(spec_distribute(q, w)) =~= q.to_multiset());
    }
}

/// `f` embeds `a` into `b`: it lists, strictly increasing, a position in `b`
/// for each entry of `a`, holding that entry.
pub open spec fn is_embedding(
    f: Seq<int>,
    a: Seq<(Seq<char>, u32)>,
    b: Seq<(Seq<char>, u32)>,
) -> bool {
    &&& f.len() == a.len()
    &&& (forall|k: int| 0 <= k < f.len() ==> 0 <= #[trigger] f[k] < b.len() && b[f[k]] == a[k])
    &&& (forall|k1: int, k2: int| 0 <= k1 < k2 < f.len() ==> f[k1] < f[k2])
}

/// `a` is a subsequence of `b`: `b` with some entries left out, order kept.
pub open spec fn subseq_of(a: Seq<(Seq<char>, u32)>, b: Seq<(Seq<char>, u32)>) -> bool {
    exists|f: Seq<int>| is_embedding(f, a, b)
}

proof fn lemma_subseq_empty(b: Seq<(Seq<char>, u32)>)
    ensures
        subseq_of(Seq::empty(), b),
{
    let f = Seq::<int>::empty();
    assert(is_embedding(f, Seq::empty(), b));
}

proof fn lemma_subseq_extend(a: Seq<(Seq<char>, u32)>, b: Seq<(Seq<char>, u32)>, v: (Seq<char>, u32))
    requires
        subseq_of(a, b),
    ensures
        subseq_of(a, b.push(v)),
{
    let f = choose|f: Seq<int>| is_embedding(f, a, b);
    assert(is_embedding(f, a, b.push(v)));
}

proof fn lemma_subseq_push_both(
    a: Seq<(Seq<char>, u32)>,
    b: Seq<(Seq<char>, u32)>,
    v: (Seq<char>, u32),
)
    requires
        subseq_of(a, b),
    ensures
        subseq_of(a.push(v), b.push(v)),
{
    let f = choose|f: Seq<int>| is_embedding(f, a, b);
    let f2 = f.push(b.len() as int);
    assert(is_embedding(f2, a.push(v), b.push(v)));
}

/// Law: each bin lists a subsequence of the queue, so two visitors in the
/// same bin stand in their original relative order.
pub proof fn lemma_bins_are_subsequences(q: Seq<(Seq<char>, u32)>, w: int)
    requires
        w >= 1,
    ensures
        forall|j: int| 0 <= j < w ==> subseq_of((#[trigger] spec_distribute(q, w)[j]).vs, q),
    decreases q.len(),
{
    lemma_distribute_len(q, w);
    if q.len() == 0 {
        assert forall|j: int|
            0 <= j < w implies subseq_of((#[trigger] spec_distribute(q, w)[j]).vs, q) by {
            lemma_subseq_empty(q);
        }
    } else {
        let dl = q.drop_last();
        let v = q.last();
        lemma_bins_are_subsequences(dl, w);
        lemma_distribute_len(dl, w);
        let prev = spec_distribute(dl, w);
        lemma_min_idx_pfx(bin_loads(prev), w);
        let m = min_idx(bin_loads(prev));
        assert(dl.push(v) =~= q);
        assert forall|j: int|
            0 <= j < w implies subseq_of((#[trigger] spec_distribute(q, w)[j]).vs, q) by {
            if j == m {
                lemma_subseq_push_both(prev[m].vs, dl, v);
            } else {
                lemma_subseq_extend(prev[j].vs, dl, v);
            }
        }
    }
}

/// Law: each bin's load is the sum of its visitors' durations.
pub proof fn lemma_load_equality(q: Seq<(Seq<char>, u32)>, w: int)
    requires
        w >= 1,
    ensures
        forall|j: int|
            0 <= j < w ==> (#[trigger] spec_distribute(q, w)[j]).load == sum_durs(
                spec_distribute(q, w)[j].vs,
            ),
    decreases q.len(),
{
    lemma_distribute_len(q, w);
    if q.len() > 0 {
        let dl = q.drop_last();
        let v = q.last();
        lemma_load_equality(dl, w);
        lemma_distribute_len(dl, w);
        let prev = spec_distribute(dl, w);
        lemma_min_idx_pfx(bin_loads(prev), w);
        let m = min_idx(bin_loads(prev));
        assert(prev[m].vs.push(v).drop_last() =~= prev[m].vs);
    }
}

/// Law: when visitor `i` is placed, the chosen bin's load before placement is
/// at most every bin's load, and every earlier bin's load is strictly larger.
pub proof fn lemma_greedy_min_load(q: Seq<(Seq<char>, u32)>, w: int, i: int)
    requires
        w >= 1,
        0 <= i < q.len(),
    ensures
        ({
            let before = spec_distribute(q.take(i), w);
            let m = min_idx(bin_loads(before));
            &&& 0 <= m < w
            &&& spec_distribute(q.take(i + 1), w) == place(before, q[i])
            &&& spec_distribute(q.take(i + 1), w)[m].vs == before[m].vs.push(q[i])
            &&& (forall|k: int| 0 <= k < w ==> before[m].load <= (#[trigger] before[k]).load)
            &&& (forall|k: int| 0 <= k < m ==> (#[trigger] before[k]).load > before[m].load)
        }),
{
    lemma_distribute_len(q.take(i), w);
    let before = spec_distribute(q.take(i), w);
    let loads = bin_loads(before);
    lemma_min_idx_pfx(loads, w);
    let m = min_idx(loads);
    assert(q.take(i + 1) =~= q.take(i).push(q[i]));
    lemma_distribute_push(q.take(i), q[i], w);
    assert forall|k: int| 0 <= k < w implies before[m].load <= (#[trigger] before[k]).load by {
        assert(loads[k] == before[k].load);
        assert(loads[m] == before[m].load);
    }
    assert forall|k: int| 0 <= k < m implies (#[trigger] before[k]).load > before[m].load by {
        assert(loads[k] == before[k].load);
        assert(loads[m] == before[m].load);
    }
}

/// `DISTRIBUTE`: spread the queue over `windows` bins by the greedy
/// least-load rule, visitors in queue order, ties to the earliest window.
pub fn distribute(queue: &Vec<Visitor>, windows: usize) -> (bins: Vec<Window>)
    requires
        1 <= windows,
        queue@.len() <= 0xffff_ffff,
    ensures
        bins@.len() == windows,
        bins@.map_values(|wi: Window| wi@) == spec_distribute(views(queue@), windows as int),
{
    let mut bins: Vec<Window> = Vec::new();
    while bins.len() < windows
        invariant
            bins@.len() <= windows,
            forall|j: int|
                0 <= j < bins@.len() ==> (#[trigger] bins@[j]@).load == 0 && bins@[j]@.vs
                    == Seq::<(Seq<char>, u32)>::empty(),
        decreases windows - bins@.len(),
    {
        bins.push(Window { load: 0, visitors: Vec::new() });
    }
    proof {
        assert(bins@.map_values(|wi: Window| wi@) =~= init_bins(windows as int));
        assert(views(queue@.take(0)) =~= Seq::<(Seq<char>, u32)>::empty());
    }
    let n = queue.len();
    let mut i: usize = 0;
    while i < n
        invariant
            n == queue@.len(),
            n <= 0xffff_ffff,
            i <= n,
            windows >= 1,
            bins@.len() == windows,
            bins@.map_values(|wi: Window| wi@) == spec_distribute(
                views(queue@.take(i as int)),
                windows as int,
            ),
        decreases n - i,
    {
        let ghost sd = bins@.map_values(|wi: Window| wi@);
        let ghost qv = views(queue@.take(i as int));
        let mut m: usize = 0;
        let mut j: usize = 1;
        while j < windows
            invariant
                bins@.len() == windows,
                sd == bins@.map_values(|wi: Window| wi@),
                1 <= j <= windows,
                m < j,
                m as int == min_idx_pfx(bin_loads(sd), j as int),
            decreases windows - j,
        {
            if bins[j].load < bins[m].load {
                m = j;
            }
            j = j + 1;
        }
        proof {
            assert(bin_loads(sd).len() == windows);
            assert(m as int == min_idx(bin_loads(sd)));
            lemma_min_idx_pfx(bin_loads(sd), windows as int);
            lemma_loads_bounded(qv, windows as int);
            lemma_sum_durs_bound(qv);
            assert(qv.len() == i);
            lemma_mul_inequality(i as int, 0xffff_ffff, 0xffff_ffff);
            assert(sd[m as int].load <= 0xffff_ffff * 0xffff_ffff);
        }
        let d = queue[i].duration;
        let visitor = queue[i].clone();
        let ghost old_bins = bins@;
        let mut wm = bins.remove(m);
        wm.load = wm.load + (d as u64);
        wm.visitors.push(visitor);
        bins.insert(m, wm);
        proof {
            assert(bins@ =~= old_bins.update(m as int, bins@[m as int]));
            assert(views(bins@[m as int].visitors@) =~= sd[m as int].vs.push(
                queue@[i as int]@,
            ));
            assert(bins@.map_values(|wi: Window| wi@) =~= place(sd, queue@[i as int]@));
            lemma_distribute_push(qv, queue@[i as int]@, windows as int);
            assert(views(queue@.take(i + 1 as int)) =~= qv.push(queue@[i as int]@));
        }
        i = i + 1;
    }
    proof {
        assert(queue@.take(n as int) =~= queue@);
    }
    bins
}

} // verus!
