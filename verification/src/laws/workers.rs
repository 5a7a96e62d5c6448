//! The way of the workers through the salts.

use crate::mine;
use crate::mine::{Matcher, MineOpts, Plan, Pos, RawHit};
use crate::scan::{Step, Worker};
use crate::words;
use vstd::prelude::*;

verus! {

/// A worker begins as far behind the start as its number says, and has counted nothing.
pub proof fn workers_begin(
    deployer: [u8; 20],
    start: u128,
    wid: u128,
    stride: u128,
    quota: Option<u64>,
    w: Worker,
    n: u64,
)
    requires
        stride >= 1,
        call_ensures(Worker::new, (deployer, start, wid, stride, quota), w),
        call_ensures(Worker::give_up, (w,), n),
    ensures
        w.deployer() == deployer@,
        w.first() == start + wid,
        w.stride() == stride,
        w.quota() == quota,
        w.counted() == 0,
        !w.awaits(),
        n == 0,
{
}

/// A worker stays the worker that it is.
pub proof fn workers_keep_their_way(w: Worker, m: &Matcher, to: Worker, step: Step)
    requires
        call_ensures(Worker::advance, (w, m), (to, step)),
    ensures
        to.deployer() == w.deployer(),
        to.first() == w.first(),
        to.stride() == w.stride(),
        to.quota() == w.quota(),
{
}

/// A worker without a quota is through only where the next of its salts lies beyond
/// 128 bits; one with a quota only there or where it has counted that many.
pub proof fn workers_end_where_the_salts_end(w: Worker, m: &Matcher, to: Worker, n: u64)
    requires
        call_ensures(Worker::advance, (w, m), (to, Step::Done(n))),
    ensures
        !to.awaits(),
        to.quota() is None ==> to.first() + to.counted() * to.stride()
            > 340_282_366_920_938_463_463_374_607_431_768_211_455,
        to.quota() matches Some(q) ==> to.counted() >= q || to.first() + to.counted() * to.stride()
            > 340_282_366_920_938_463_463_374_607_431_768_211_455,
{
}

/// A hit is that of the salt behind those that were counted, which fits 128 bits and
/// which the quota allows: it is what the salt gives when it is tried.
pub proof fn workers_hand_out_the_next_hit(
    w: Worker,
    m: &Matcher,
    to: Worker,
    h: RawHit,
    deployer: &[u8; 20],
    tried: Option<RawHit>,
)
    requires
        call_ensures(Worker::advance, (w, m), (to, Step::Hit(h))),
        deployer@ == w.deployer(),
        call_ensures(mine::try_salt, (m, deployer, h.salt), tried),
    ensures
        to.awaits(),
        h.salt == to.first() + to.counted() * to.stride(),
        to.quota() matches Some(q) ==> to.counted() < q,
        tried matches Some(t) && t.word@ == h.word@ && t.pos == h.pos && t.tail@ == h.tail@,
{
}

/// The salts that a worker passes give nothing when they are tried, and a hit that was
/// handed out is counted once.
pub proof fn workers_pass_no_hit(
    w: Worker,
    m: &Matcher,
    to: Worker,
    step: Step,
    deployer: &[u8; 20],
    k: int,
    salt: u128,
    tried: Option<RawHit>,
)
    requires
        call_ensures(Worker::advance, (w, m), (to, step)),
        deployer@ == w.deployer(),
        w.counted() + (if w.awaits() {
            1int
        } else {
            0int
        }) <= k < to.counted(),
        salt == w.first() + k * w.stride(),
        call_ensures(mine::try_salt, (m, deployer, salt), tried),
    ensures
        tried is None,
        w.quota() matches Some(q) ==> k < q,
{
    assert(w.salt_at(k) == salt);
}

/// Every counted salt is reported once: what a step reports, and what is still to be
/// reported behind it, is what was to be reported and what was counted since. There are
/// 65536 salts from one look to the next.
pub proof fn workers_report_what_they_count(
    w: Worker,
    m: &Matcher,
    to: Worker,
    step: Step,
    before: u64,
    after: u64,
)
    requires
        call_ensures(Worker::advance, (w, m), (to, step)),
        call_ensures(Worker::give_up, (w,), before),
        call_ensures(Worker::give_up, (to,), after),
    ensures
        to.counted() >= w.counted() + if w.awaits() {
            1int
        } else {
            0int
        },
        ({
            let said = match step {
                Step::Hit(h) => 0int,
                Step::Look(n) => n as int,
                Step::Done(n) => n as int,
            };
            said + after == before + to.counted() - w.counted()
        }),
        step matches Step::Look(n) ==> n == 65_536 && after == 0 && !to.awaits(),
        step matches Step::Done(n) ==> n < 65_536 && after == 0,
        after < 65_536,
{
}

/// The sum of some quotas.
pub open spec fn total(q: Seq<u64>) -> int
    decreases q.len(),
{
    if q.len() == 0 {
        0
    } else {
        q[0] + total(q.skip(1))
    }
}

/// The quotas of a count add up to it. Any two differ by one at most, and the larger
/// ones come first.
pub proof fn quotas_split_the_count(count: u64, workers: usize, q: Vec<u64>)
    requires
        workers >= 1,
        call_ensures(mine::quotas, (count, workers), q),
    ensures
        q@.len() == workers,
        total(q@) == count,
        forall|i: int, j: int|
            0 <= i <= j < workers ==> #[trigger] q@[j] <= #[trigger] q@[i] <= q@[j] + 1,
{
    assert(q@.skip(0) =~= q@);
    total_is_shares(q@, count as int, 0);
    crate::scan::shares_add_up(count as int, workers as int);
}

proof fn total_is_shares(q: Seq<u64>, count: int, w: int)
    requires
        0 <= w <= q.len(),
        forall|i: int| 0 <= i < q.len() ==> q[i] == mine::share(count, q.len() as int, i),
    ensures
        total(q.skip(w)) == crate::scan::shares_from(count, q.len() as int, w),
    decreases q.len() - w,
{
    if w < q.len() {
        total_is_shares(q, count, w + 1);
        assert(q.skip(w).skip(1) =~= q.skip(w + 1));
        assert(q.skip(w)[0] == q[w]);
    }
}

/// A run is planned exactly if it has a worker. There are quotas exactly if there is a
/// count, and they are those of the count.
pub proof fn plans_have_workers(opts: &MineOpts, r: Result<Plan, String>)
    requires
        call_ensures(mine::plan, (opts,), r),
    ensures
        r is Ok <==> opts.workers != 0,
        r matches Err(e) ==> e@ == "--workers must be at least 1"@,
        r matches Ok(p) ==> (p.quotas is Some <==> opts.count is Some),
        r matches Ok(p) ==> (p.quotas matches Some(q) ==> q@.len() == opts.workers && total(q@)
            == opts.count->0 && forall|i: int, j: int|
            0 <= i <= j < opts.workers ==> #[trigger] q@[j] <= #[trigger] q@[i] <= q@[j] + 1),
{
    if let Ok(p) = r {
        if let Some(q) = p.quotas {
            assert(q@.skip(0) =~= q@);
            total_is_shares(q@, opts.count->0 as int, 0);
            crate::scan::shares_add_up(opts.count->0 as int, opts.workers as int);
        }
    }
}

/// A planned run finds what a matcher of its words, positions and inner minimum finds.
pub proof fn plans_find_the_words(
    opts: &MineOpts,
    p: Plan,
    list: &[String],
    m: &Matcher,
    tail: &[u8; 18],
    here: Option<(Pos, &str)>,
    there: Option<(Pos, &str)>,
)
    requires
        call_ensures(mine::plan, (opts,), Ok(p)),
        list@ == opts.words@,
        call_ensures(Matcher::new, (list, opts.positions, opts.inner_min), *m),
        call_ensures(Matcher::find, (&p.matcher, tail), here),
        call_ensures(Matcher::find, (m, tail), there),
    ensures
        here is Some <==> there is Some,
        here matches Some(a) ==> (there matches Some(b) ==> a.0 == b.0 && a.1@ == b.1@),
{
    assert(words::texts(list@) == words::texts(opts.words@));
}

} // verus!
