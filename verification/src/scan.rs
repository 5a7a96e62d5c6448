//! One worker's walk through its salts, and how the walks of all workers cover
//! the range that was asked for.

use crate::mine;
use crate::mine::{Matcher, RawHit};
use vstd::prelude::*;

verus! {

/// How many salts a worker scans between two looks at the stop flag (~10 ms of
/// work): a look at every salt would cost more than prompt Ctrl-C response is
/// worth.
pub const SALTS_PER_LOOK: u64 = 65_536;

/// What a worker has come to.
pub enum Step {
    /// A hit, which is to be sent.
    Hit(RawHit),
    /// As many salts are to be added to the total, and the stop flag looked at.
    Look(u64),
    /// The worker is through; as many salts are to be added to the total.
    Done(u64),
}

/// A worker: every `stride`-th salt from its first one on.
pub struct Worker {
    deployer: [u8; 20],
    /// The salt to scan next, unless the salts are used up.
    salt: Option<u128>,
    stride: u128,
    /// How many salts the quota still allows, if there is one.
    left: Option<u64>,
    /// How many salts were counted and not yet added to the total.
    since: u64,
    /// Whether `salt` is a hit that was handed out, and is not counted yet.
    handed_out: bool,
    /// The first salt, the quota, and how many salts were counted.
    first: Ghost<int>,
    quota: Ghost<Option<u64>>,
    counted: Ghost<int>,
}

impl Worker {
    /// The account that the worker mines for.
    pub closed spec fn deployer(&self) -> Seq<u8> {
        self.deployer@
    }

    /// The first salt; it may lie beyond the 128 bits of a salt.
    pub closed spec fn first(&self) -> int {
        self.first@
    }

    /// The distance from one salt to the next.
    pub closed spec fn stride(&self) -> int {
        self.stride as int
    }

    /// How many salts to scan at most.
    pub closed spec fn quota(&self) -> Option<u64> {
        self.quota@
    }

    /// How many salts were scanned and counted.
    pub closed spec fn counted(&self) -> int {
        self.counted@
    }

    /// How many of the counted salts are not yet added to the total.
    pub closed spec fn unreported(&self) -> int {
        self.since as int
    }

    /// Whether the salt behind the counted ones was handed out as a hit.
    pub closed spec fn awaits(&self) -> bool {
        self.handed_out
    }

    /// Salt number `k` of the walk.
    pub open spec fn salt_at(&self, k: int) -> int {
        self.first() + k * self.stride()
    }

    /// Whether there is a salt number `k`: the quota allows it, and it fits 128 bits.
    pub open spec fn reaches(&self, k: int) -> bool {
        &&& self.salt_at(k) <= u128::MAX
        &&& match self.quota() {
            Some(q) => k < q,
            None => true,
        }
    }

    /// Another state of the same walk.
    pub open spec fn same_walk(&self, other: &Worker) -> bool {
        &&& self.deployer() == other.deployer()
        &&& self.first() == other.first()
        &&& self.stride() == other.stride()
        &&& self.quota() == other.quota()
    }

    #[verifier::type_invariant]
    spec fn wf(&self) -> bool {
        let next = self.first@ + self.counted@ * self.stride;
        &&& self.stride >= 1
        &&& self.first@ >= 0
        &&& self.counted@ >= 0
        &&& self.since < SALTS_PER_LOOK
        &&& match self.salt {
            Some(s) => s == next,
            None => next > u128::MAX,
        }
        &&& match (self.left, self.quota@) {
            (Some(l), Some(q)) => l == q - self.counted@,
            (None, None) => true,
            _ => false,
        }
        &&& self.handed_out ==> self.salt is Some && self.left != Some(0u64)
    }

    /// Worker `wid` of `stride` workers, from `start` on.
    pub fn new(
        deployer: [u8; 20],
        start: u128,
        wid: u128,
        stride: u128,
        quota: Option<u64>,
    ) -> (w: Worker)
        requires
            stride >= 1,
        ensures
            w.deployer() == deployer@,
            w.first() == start + wid,
            w.stride() == stride,
            w.quota() == quota,
            w.counted() == 0,
            w.unreported() == 0,
            !w.awaits(),
    {
        assert(0 * stride as int == 0) by (nonlinear_arith);
        Worker {
            deployer,
            salt: start.checked_add(wid),
            stride,
            left: quota,
            since: 0,
            handed_out: false,
            first: Ghost(start + wid),
            quota: Ghost(quota),
            counted: Ghost(0),
        }
    }

    /// Counts the salt that was scanned, and goes on to the next.
    fn count(self) -> (r: (Worker, Option<u64>))
        requires
            self.reaches(self.counted()),
        ensures
            r.0.same_walk(&self),
            r.0.counted() == self.counted() + 1,
            !r.0.awaits(),
            r.0.unreported() < SALTS_PER_LOOK,
            match r.1 {
                Some(n) => n == SALTS_PER_LOOK && n == self.unreported() + 1 && r.0.unreported()
                    == 0,
                None => r.0.unreported() == self.unreported() + 1,
            },
    {
        proof {
            use_type_invariant(&self);
        }
        let next: Option<u128> = match self.salt {
            Some(s) => s.checked_add(self.stride),
            None => None,
        };
        let left: Option<u64> = match self.left {
            Some(l) => Some(l - 1),
            None => None,
        };
        let due: bool = self.since + 1 == SALTS_PER_LOOK;
        proof {
            assert((self.counted@ + 1) * self.stride == self.counted@ * self.stride + self.stride)
                by (nonlinear_arith);
        }
        let w = Worker {
            deployer: self.deployer,
            salt: next,
            stride: self.stride,
            left,
            since: if due { 0 } else { self.since + 1 },
            handed_out: false,
            first: self.first,
            quota: self.quota,
            counted: Ghost(self.counted@ + 1),
        };
        if due {
            (w, Some(SALTS_PER_LOOK))
        } else {
            (w, None)
        }
    }

    /// Scans on, up to the next hit, the next look at the stop flag, or the end.
    /// A hit that was handed out before counts as sent.
    pub fn advance(self, matcher: &Matcher) -> (r: (Worker, Step))
        ensures
            advances(self, r.0, r.1, matcher.search()),
    {
        let mut w: Worker = self;
        proof {
            use_type_invariant(&w);
        }
        if w.handed_out {
            let counted: (Worker, Option<u64>) = w.count();
            w = counted.0;
            if let Some(n) = counted.1 {
                return (w, Step::Look(n));
            }
        }
        let ghost k0 = w.counted();
        loop
            invariant
                w.same_walk(&self),
                !w.awaits(),
                k0 == self.counted() + if self.awaits() { 1int } else { 0int },
                k0 <= w.counted(),
                w.unreported() == self.unreported() + w.counted() - self.counted(),
                w.unreported() < SALTS_PER_LOOK,
                forall|k: int|
                    k0 <= k < w.counted() ==> self.reaches(k) && mine::hit_of(
                        matcher.search(),
                        self.deployer(),
                        #[trigger] self.salt_at(k) as u128,
                    ) is None,
            decreases SALTS_PER_LOOK - w.unreported(),
        {
            proof {
                use_type_invariant(&w);
            }
            let salt: u128 = match (w.salt, w.left) {
                (None, _) => {
                    return w.finish();
                },
                (Some(_), Some(0)) => {
                    return w.finish();
                },
                (Some(s), _) => s,
            };
            assert(w.reaches(w.counted()));
            assert(self.salt_at(w.counted()) == salt);
            match mine::try_salt(matcher, &w.deployer, salt) {
                Some(hit) => {
                    w = w.hand_out();
                    return (w, Step::Hit(hit));
                },
                None => {},
            }
            let counted: (Worker, Option<u64>) = w.count();
            w = counted.0;
            if let Some(n) = counted.1 {
                return (w, Step::Look(n));
            }
        }
    }

    /// Marks the salt at hand as handed out.
    fn hand_out(self) -> (w: Worker)
        requires
            self.reaches(self.counted()),
        ensures
            w.same_walk(&self),
            w.counted() == self.counted(),
            w.unreported() == self.unreported(),
            w.awaits(),
    {
        proof {
            use_type_invariant(&self);
        }
        Worker { handed_out: true, ..self }
    }

    /// Ends the walk.
    fn finish(self) -> (r: (Worker, Step))
        requires
            !self.awaits(),
        ensures
            r.0.same_walk(&self),
            r.0.counted() == self.counted(),
            r.0.unreported() == 0,
            !r.0.awaits(),
            r.1 == Step::Done(self.unreported() as u64),
    {
        proof {
            use_type_invariant(&self);
        }
        let n: u64 = self.since;
        (Worker { since: 0, ..self }, Step::Done(n))
    }

    /// How many salts are to be added to the total when the worker is given up,
    /// because a hit could not be sent or the stop flag was set. A hit that was
    /// not sent is not counted.
    pub fn give_up(self) -> (n: u64)
        ensures
            n == self.unreported(),
    {
        self.since
    }
}

/// What a step of a walk does: it passes salts that spell nothing, up to a hit,
/// a look at the stop flag, or the end.
pub open spec fn advances(from: Worker, to: Worker, step: Step, search: mine::Search) -> bool {
    let k0 = from.counted() + if from.awaits() {
        1int
    } else {
        0int
    };
    let k1 = to.counted();
    let fresh = from.unreported() + k1 - from.counted();
    &&& to.same_walk(&from)
    &&& k0 <= k1
    &&& forall|k: int|
        k0 <= k < k1 ==> from.reaches(k) && mine::hit_of(
            search,
            from.deployer(),
            #[trigger] from.salt_at(k) as u128,
        ) is None
    &&& match step {
        Step::Hit(h) => {
            &&& to.awaits()
            &&& from.reaches(k1)
            &&& h.salt == from.salt_at(k1)
            &&& h.is_hit_of(search, from.deployer())
            &&& fresh < SALTS_PER_LOOK
            &&& to.unreported() == fresh
        },
        Step::Look(n) => {
            &&& !to.awaits()
            &&& n == fresh == SALTS_PER_LOOK
            &&& to.unreported() == 0
        },
        Step::Done(n) => {
            &&& !to.awaits()
            &&& !from.reaches(k1)
            &&& n == fresh < SALTS_PER_LOOK
            &&& to.unreported() == 0
        },
    }
}

/// A walk from its first salt on: the worker's states, and the steps between them.
pub open spec fn is_walk(states: Seq<Worker>, steps: Seq<Step>, search: mine::Search) -> bool {
    &&& states.len() == steps.len() + 1
    &&& states[0].stride() >= 1
    &&& states[0].counted() == 0
    &&& states[0].unreported() == 0
    &&& !states[0].awaits()
    &&& forall|i: int|
        0 <= i < steps.len() ==> advances(states[i], states[i + 1], #[trigger] steps[i], search)
}

/// The hits among some steps.
pub open spec fn sent(steps: Seq<Step>) -> Seq<RawHit>
    decreases steps.len(),
{
    if steps.len() == 0 {
        Seq::empty()
    } else {
        match steps.last() {
            Step::Hit(h) => sent(steps.drop_last()).push(h),
            _ => sent(steps.drop_last()),
        }
    }
}

/// How many salts some steps add to the total.
pub open spec fn reported(steps: Seq<Step>) -> int
    decreases steps.len(),
{
    if steps.len() == 0 {
        0
    } else {
        reported(steps.drop_last()) + match steps.last() {
            Step::Hit(_) => 0int,
            Step::Look(n) => n as int,
            Step::Done(n) => n as int,
        }
    }
}

/// Whether hits are those of salts among the first `m` of a walk.
pub open spec fn come_from(w: Worker, hits: Seq<RawHit>, m: int, search: mine::Search) -> bool {
    forall|i: int|
        0 <= i < hits.len() ==> (#[trigger] hits[i]).is_hit_of(search, w.deployer()) && exists|
            k: int,
        |
            0 <= k < m && hits[i].salt == #[trigger] w.salt_at(k)
}

/// Whether the salts of hits ascend, so that no salt comes twice.
pub open spec fn ascend(hits: Seq<RawHit>) -> bool {
    forall|i: int, j: int|
        0 <= i < j < hits.len() ==> (#[trigger] hits[i]).salt < (#[trigger] hits[j]).salt
}

/// Whether the first `m` salts of a walk are all there, and their hits too.
pub open spec fn are_all(w: Worker, hits: Seq<RawHit>, m: int, search: mine::Search) -> bool {
    forall|k: int|
        0 <= k < m ==> w.reaches(k) && (mine::hit_of(
            search,
            w.deployer(),
            #[trigger] w.salt_at(k) as u128,
        ) is Some ==> exists|i: int|
            0 <= i < hits.len() && (#[trigger] hits[i]).salt == w.salt_at(k))
}

/// Whether hits are those of the first `m` salts of a walk, each once and in order.
pub open spec fn are_walk_hits(w: Worker, hits: Seq<RawHit>, m: int, search: mine::Search) -> bool {
    &&& come_from(w, hits, m, search)
    &&& ascend(hits)
    &&& are_all(w, hits, m, search)
}

/// How many salts of a walk were passed or handed out.
pub open spec fn passed(w: Worker) -> int {
    w.counted() + if w.awaits() {
        1int
    } else {
        0int
    }
}

/// Whether the salts of hits lie below salt number `m` of a walk.
spec fn lie_below(w: Worker, hits: Seq<RawHit>, m: int) -> bool {
    forall|i: int| 0 <= i < hits.len() ==> (#[trigger] hits[i]).salt < w.salt_at(m)
}

/// Hits, and the hit of a step behind them.
spec fn with_step(hits: Seq<RawHit>, step: Step) -> Seq<RawHit> {
    match step {
        Step::Hit(h) => hits.push(h),
        _ => hits,
    }
}

/// Later salts of a walk are larger.
proof fn salts_grow(w: Worker, j: int, k: int)
    requires
        w.stride() >= 1,
        j < k,
    ensures
        w.salt_at(j) < w.salt_at(k),
        w.salt_at(j) + w.stride() <= w.salt_at(k),
{
    assert(j * w.stride() + w.stride() <= k * w.stride()) by (nonlinear_arith)
        requires
            w.stride() >= 1,
            j + 1 <= k,
    ;
}

/// One step more: the hits still come from the walk.
proof fn step_comes_from(
    w: Worker,
    from: Worker,
    to: Worker,
    step: Step,
    hits: Seq<RawHit>,
    search: mine::Search,
)
    requires
        from.same_walk(&w),
        from.counted() >= 0,
        advances(from, to, step, search),
        come_from(w, hits, passed(from), search),
    ensures
        come_from(w, with_step(hits, step), passed(to), search),
{
    let now = with_step(hits, step);
    assert forall|i: int| 0 <= i < now.len() implies (#[trigger] now[i]).is_hit_of(
        search,
        w.deployer(),
    ) && exists|k: int| 0 <= k < passed(to) && now[i].salt == #[trigger] w.salt_at(k) by {
        if i < hits.len() {
            assert(now[i] == hits[i]);
            let k = choose|k: int|
                0 <= k < passed(from) && hits[i].salt == #[trigger] w.salt_at(k);
            assert(now[i].salt == w.salt_at(k));
        } else {
            assert(now[i].salt == w.salt_at(to.counted()));
        }
    }
}

/// One step more: the hits still ascend.
proof fn step_ascends(
    w: Worker,
    from: Worker,
    to: Worker,
    step: Step,
    hits: Seq<RawHit>,
    search: mine::Search,
)
    requires
        w.stride() >= 1,
        from.same_walk(&w),
        advances(from, to, step, search),
        ascend(hits),
        lie_below(w, hits, passed(from)),
    ensures
        ascend(with_step(hits, step)),
        lie_below(w, with_step(hits, step), passed(to)),
{
    let now = with_step(hits, step);
    let k1 = to.counted();
    if passed(from) < k1 {
        salts_grow(w, passed(from), k1);
    }
    if k1 < passed(to) {
        salts_grow(w, k1, passed(to));
    }
    assert forall|i: int| 0 <= i < now.len() implies (#[trigger] now[i]).salt < w.salt_at(
        passed(to),
    ) by {
        if i < hits.len() {
            assert(now[i] == hits[i]);
        } else {
            assert(now[i].salt == w.salt_at(k1));
        }
    }
    assert forall|i: int, j: int| 0 <= i < j < now.len() implies (#[trigger] now[i]).salt < (
    #[trigger] now[j]).salt by {
        assert(now[i] == hits[i]);
        if j < hits.len() {
            assert(now[j] == hits[j]);
        } else {
            assert(now[j].salt == w.salt_at(k1));
        }
    }
}

/// One step more: the hits are still all.
proof fn step_keeps_all(
    w: Worker,
    from: Worker,
    to: Worker,
    step: Step,
    hits: Seq<RawHit>,
    search: mine::Search,
)
    requires
        from.same_walk(&w),
        from.counted() >= 0,
        advances(from, to, step, search),
        are_all(w, hits, passed(from), search),
    ensures
        are_all(w, with_step(hits, step), passed(to), search),
{
    let now = with_step(hits, step);
    assert forall|k: int| 0 <= k < passed(to) implies w.reaches(k) && (mine::hit_of(
        search,
        w.deployer(),
        #[trigger] w.salt_at(k) as u128,
    ) is Some ==> exists|i: int|
        0 <= i < now.len() && (#[trigger] now[i]).salt == w.salt_at(k)) by {
        assert(from.salt_at(k) == w.salt_at(k));
        assert(from.reaches(k) == w.reaches(k));
        if k < passed(from) {
            if mine::hit_of(search, w.deployer(), w.salt_at(k) as u128) is Some {
                let i = choose|i: int|
                    0 <= i < hits.len() && (#[trigger] hits[i]).salt == w.salt_at(k);
                assert(now[i].salt == w.salt_at(k));
            }
        } else if k == to.counted() {
            assert(now[hits.len() as int].salt == w.salt_at(k));
        }
    }
}

/// What holds after each step of a walk.
proof fn walk_so_far(states: Seq<Worker>, steps: Seq<Step>, search: mine::Search, n: int)
    requires
        is_walk(states, steps, search),
        0 <= n <= steps.len(),
    ensures
        states[n].same_walk(&states[0]),
        states[n].counted() >= 0,
        reported(steps.take(n)) + states[n].unreported() == states[n].counted(),
        come_from(states[0], sent(steps.take(n)), passed(states[n]), search),
        ascend(sent(steps.take(n))),
        lie_below(states[0], sent(steps.take(n)), passed(states[n])),
        are_all(states[0], sent(steps.take(n)), passed(states[n]), search),
    decreases n,
{
    if n > 0 {
        walk_so_far(states, steps, search, n - 1);
        assert(advances(states[n - 1], states[n - 1 + 1], steps[n - 1], search));
        assert(steps.take(n).drop_last() =~= steps.take(n - 1));
        let (w, from, to, step) = (states[0], states[n - 1], states[n], steps[n - 1]);
        let hits = sent(steps.take(n - 1));
        step_comes_from(w, from, to, step, hits, search);
        step_ascends(w, from, to, step, hits, search);
        step_keeps_all(w, from, to, step, hits, search);
        assert(sent(steps.take(n)) == with_step(hits, step));
    } else {
        assert(steps.take(0) =~= Seq::<Step>::empty());
    }
}

/// A walk has sent, at any time, the hits of the salts that it passed so far, each
/// once and in order, and no others; and all salts that it counted are reported, or
/// still to be reported. Where it was stopped at a look, none is still to be
/// reported, so as many salts were reported as it passed.
pub proof fn a_walk_sent_its_hits(states: Seq<Worker>, steps: Seq<Step>, search: mine::Search)
    requires
        is_walk(states, steps, search),
    ensures
        states.last().same_walk(&states[0]),
        are_walk_hits(states[0], sent(steps), passed(states.last()), search),
        reported(steps) + states.last().unreported() == states.last().counted(),
        steps.len() > 0 && steps.last() is Look ==> reported(steps) == passed(states.last()),
{
    let n = steps.len() as int;
    walk_so_far(states, steps, search, n);
    assert(steps.take(n) =~= steps);
    if n > 0 {
        assert(advances(states[n - 1], states[n - 1 + 1], steps[n - 1], search));
    }
}

/// A walk that has come to its end has sent the hits of its salts, each once and
/// in order, and no others; and it has reported as many salts as there are.
pub proof fn a_finished_walk_sent_its_hits(
    states: Seq<Worker>,
    steps: Seq<Step>,
    search: mine::Search,
)
    requires
        is_walk(states, steps, search),
        steps.len() > 0,
        steps.last() is Done,
    ensures
        reported(steps) >= 0,
        forall|k: int| k >= 0 ==> (#[trigger] states[0].reaches(k) <==> k < reported(steps)),
        are_walk_hits(states[0], sent(steps), reported(steps), search),
{
    let n = steps.len() as int;
    walk_so_far(states, steps, search, n);
    walk_so_far(states, steps, search, n - 1);
    assert(steps.take(n) =~= steps);
    assert(advances(states[n - 1], states[n - 1 + 1], steps[n - 1], search));
    let w = states[0];
    let c = states[n].counted();
    assert(reported(steps) == c);
    assert(!w.reaches(c)) by {
        assert(states[n - 1].salt_at(c) == w.salt_at(c));
    }
    assert forall|k: int| k >= 0 implies (#[trigger] w.reaches(k) <==> k < reported(steps)) by {
        if k < c {
            assert(w.salt_at(k) == w.salt_at(k));
        } else if k > c {
            salts_grow(w, c, k);
        }
    }
}

/// The shares of all workers from `w` on.
pub open spec fn shares_from(count: int, workers: int, w: int) -> int
    decreases workers - w,
{
    if w >= workers {
        0
    } else {
        mine::share(count, workers, w) + shares_from(count, workers, w + 1)
    }
}

/// The shares of all workers add up to the count that was asked for.
pub proof fn shares_add_up(count: int, workers: int)
    requires
        count >= 0,
        workers >= 1,
    ensures
        shares_from(count, workers, 0) == count,
{
    shares_so_far(count, workers, 0);
    vstd::arithmetic::div_mod::lemma_fundamental_div_mod(count, workers);
    vstd::arithmetic::div_mod::lemma_mod_bound(count, workers);
    assert((count / workers) * workers == workers * (count / workers)) by (nonlinear_arith);
}

proof fn shares_so_far(count: int, workers: int, w: int)
    requires
        count >= 0,
        workers >= 1,
        0 <= w <= workers,
    ensures
        shares_from(count, workers, w) == (count / workers) * (workers - w) + if w < count % workers {
            count % workers - w
        } else {
            0
        },
    decreases workers - w,
{
    vstd::arithmetic::div_mod::lemma_mod_bound(count, workers);
    let base = count / workers;
    if w < workers {
        shares_so_far(count, workers, w + 1);
        assert(base * (workers - w) == base + base * (workers - (w + 1))) by (nonlinear_arith);
    } else {
        assert(base * (workers - w) == 0) by (nonlinear_arith)
            requires
                workers == w,
        ;
    }
}

/// Each offset of the range falls to one worker, as one of its salts: offset
/// `o` is salt number `o / workers` of worker `o % workers`, and it is within
/// that worker's share exactly if it is within the count. So every salt of the
/// range is scanned once, and none beyond it.
pub proof fn every_salt_once(count: int, workers: int, o: int)
    requires
        count >= 0,
        workers >= 1,
        o >= 0,
    ensures
        0 <= o % workers < workers,
        o / workers >= 0,
        o == o % workers + (o / workers) * workers,
        o / workers < mine::share(count, workers, o % workers) <==> o < count,
{
    vstd::arithmetic::div_mod::lemma_fundamental_div_mod(o, workers);
    vstd::arithmetic::div_mod::lemma_fundamental_div_mod(count, workers);
    vstd::arithmetic::div_mod::lemma_mod_bound(o, workers);
    vstd::arithmetic::div_mod::lemma_mod_bound(count, workers);
    vstd::arithmetic::div_mod::lemma_div_pos_is_pos(o, workers);
    let (q, r) = (o / workers, o % workers);
    let (base, extra) = (count / workers, count % workers);
    assert(q * workers == workers * q) by (nonlinear_arith);
    if q < base {
        assert(workers * q + workers <= workers * base) by (nonlinear_arith)
            requires
                q + 1 <= base,
                workers >= 1,
        ;
    } else if q > base {
        assert(workers * base + workers <= workers * q) by (nonlinear_arith)
            requires
                base + 1 <= q,
                workers >= 1,
        ;
    }
}

/// No two workers, and no two steps of one worker, scan the same salt.
pub proof fn no_salt_twice(workers: int, w1: int, k1: int, w2: int, k2: int)
    requires
        0 <= w1 < workers,
        0 <= w2 < workers,
        w1 + k1 * workers == w2 + k2 * workers,
    ensures
        w1 == w2,
        k1 == k2,
{
    vstd::arithmetic::div_mod::lemma_fundamental_div_mod_converse(
        w1 + k1 * workers,
        workers,
        k1,
        w1,
    );
    vstd::arithmetic::div_mod::lemma_fundamental_div_mod_converse(
        w1 + k1 * workers,
        workers,
        k2,
        w2,
    );
}

} // verus!
