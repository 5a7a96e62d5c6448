//! What whole runs find: the batches of a device run, the walks of a CPU run, and
//! that both find the same.

use crate::entries;
use crate::gpu;
use crate::gpu::{Batch, Planner};
use crate::kernel;
use crate::mine;
use crate::mine::RawHit;
use crate::scan;
use crate::scan::Worker;
use vstd::prelude::*;

verus! {

/// How many salts there are to scan: as many as are asked for, but none beyond the
/// last of 128 bits.
pub open spec fn extent(start: u128, count: Option<u64>) -> int {
    let room = u128::MAX - start + 1;
    match count {
        Some(c) => if c < room {
            c as int
        } else {
            room
        },
        None => room,
    }
}

/// Worker `wid` of those that a run is planned with.
pub open spec fn is_worker_of(
    w: Worker,
    deployer: Seq<u8>,
    start: u128,
    count: Option<u64>,
    workers: int,
    wid: int,
) -> bool {
    &&& w.deployer() == deployer
    &&& w.first() == start + wid
    &&& w.stride() == workers
    &&& match (count, w.quota()) {
        (Some(c), Some(q)) => q == mine::share(c as int, workers, wid),
        (None, None) => true,
        _ => false,
    }
}

/// A planned worker reaches the offsets of the range that fall to it.
proof fn worker_reaches(
    w: Worker,
    deployer: Seq<u8>,
    start: u128,
    count: Option<u64>,
    workers: int,
    wid: int,
    k: int,
)
    requires
        is_worker_of(w, deployer, start, count, workers, wid),
        0 <= wid < workers,
        k >= 0,
    ensures
        w.salt_at(k) == start + wid + k * workers,
        wid + k * workers >= 0,
        (wid + k * workers) % workers == wid,
        (wid + k * workers) / workers == k,
        w.reaches(k) <==> wid + k * workers < extent(start, count),
{
    let o = wid + k * workers;
    assert(k * workers >= 0) by (nonlinear_arith)
        requires
            k >= 0,
            workers >= 0,
    ;
    vstd::arithmetic::div_mod::lemma_fundamental_div_mod_converse(o, workers, k, wid);
    if let Some(c) = count {
        scan::every_salt_once(c as int, workers, o);
    }
}

/// A finished plan of batches has scanned all there is to scan.
pub proof fn a_finished_plan_scanned_the_extent(planner: Planner, start: u128, count: u64)
    requires
        planner.start() == start,
        planner.count() == Some(count),
        planner.in_range(),
        !planner.goes_on(),
    ensures
        planner.scanned() == extent(start, Some(count)),
{
}

/// For a given count of salts, the workers of a CPU run and the batches of a
/// finished device run scan the same range: offset `o` is among the scanned ones
/// exactly if the worker that it falls to reaches it, as the same salt.
pub proof fn backends_scan_the_same(
    workers: Seq<Worker>,
    planner: Planner,
    deployer: Seq<u8>,
    start: u128,
    count: u64,
    o: int,
)
    requires
        workers.len() >= 1,
        forall|w: int|
            0 <= w < workers.len() ==> is_worker_of(
                #[trigger] workers[w],
                deployer,
                start,
                Some(count),
                workers.len() as int,
                w,
            ),
        planner.start() == start,
        planner.count() == Some(count),
        planner.in_range(),
        !planner.goes_on(),
        o >= 0,
    ensures
        ({
            let n = workers.len() as int;
            &&& 0 <= o % n < n
            &&& workers[o % n].salt_at(o / n) == start + o
            &&& o < planner.scanned() <==> workers[o % n].reaches(o / n)
        }),
{
    let n = workers.len() as int;
    scan::every_salt_once(count as int, n, o);
    a_finished_plan_scanned_the_extent(planner, start, count);
    worker_reaches(workers[o % n], deployer, start, Some(count), n, o % n, o / n);
}

/// Whether a device reports of a batch what it should: of each salt the first
/// entry that its window meets, once, in any order.
pub open spec fn is_faithful(
    records: Seq<(u32, u32, u32)>,
    es: Seq<entries::Entry>,
    deployer: Seq<u8>,
    b: Batch,
) -> bool {
    &&& forall|i: int|
        0 <= i < records.len() ==> {
            let r = #[trigger] records[i];
            let met = entries::first_met(
                es,
                kernel::tail_window(deployer, (b.first + r.0) as u128),
            );
            r.0 < b.len && met is Some && met->0.word == r.1 && met->0.pos == r.2
        }
    &&& forall|i: int, j: int|
        0 <= i < j < records.len() ==> (#[trigger] records[i]).0 != (#[trigger] records[j]).0
    &&& forall|salt: u128|
        b.first <= salt < b.first + b.len && entries::first_met(
            es,
            #[trigger] kernel::tail_window(deployer, salt),
        ) is Some ==> exists|i: int|
            0 <= i < records.len() && b.first + (#[trigger] records[i]).0 == salt
}

/// Whether some hits are those of `len` salts from `first` on, each once.
pub open spec fn are_the_hits(
    hits: Seq<RawHit>,
    search: mine::Search,
    deployer: Seq<u8>,
    first: int,
    len: int,
) -> bool {
    &&& forall|i: int|
        0 <= i < hits.len() ==> (#[trigger] hits[i]).is_hit_of(search, deployer) && first
            <= hits[i].salt < first + len
    &&& forall|i: int, j: int|
        0 <= i < j < hits.len() ==> (#[trigger] hits[i]).salt != (#[trigger] hits[j]).salt
    &&& forall|salt: u128|
        first <= salt < first + len && #[trigger] mine::hit_of(search, deployer, salt) is Some
            ==> exists|i: int| 0 <= i < hits.len() && (#[trigger] hits[i]).salt == salt
}

/// The records of a device that works as it should all hold, so `settle` accepts
/// the batch; and its hits are those of the batch's salts.
pub proof fn faithful_records_hold(
    search: mine::Search,
    es: Seq<entries::Entry>,
    deployer: Seq<u8>,
    b: Batch,
    records: Seq<(u32, u32, u32)>,
    hits: Seq<RawHit>,
)
    requires
        deployer.len() == 20,
        b.valid(),
        forall|window: u128| #[trigger]
            entries::names(
                entries::first_met(es, window),
                search.words,
                mine::hit_in(search, entries::shown(window)),
            ),
        is_faithful(records, es, deployer, b),
        gpu::hits_of_records(hits, search, deployer, b, records),
    ensures
        hits.len() == records.len(),
        are_the_hits(hits, search, deployer, b.first as int, b.len as int),
{
    assert forall|i: int| 0 <= i < records.len() implies gpu::record_holds(
        search,
        deployer,
        b,
        #[trigger] records[i],
    ) by {
        gpu::devices_find_the_same(search, es, deployer, (b.first + records[i].0) as u128);
    }
    assert forall|i: int, j: int| 0 <= i < j < hits.len() implies (#[trigger] hits[i]).salt != (
    #[trigger] hits[j]).salt by {
        assert(records[i].0 != records[j].0);
    }
    assert forall|salt: u128|
        b.first <= salt < b.first + b.len && #[trigger] mine::hit_of(
            search,
            deployer,
            salt,
        ) is Some implies exists|i: int|
        0 <= i < hits.len() && (#[trigger] hits[i]).salt == salt by {
        gpu::devices_find_the_same(search, es, deployer, salt);
        assert(entries::first_met(es, kernel::tail_window(deployer, salt)) is Some);
        let i = choose|i: int|
            0 <= i < records.len() && b.first + (#[trigger] records[i]).0 == salt;
        assert(hits[i].salt == salt);
    }
}

/// How many of `len` salts from `first` on spell something.
pub open spec fn hit_count(search: mine::Search, deployer: Seq<u8>, first: int, len: nat) -> nat
    decreases len,
{
    if len == 0 {
        0
    } else {
        hit_count(search, deployer, first, (len - 1) as nat) + if mine::hit_of(
            search,
            deployer,
            (first + len - 1) as u128,
        ) is Some {
            1nat
        } else {
            0nat
        }
    }
}

/// Whether the window of a salt meets an entry.
pub open spec fn is_met(es: Seq<entries::Entry>, deployer: Seq<u8>, salt: int) -> bool {
    entries::first_met(es, kernel::tail_window(deployer, salt as u128)) is Some
}

/// How many of `len` salts from `first` on have a window that meets an entry: what
/// the counter of a device comes to that counts each such salt once, whether or not
/// there is room for its record.
pub open spec fn met_count(es: Seq<entries::Entry>, deployer: Seq<u8>, first: int, len: nat) -> nat
    decreases len,
{
    if len == 0 {
        0
    } else {
        met_count(es, deployer, first, (len - 1) as nat) + if is_met(
            es,
            deployer,
            first + len - 1,
        ) {
            1nat
        } else {
            0nat
        }
    }
}

/// The offsets of the salts whose window meets an entry.
spec fn met_offsets(es: Seq<entries::Entry>, deployer: Seq<u8>, first: int, len: nat) -> Set<int> {
    Set::new(|o: int| 0 <= o < len && is_met(es, deployer, first + o))
}

proof fn offsets_are_counted(es: Seq<entries::Entry>, deployer: Seq<u8>, first: int, len: nat)
    ensures
        met_offsets(es, deployer, first, len).finite(),
        met_offsets(es, deployer, first, len).len() == met_count(es, deployer, first, len),
    decreases len,
{
    let now = met_offsets(es, deployer, first, len);
    if len == 0 {
        assert(now =~= Set::<int>::empty());
    } else {
        let m = (len - 1) as nat;
        let before = met_offsets(es, deployer, first, m);
        offsets_are_counted(es, deployer, first, m);
        if is_met(es, deployer, first + m) {
            assert(now =~= before.insert(m as int));
        } else {
            assert(now =~= before);
        }
    }
}

/// A device that counts the salts whose window meets an entry counts the hits.
pub proof fn devices_count_the_hits(
    search: mine::Search,
    es: Seq<entries::Entry>,
    deployer: Seq<u8>,
    first: int,
    len: nat,
)
    requires
        deployer.len() == 20,
        0 <= first,
        first + len <= u128::MAX + 1,
        forall|window: u128| #[trigger]
            entries::names(
                entries::first_met(es, window),
                search.words,
                mine::hit_in(search, entries::shown(window)),
            ),
    ensures
        met_count(es, deployer, first, len) == hit_count(search, deployer, first, len),
        hit_count(search, deployer, first, len) <= len,
    decreases len,
{
    if len > 0 {
        devices_count_the_hits(search, es, deployer, first, (len - 1) as nat);
        gpu::devices_find_the_same(search, es, deployer, (first + len - 1) as u128);
    }
}

/// A device that reports of a batch what it should has as many records as there are
/// hits in the batch.
pub proof fn faithful_records_are_as_many(
    search: mine::Search,
    es: Seq<entries::Entry>,
    deployer: Seq<u8>,
    b: Batch,
    records: Seq<(u32, u32, u32)>,
)
    requires
        deployer.len() == 20,
        b.valid(),
        forall|window: u128| #[trigger]
            entries::names(
                entries::first_met(es, window),
                search.words,
                mine::hit_in(search, entries::shown(window)),
            ),
        is_faithful(records, es, deployer, b),
    ensures
        records.len() == met_count(es, deployer, b.first as int, b.len as nat),
        records.len() == hit_count(search, deployer, b.first as int, b.len as nat),
{
    let first = b.first as int;
    let offsets = Seq::new(records.len(), |i: int| records[i].0 as int);
    let met = met_offsets(es, deployer, first, b.len as nat);
    assert(offsets.no_duplicates()) by {
        assert forall|i: int, j: int|
            0 <= i < offsets.len() && 0 <= j < offsets.len() && i != j implies offsets[i]
            != offsets[j] by {
            if i < j {
                assert(records[i].0 != records[j].0);
            } else {
                assert(records[j].0 != records[i].0);
            }
        }
    }
    assert forall|o: int| #[trigger] offsets.to_set().contains(o) <==> met.contains(o) by {
        if offsets.to_set().contains(o) {
            let i = offsets.index_of(o);
            assert(records[i].0 == o);
        }
        if met.contains(o) {
            let salt = (first + o) as u128;
            assert(entries::first_met(es, kernel::tail_window(deployer, salt)) is Some);
            let i = choose|i: int|
                0 <= i < records.len() && b.first + (#[trigger] records[i]).0 == salt;
            assert(offsets[i] == o);
        }
    }
    assert(offsets.to_set() =~= met);
    offsets.unique_seq_to_set();
    offsets_are_counted(es, deployer, first, b.len as nat);
    devices_count_the_hits(search, es, deployer, first, b.len as nat);
}

/// There is at most one hit per salt: the count of a batch no longer than the
/// capacity never exceeds it, so `words_to_read` finds no overrun. A batch of one
/// salt is always clean, and shrinking a batch comes to an end there at the latest.
pub proof fn short_batches_never_overrun(
    search: mine::Search,
    es: Seq<entries::Entry>,
    deployer: Seq<u8>,
    b: Batch,
    count: u32,
    capacity: u32,
)
    requires
        deployer.len() == 20,
        b.valid(),
        forall|window: u128| #[trigger]
            entries::names(
                entries::first_met(es, window),
                search.words,
                mine::hit_in(search, entries::shown(window)),
            ),
        count == met_count(es, deployer, b.first as int, b.len as nat),
    ensures
        count == hit_count(search, deployer, b.first as int, b.len as nat),
        b.len <= capacity ==> count <= capacity,
{
    devices_count_the_hits(search, es, deployer, b.first as int, b.len as nat);
}

/// The hits of a range, and those of the range behind it, are those of both.
pub proof fn hits_of_both(
    a: Seq<RawHit>,
    c: Seq<RawHit>,
    search: mine::Search,
    deployer: Seq<u8>,
    first: int,
    len: int,
    more: int,
)
    requires
        are_the_hits(a, search, deployer, first, len),
        are_the_hits(c, search, deployer, first + len, more),
        len >= 0,
        more >= 0,
    ensures
        are_the_hits(a + c, search, deployer, first, len + more),
{
    let all = a + c;
    assert forall|i: int| 0 <= i < all.len() implies (#[trigger] all[i]).is_hit_of(search, deployer)
        && first <= all[i].salt < first + len + more by {
        assert(all[i] == if i < a.len() {
            a[i]
        } else {
            c[i - a.len()]
        });
    }
    assert forall|i: int, j: int| 0 <= i < j < all.len() implies (#[trigger] all[i]).salt != (
    #[trigger] all[j]).salt by {
        if j < a.len() {
            assert(a[i].salt != a[j].salt);
        } else if i < a.len() {
            assert(a[i].salt < first + len);
            assert(c[j - a.len()].salt >= first + len);
        } else {
            assert(c[i - a.len()].salt != c[j - a.len()].salt);
        }
    }
    assert forall|salt: u128|
        first <= salt < first + len + more && #[trigger] mine::hit_of(
            search,
            deployer,
            salt,
        ) is Some implies exists|i: int| 0 <= i < all.len() && (#[trigger] all[i]).salt == salt by {
        if salt < first + len {
            let i = choose|i: int| 0 <= i < a.len() && (#[trigger] a[i]).salt == salt;
            assert(all[i].salt == salt);
        } else {
            let i = choose|i: int| 0 <= i < c.len() && (#[trigger] c[i]).salt == salt;
            assert(all[a.len() + i].salt == salt);
        }
    }
}

/// A run of a device: the states of the plan, the batches that were accepted one
/// after another, and the hits of each.
pub open spec fn is_device_run(
    plans: Seq<Planner>,
    batches: Seq<Batch>,
    hits: Seq<Seq<RawHit>>,
    search: mine::Search,
    deployer: Seq<u8>,
) -> bool {
    &&& plans.len() == batches.len() + 1
    &&& hits.len() == batches.len()
    &&& plans[0].scanned() == 0
    &&& plans[0].in_range()
    &&& forall|i: int|
        0 <= i < batches.len() ==> {
            let b = #[trigger] batches[i];
            &&& plans[i].is_due(b)
            &&& plans[i].is_followed_by(plans[i + 1], b)
            &&& are_the_hits(hits[i], search, deployer, b.first as int, b.len as int)
        }
}

/// The batches of a run follow one another without a gap or an overlap: the hits
/// of all of them are those of the scanned salts, each once. Batches that were
/// run again lose nothing and add nothing.
pub proof fn a_device_run_has_its_hits(
    plans: Seq<Planner>,
    batches: Seq<Batch>,
    hits: Seq<Seq<RawHit>>,
    search: mine::Search,
    deployer: Seq<u8>,
)
    requires
        is_device_run(plans, batches, hits, search, deployer),
    ensures
        plans.last().in_range(),
        plans.last().start() == plans[0].start(),
        plans.last().count() == plans[0].count(),
        are_the_hits(
            hits.flatten(),
            search,
            deployer,
            plans[0].start() as int,
            plans.last().scanned() as int,
        ),
    decreases batches.len(),
{
    if batches.len() == 0 {
        assert(hits.flatten() =~= Seq::<RawHit>::empty());
    } else {
        let n = batches.len() - 1;
        let (ps, bs, hs) = (plans.drop_last(), batches.drop_last(), hits.drop_last());
        assert forall|i: int| 0 <= i < bs.len() implies {
            let b = #[trigger] bs[i];
            &&& ps[i].is_due(b)
            &&& ps[i].is_followed_by(ps[i + 1], b)
            &&& are_the_hits(hs[i], search, deployer, b.first as int, b.len as int)
        } by {
            assert(batches[i] == bs[i]);
        }
        a_device_run_has_its_hits(ps, bs, hs, search, deployer);
        let b = batches[n];
        assert(plans[n].is_due(b));
        hits_of_both(
            hs.flatten(),
            hits[n],
            search,
            deployer,
            plans[0].start() as int,
            plans[n].scanned() as int,
            b.len as int,
        );
        hs.lemma_flatten_push(hits[n]);
        assert(hs.push(hits[n]) =~= hits);
    }
}

/// A run of workers: the states and the steps of each, from its first salt to the end.
pub open spec fn is_cpu_run(
    states: Seq<Seq<Worker>>,
    steps: Seq<Seq<scan::Step>>,
    search: mine::Search,
    deployer: Seq<u8>,
    start: u128,
    count: Option<u64>,
) -> bool {
    &&& states.len() >= 1
    &&& steps.len() == states.len()
    &&& forall|w: int|
        0 <= w < states.len() ==> {
            &&& scan::is_walk(#[trigger] states[w], steps[w], search)
            &&& steps[w].len() > 0
            &&& steps[w].last() is Done
            &&& is_worker_of(states[w][0], deployer, start, count, states.len() as int, w)
        }
}

/// The hits that each worker sent.
pub open spec fn hits_by_worker(steps: Seq<Seq<scan::Step>>) -> Seq<Seq<RawHit>> {
    Seq::new(steps.len(), |w: int| scan::sent(steps[w]))
}

/// The hits that all workers sent.
pub open spec fn run_hits(steps: Seq<Seq<scan::Step>>) -> Seq<RawHit> {
    hits_by_worker(steps).flatten()
}

/// How many salts the workers from `w` on reported.
pub open spec fn total_from(steps: Seq<Seq<scan::Step>>, w: int) -> int
    decreases steps.len() - w,
{
    if w >= steps.len() {
        0
    } else {
        scan::reported(steps[w]) + total_from(steps, w + 1)
    }
}

/// Whether a hit is among those of some lists.
spec fn is_in_some(hs: Seq<Seq<RawHit>>, h: RawHit) -> bool {
    exists|w: int, j: int| 0 <= w < hs.len() && 0 <= j < hs[w].len() && #[trigger] hs[w][j] == h
}

/// What lists hold, put one behind another, is what each of them holds.
proof fn flat_members(hs: Seq<Seq<RawHit>>)
    ensures
        forall|i: int|
            0 <= i < hs.flatten().len() ==> is_in_some(hs, #[trigger] hs.flatten()[i]),
        forall|w: int, j: int|
            0 <= w < hs.len() && 0 <= j < hs[w].len() ==> hs.flatten().contains(
                #[trigger] hs[w][j],
            ),
    decreases hs.len(),
{
    let flat = hs.flatten();
    if hs.len() > 0 {
        let (rest, last) = (hs.drop_last(), hs[hs.len() - 1]);
        flat_members(rest);
        rest.lemma_flatten_push(last);
        assert(rest.push(last) =~= hs);
        let front = rest.flatten();
        assert(flat =~= front + last);
        assert forall|i: int| 0 <= i < flat.len() implies is_in_some(hs, #[trigger] flat[i]) by {
            if i < front.len() {
                assert(flat[i] == front[i]);
                assert(is_in_some(rest, front[i]));
                let (w, j) = choose|w: int, j: int|
                    0 <= w < rest.len() && 0 <= j < rest[w].len() && #[trigger] rest[w][j]
                        == front[i];
                assert(hs[w][j] == flat[i]);
            } else {
                assert(hs[hs.len() - 1][i - front.len()] == flat[i]);
            }
        }
        assert forall|w: int, j: int| 0 <= w < hs.len() && 0 <= j < hs[w].len() implies flat.contains(
            #[trigger] hs[w][j],
        ) by {
            if w < rest.len() {
                assert(rest[w][j] == hs[w][j]);
                let i = front.index_of(rest[w][j]);
                assert(flat[i] == hs[w][j]);
            } else {
                assert(flat[front.len() + j] == hs[w][j]);
            }
        }
    } else {
        assert(flat =~= Seq::<RawHit>::empty());
    }
}

/// Whether no salt comes twice in some lists, neither in one nor in two of them.
spec fn are_apart(hs: Seq<Seq<RawHit>>) -> bool {
    forall|v: int, i: int, w: int, j: int|
        0 <= v < hs.len() && 0 <= i < hs[v].len() && 0 <= w < hs.len() && 0 <= j < hs[w].len() && (v
            != w || i != j) ==> (#[trigger] hs[v][i]).salt != (#[trigger] hs[w][j]).salt
}

/// Nor does one in the lists put one behind another.
proof fn flat_apart(hs: Seq<Seq<RawHit>>)
    requires
        are_apart(hs),
    ensures
        forall|i: int, j: int|
            0 <= i < j < hs.flatten().len() ==> (#[trigger] hs.flatten()[i]).salt != (
            #[trigger] hs.flatten()[j]).salt,
    decreases hs.len(),
{
    let flat = hs.flatten();
    if hs.len() > 0 {
        let (rest, last) = (hs.drop_last(), hs[hs.len() - 1]);
        assert forall|v: int, i: int, w: int, j: int|
            0 <= v < rest.len() && 0 <= i < rest[v].len() && 0 <= w < rest.len() && 0 <= j
                < rest[w].len() && (v != w || i != j) implies (#[trigger] rest[v][i]).salt != (
        #[trigger] rest[w][j]).salt by {
            assert(hs[v][i] == rest[v][i] && hs[w][j] == rest[w][j]);
        }
        flat_apart(rest);
        flat_members(rest);
        rest.lemma_flatten_push(last);
        assert(rest.push(last) =~= hs);
        let front = rest.flatten();
        assert(flat =~= front + last);
        assert forall|i: int, j: int| 0 <= i < j < flat.len() implies (#[trigger] flat[i]).salt != (
        #[trigger] flat[j]).salt by {
            let n = front.len() as int;
            let l = hs.len() - 1;
            if j < n {
                assert(front[i].salt != front[j].salt);
            } else {
                assert(flat[j] == hs[l][j - n]);
                if i < n {
                    assert(is_in_some(rest, front[i]));
                    let (v, k) = choose|v: int, k: int|
                        0 <= v < rest.len() && 0 <= k < rest[v].len() && #[trigger] rest[v][k]
                            == front[i];
                    assert(hs[v][k] == flat[i]);
                } else {
                    assert(flat[i] == hs[l][i - n]);
                }
            }
        }
    } else {
        assert(flat =~= Seq::<RawHit>::empty());
    }
}

/// A hit of one worker is that of an offset which falls to it.
proof fn worker_hit(
    states: Seq<Seq<Worker>>,
    steps: Seq<Seq<scan::Step>>,
    search: mine::Search,
    deployer: Seq<u8>,
    start: u128,
    count: Option<u64>,
    w: int,
    j: int,
) -> (o: int)
    requires
        is_cpu_run(states, steps, search, deployer, start, count),
        0 <= w < states.len(),
        0 <= j < scan::sent(steps[w]).len(),
    ensures
        0 <= o < extent(start, count),
        o % (states.len() as int) == w,
        scan::sent(steps[w])[j].salt == start + o,
        scan::sent(steps[w])[j].is_hit_of(search, deployer),
{
    let n = states.len() as int;
    let worker = states[w][0];
    scan::a_finished_walk_sent_its_hits(states[w], steps[w], search);
    let hit = scan::sent(steps[w])[j];
    assert(scan::come_from(worker, scan::sent(steps[w]), scan::reported(steps[w]), search));
    let k = choose|k: int|
        0 <= k < scan::reported(steps[w]) && hit.salt == #[trigger] worker.salt_at(k);
    assert(worker.reaches(k));
    worker_reaches(worker, deployer, start, count, n, w, k);
    w + k * n
}

/// The hit of an offset is sent by the worker that it falls to.
proof fn worker_sent(
    states: Seq<Seq<Worker>>,
    steps: Seq<Seq<scan::Step>>,
    search: mine::Search,
    deployer: Seq<u8>,
    start: u128,
    count: Option<u64>,
    o: int,
) -> (r: (int, int))
    requires
        is_cpu_run(states, steps, search, deployer, start, count),
        0 <= o < extent(start, count),
        mine::hit_of(search, deployer, (start + o) as u128) is Some,
    ensures
        0 <= r.0 < steps.len(),
        0 <= r.1 < scan::sent(steps[r.0]).len(),
        scan::sent(steps[r.0])[r.1].salt == start + o,
{
    let n = states.len() as int;
    scan::every_salt_once(0, n, o);
    let (w, k) = (o % n, o / n);
    let worker = states[w][0];
    let hits = scan::sent(steps[w]);
    assert(scan::is_walk(states[w], steps[w], search));
    scan::a_finished_walk_sent_its_hits(states[w], steps[w], search);
    worker_reaches(worker, deployer, start, count, n, w, k);
    assert(worker.reaches(k));
    assert(scan::are_all(worker, hits, scan::reported(steps[w]), search));
    assert(mine::hit_of(search, worker.deployer(), worker.salt_at(k) as u128) is Some);
    let i = choose|i: int| 0 <= i < hits.len() && (#[trigger] hits[i]).salt == worker.salt_at(k);
    (w, i)
}

/// No salt is sent twice, neither by one worker nor by two.
proof fn workers_are_apart(
    states: Seq<Seq<Worker>>,
    steps: Seq<Seq<scan::Step>>,
    search: mine::Search,
    deployer: Seq<u8>,
    start: u128,
    count: Option<u64>,
)
    requires
        is_cpu_run(states, steps, search, deployer, start, count),
    ensures
        are_apart(hits_by_worker(steps)),
{
    let hs = hits_by_worker(steps);
    assert forall|v: int, i: int, w: int, j: int|
        0 <= v < hs.len() && 0 <= i < hs[v].len() && 0 <= w < hs.len() && 0 <= j < hs[w].len() && (v
            != w || i != j) implies (#[trigger] hs[v][i]).salt != (#[trigger] hs[w][j]).salt by {
        if v == w {
            assert(scan::is_walk(states[v], steps[v], search));
            scan::a_finished_walk_sent_its_hits(states[v], steps[v], search);
            assert(scan::ascend(hs[v]));
        } else {
            let a = worker_hit(states, steps, search, deployer, start, count, v, i);
            let b = worker_hit(states, steps, search, deployer, start, count, w, j);
        }
    }
}

/// How many salts a worker reported is its share of all there is to scan.
proof fn worker_total(
    states: Seq<Seq<Worker>>,
    steps: Seq<Seq<scan::Step>>,
    search: mine::Search,
    deployer: Seq<u8>,
    start: u128,
    count: Option<u64>,
    w: int,
)
    requires
        is_cpu_run(states, steps, search, deployer, start, count),
        0 <= w < states.len(),
    ensures
        scan::reported(steps[w]) == mine::share(extent(start, count), states.len() as int, w),
{
    let n = states.len() as int;
    let e = extent(start, count);
    let worker = states[w][0];
    assert(scan::is_walk(states[w], steps[w], search));
    scan::a_finished_walk_sent_its_hits(states[w], steps[w], search);
    let (r, s) = (scan::reported(steps[w]), mine::share(e, n, w));
    vstd::arithmetic::div_mod::lemma_div_pos_is_pos(e, n);
    let k = if r < s {
        r
    } else {
        s
    };
    worker_reaches(worker, deployer, start, count, n, w, k);
    scan::every_salt_once(e, n, w + k * n);
    assert(worker.reaches(k) <==> k < r);
}

proof fn totals_are_shares(
    states: Seq<Seq<Worker>>,
    steps: Seq<Seq<scan::Step>>,
    search: mine::Search,
    deployer: Seq<u8>,
    start: u128,
    count: Option<u64>,
    w: int,
)
    requires
        is_cpu_run(states, steps, search, deployer, start, count),
        0 <= w <= states.len(),
    ensures
        total_from(steps, w) == scan::shares_from(
            extent(start, count),
            states.len() as int,
            w,
        ),
    decreases states.len() - w,
{
    if w < states.len() {
        worker_total(states, steps, search, deployer, start, count, w);
        totals_are_shares(states, steps, search, deployer, start, count, w + 1);
    }
}

/// A finished run of workers has sent the hits of the range that was asked for, each
/// once, and no others; and it has reported as many salts as there are.
pub proof fn a_cpu_run_has_its_hits(
    states: Seq<Seq<Worker>>,
    steps: Seq<Seq<scan::Step>>,
    search: mine::Search,
    deployer: Seq<u8>,
    start: u128,
    count: Option<u64>,
)
    requires
        is_cpu_run(states, steps, search, deployer, start, count),
    ensures
        are_the_hits(run_hits(steps), search, deployer, start as int, extent(start, count)),
        total_from(steps, 0) == extent(start, count),
{
    let hs = hits_by_worker(steps);
    let flat = hs.flatten();
    let e = extent(start, count);
    flat_members(hs);
    workers_are_apart(states, steps, search, deployer, start, count);
    flat_apart(hs);
    assert forall|i: int| 0 <= i < flat.len() implies (#[trigger] flat[i]).is_hit_of(
        search,
        deployer,
    ) && start <= flat[i].salt < start + e by {
        assert(is_in_some(hs, flat[i]));
        let (w, j) = choose|w: int, j: int|
            0 <= w < hs.len() && 0 <= j < hs[w].len() && #[trigger] hs[w][j] == flat[i];
        let o = worker_hit(states, steps, search, deployer, start, count, w, j);
    }
    assert forall|salt: u128|
        start <= salt < start + e && #[trigger] mine::hit_of(
            search,
            deployer,
            salt,
        ) is Some implies exists|i: int|
        0 <= i < flat.len() && (#[trigger] flat[i]).salt == salt by {
        let (w, j) = worker_sent(states, steps, search, deployer, start, count, salt - start);
        assert(flat.contains(hs[w][j]));
        let i = flat.index_of(hs[w][j]);
        assert(flat[i].salt == salt);
    }
    totals_are_shares(states, steps, search, deployer, start, count, 0);
    scan::shares_add_up(e, states.len() as int);
}

/// Whether each of some hits is among others: of the same salt, with the same word
/// at the same position.
pub open spec fn are_among(a: Seq<RawHit>, b: Seq<RawHit>) -> bool {
    forall|i: int|
        0 <= i < a.len() ==> exists|j: int|
            0 <= j < b.len() && (#[trigger] b[j]).salt == (#[trigger] a[i]).salt && b[j].pos
                == a[i].pos && b[j].word@ == a[i].word@ && b[j].tail@ == a[i].tail@
}

/// The hits of one range are the same, however they were found.
pub proof fn one_range_has_one_hit_set(
    a: Seq<RawHit>,
    b: Seq<RawHit>,
    search: mine::Search,
    deployer: Seq<u8>,
    first: int,
    len: int,
)
    requires
        are_the_hits(a, search, deployer, first, len),
        are_the_hits(b, search, deployer, first, len),
    ensures
        are_among(a, b),
        are_among(b, a),
{
    each_is_among(a, b, search, deployer, first, len);
    each_is_among(b, a, search, deployer, first, len);
}

proof fn each_is_among(
    a: Seq<RawHit>,
    b: Seq<RawHit>,
    search: mine::Search,
    deployer: Seq<u8>,
    first: int,
    len: int,
)
    requires
        are_the_hits(a, search, deployer, first, len),
        are_the_hits(b, search, deployer, first, len),
    ensures
        are_among(a, b),
{
    assert forall|i: int| 0 <= i < a.len() implies exists|j: int|
        0 <= j < b.len() && (#[trigger] b[j]).salt == (#[trigger] a[i]).salt && b[j].pos == a[i].pos
            && b[j].word@ == a[i].word@ && b[j].tail@ == a[i].tail@ by {
        assert(a[i].is_hit_of(search, deployer));
        assert(mine::hit_of(search, deployer, a[i].salt) is Some);
        let j = choose|j: int| 0 <= j < b.len() && (#[trigger] b[j]).salt == a[i].salt;
        assert(b[j].is_hit_of(search, deployer));
    }
}

/// The number of workers does not matter: two finished runs over one range have the
/// same hits.
pub proof fn workers_do_not_matter(
    states: Seq<Seq<Worker>>,
    steps: Seq<Seq<scan::Step>>,
    others: Seq<Seq<Worker>>,
    other_steps: Seq<Seq<scan::Step>>,
    search: mine::Search,
    deployer: Seq<u8>,
    start: u128,
    count: Option<u64>,
)
    requires
        is_cpu_run(states, steps, search, deployer, start, count),
        is_cpu_run(others, other_steps, search, deployer, start, count),
    ensures
        are_among(run_hits(steps), run_hits(other_steps)),
        are_among(run_hits(other_steps), run_hits(steps)),
{
    a_cpu_run_has_its_hits(states, steps, search, deployer, start, count);
    a_cpu_run_has_its_hits(others, other_steps, search, deployer, start, count);
    one_range_has_one_hit_set(
        run_hits(steps),
        run_hits(other_steps),
        search,
        deployer,
        start as int,
        extent(start, count),
    );
}

/// A run of `a` salts, and one of `b` salts from where it ended, have together the
/// hits of one run of `a + b` salts, each once.
pub proof fn a_resumed_run_loses_nothing(
    states: Seq<Seq<Worker>>,
    steps: Seq<Seq<scan::Step>>,
    next_states: Seq<Seq<Worker>>,
    next_steps: Seq<Seq<scan::Step>>,
    whole_states: Seq<Seq<Worker>>,
    whole_steps: Seq<Seq<scan::Step>>,
    search: mine::Search,
    deployer: Seq<u8>,
    start: u128,
    a: u64,
    b: u64,
)
    requires
        start + a <= u128::MAX,
        a + b <= u64::MAX,
        is_cpu_run(states, steps, search, deployer, start, Some(a)),
        is_cpu_run(next_states, next_steps, search, deployer, (start + a) as u128, Some(b)),
        is_cpu_run(whole_states, whole_steps, search, deployer, start, Some((a + b) as u64)),
    ensures
        are_the_hits(
            run_hits(steps) + run_hits(next_steps),
            search,
            deployer,
            start as int,
            extent(start, Some((a + b) as u64)),
        ),
        are_among(run_hits(steps) + run_hits(next_steps), run_hits(whole_steps)),
        are_among(run_hits(whole_steps), run_hits(steps) + run_hits(next_steps)),
{
    let (middle, all) = ((start + a) as u128, Some((a + b) as u64));
    a_cpu_run_has_its_hits(states, steps, search, deployer, start, Some(a));
    a_cpu_run_has_its_hits(next_states, next_steps, search, deployer, middle, Some(b));
    a_cpu_run_has_its_hits(whole_states, whole_steps, search, deployer, start, all);
    hits_of_both(
        run_hits(steps),
        run_hits(next_steps),
        search,
        deployer,
        start as int,
        a as int,
        extent(middle, Some(b)),
    );
    assert(a + extent(middle, Some(b)) == extent(start, all));
    one_range_has_one_hit_set(
        run_hits(steps) + run_hits(next_steps),
        run_hits(whole_steps),
        search,
        deployer,
        start as int,
        extent(start, all),
    );
}

/// A fixed range of salts gives the same hits on either backend: what the workers of
/// a finished CPU run sent, and what a finished device run has, are the same.
pub proof fn backends_find_the_same_hits(
    states: Seq<Seq<Worker>>,
    steps: Seq<Seq<scan::Step>>,
    planner: Planner,
    device_hits: Seq<RawHit>,
    start: u128,
    count: u64,
    search: mine::Search,
    deployer: Seq<u8>,
)
    requires
        is_cpu_run(states, steps, search, deployer, start, Some(count)),
        planner.start() == start,
        planner.count() == Some(count),
        planner.in_range(),
        !planner.goes_on(),
        are_the_hits(device_hits, search, deployer, start as int, planner.scanned() as int),
    ensures
        are_among(run_hits(steps), device_hits),
        are_among(device_hits, run_hits(steps)),
        total_from(steps, 0) == planner.scanned(),
{
    a_cpu_run_has_its_hits(states, steps, search, deployer, start, Some(count));
    a_finished_plan_scanned_the_extent(planner, start, count);
    one_range_has_one_hit_set(
        run_hits(steps),
        device_hits,
        search,
        deployer,
        start as int,
        extent(start, Some(count)),
    );
}

} // verus!
