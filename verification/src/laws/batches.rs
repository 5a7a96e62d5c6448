//! The way of the batches through the salts, and what is asked of a device.

use crate::gpu;
use crate::gpu::{Batch, BatchOutcome, GpuConfig, Planner, Settled};
use crate::kernel::TailKernel;
use crate::mine;
use crate::mine::{Matcher, Pos};
use crate::text;
use vstd::prelude::*;

verus! {

/// A run without a count ends only where its offset can number no more salts or
/// where the last 128-bit salt is behind it; a run with a count ends only there or
/// where that many were scanned.
pub proof fn runs_end_where_the_salts_end(p: &Planner, r: Option<Batch>)
    requires
        call_ensures(Planner::next, (p,), r),
    ensures
        r is None && p.count() is None ==> p.scanned() == 18_446_744_073_709_551_615 || p.start()
            + p.scanned() > 340_282_366_920_938_463_463_374_607_431_768_211_455,
        r is None ==> (p.count() matches Some(c) ==> p.scanned() == c || p.start() + p.scanned()
            > 340_282_366_920_938_463_463_374_607_431_768_211_455),
{
}

/// A batch begins at the first salt that was not scanned yet, is not empty, and ends
/// within the count and the 128-bit salts.
pub proof fn batches_stay_within_the_range(p: &Planner, b: Batch)
    requires
        call_ensures(Planner::next, (p,), Some(b)),
    ensures
        b.base == p.scanned(),
        b.first == p.start() + p.scanned(),
        b.len >= 1,
        b.first + b.len <= 340_282_366_920_938_463_463_374_607_431_768_211_456,
        p.count() matches Some(c) ==> b.base + b.len <= c,
        b.base + b.len <= 18_446_744_073_709_551_615,
{
}

/// A batch is shorter than the size that batches have come to only where it ends with
/// the last salt: of the count, of what an offset can number, or of all.
pub proof fn batches_are_as_long_as_they_can_be(p: &Planner, b: Batch)
    requires
        call_ensures(Planner::next, (p,), Some(b)),
    ensures
        b.len <= b.requested <= p.size(),
        b.requested < p.size() ==> match p.count() {
            Some(c) => b.base + b.requested == c,
            None => b.base + b.requested == 18_446_744_073_709_551_615,
        },
        b.len < b.requested ==> b.first + b.len
            == 340_282_366_920_938_463_463_374_607_431_768_211_456,
{
}

/// The first batch of a run begins at its first salt.
pub proof fn runs_begin_at_the_start(
    start: u128,
    count: Option<u64>,
    batch: u64,
    p: Planner,
    r: Option<Batch>,
)
    requires
        1 <= batch <= 4_294_967_295,
        call_ensures(Planner::new, (start, count, batch), p),
        call_ensures(Planner::next, (&p,), r),
    ensures
        r is None <==> count == Some(0u64),
        r matches Some(b) ==> {
            &&& b.first == start
            &&& b.base == 0
            &&& b.requested <= batch
            &&& b.requested < batch ==> count == Some(b.requested)
            &&& (count matches Some(c) ==> b.requested <= c)
        },
{
}

/// Behind an accepted batch comes the batch that begins where it ended. It is to be as
/// long as the accepted one if that had to shrink; else twice as long as before, but
/// no longer than the largest; in either case no longer than the count allows.
pub proof fn batches_follow_each_other(p: &Planner, b: Batch, q: Planner, r: Option<Batch>)
    requires
        p.is_due(b),
        call_ensures(Planner::accept, (p, b), q),
        call_ensures(Planner::next, (&q,), r),
    ensures
        r matches Some(c) ==> {
            let size = if b.len < b.requested {
                b.len as int
            } else if 2 * p.size() <= p.batch() {
                2 * p.size()
            } else {
                p.batch() as int
            };
            &&& c.first == b.first + b.len
            &&& c.base == b.base + b.len
            &&& c.requested <= size
            &&& c.requested < size ==> match p.count() {
                Some(n) => c.base + c.requested == n,
                None => c.base + c.requested == 18_446_744_073_709_551_615,
            }
        },
        r is None ==> b.first + b.len == 340_282_366_920_938_463_463_374_607_431_768_211_456
            || match p.count() {
            Some(n) => b.base + b.len == n,
            None => b.base + b.len == 18_446_744_073_709_551_615,
        },
{
}

/// A batch that shrinks begins where it began and loses half of its salts, the odd one
/// with them, but keeps its last.
pub proof fn batches_shrink_by_half(b: Batch, c: Batch)
    requires
        b.valid(),
        call_ensures(Batch::shrunk, (b,), c),
    ensures
        c.first == b.first && c.base == b.base && c.requested == b.requested,
        c.len >= 1,
        b.len >= 2 ==> c.len + c.len == b.len || c.len + c.len + 1 == b.len,
        b.len == 1 ==> c.len == 1,
{
}

/// A configuration is taken exactly if its batch is at most what 32 bits number, the
/// three words of each hit can be numbered in 32 bits, and neither is zero; then what
/// it asks for is what comes out, and 16777216 salts where it asks for none.
pub proof fn taken_configurations(cfg: &GpuConfig, r: Result<(u64, u32), String>)
    requires
        call_ensures(GpuConfig::resolve, (cfg,), r),
    ensures
        r is Ok <==> (cfg.batch matches Some(b) ==> 1 <= b <= 4_294_967_295) && 1 <= cfg.capacity
            && 3 * cfg.capacity <= 4_294_967_295,
        r matches Ok(t) ==> {
            &&& t.0 == match cfg.batch {
                Some(b) => b,
                None => 16_777_216,
            }
            &&& t.1 == cfg.capacity
        },
{
}

/// Which complaint a configuration gets: the batch comes first, then a capacity that
/// 32 bits cannot hold, then any other.
pub proof fn refused_configurations(cfg: &GpuConfig, e: String)
    requires
        call_ensures(GpuConfig::resolve, (cfg,), Err(e)),
    ensures
        cfg.batch matches Some(b) && !(1 <= b <= 4_294_967_295) ==> e@
            == "--gpu-batch must be between 1 and 4294967295"@,
        (cfg.batch matches Some(b) ==> 1 <= b <= 4_294_967_295) ==> e@ == (if cfg.capacity
            > 4_294_967_295 {
            "hit capacity must fit in u32"@
        } else {
            "hit capacity must be between 1 and 1431655765"@
        }),
{
    reveal_strlit("--gpu-batch must be between 1 and ");
    reveal_strlit("--gpu-batch must be between 1 and 4294967295");
    reveal_strlit("hit capacity must be between 1 and ");
    reveal_strlit("hit capacity must be between 1 and 1431655765");
    reveal_with_fuel(text::dec_of, 11);
    assert(text::dec_of(4_294_967_295) =~= seq!['4', '2', '9', '4', '9', '6', '7', '2', '9', '5']);
    assert(text::dec_of(1_431_655_765) =~= seq!['1', '4', '3', '1', '6', '5', '5', '7', '6', '5']);
    assert("--gpu-batch must be between 1 and "@ + text::dec_of(4_294_967_295)
        =~= "--gpu-batch must be between 1 and 4294967295"@);
    assert("hit capacity must be between 1 and "@ + text::dec_of(1_431_655_765)
        =~= "hit capacity must be between 1 and 1431655765"@);
}

/// With nothing said, nothing is asked for but room for 65536 hits.
pub proof fn default_configuration(cfg: GpuConfig)
    requires
        call_ensures(GpuConfig::default, (), cfg),
    ensures
        cfg.device is None,
        cfg.batch is None,
        cfg.capacity == 65_536,
{
}

/// The device that was asked for is taken if it was found; where none was asked for,
/// the only one is; in every other case none is.
pub proof fn picked_devices(device: Option<usize>, names: &[String], r: Result<usize, String>)
    requires
        call_ensures(gpu::pick_device, (device, names), r),
    ensures
        device matches Some(d) && d < names@.len() ==> r == Ok::<usize, String>(device->0),
        device matches Some(d) && d >= names@.len() ==> r is Err,
        device is None ==> (r is Ok <==> names@.len() == 1),
        device is None && r is Ok ==> r == Ok::<usize, String>(0),
{
}

/// Where no device is taken though some were found, the complaint ends with the list
/// of them.
pub proof fn complaints_list_the_devices(
    device: Option<usize>,
    names: &[String],
    e: String,
    list: String,
)
    requires
        names@.len() > 0,
        call_ensures(gpu::pick_device, (device, names), Err(e)),
        call_ensures(gpu::listing, (names,), list),
    ensures
        exists|said: Seq<char>| e@ == #[trigger] (said + list@),
{
    match device {
        Some(d) => {
            let said = "--device "@ + text::dec_of(d as nat) + " does not exist; available:\n"@;
            assert(e@ =~= said + list@);
        },
        None => {
            let said = "multiple GPUs found; pick one with --device:\n"@;
            assert(e@ =~= said + list@);
        },
    }
}

/// The list of devices grows line by line: behind the lines of the others comes the
/// line of the last one, with its number and its name.
pub proof fn listings_grow_by_lines(
    front: &[String],
    all: &[String],
    a: String,
    b: String,
    n: u128,
    number: String,
)
    requires
        all@.len() >= 1,
        front@ == all@.drop_last(),
        n == front@.len(),
        call_ensures(gpu::listing, (front,), a),
        call_ensures(gpu::listing, (all,), b),
        call_ensures(text::decimal, (n,), number),
    ensures
        n == 0 ==> a@.len() == 0 && b@ == "  --device 0: "@ + all@[0]@,
        n > 0 ==> b@ == a@ + "\n  --device "@ + number@ + ": "@ + all@.last()@,
{
    let (f, l) = (crate::words::texts(front@), crate::words::texts(all@));
    assert(l.drop_last() =~= f);
    assert(l.last() == all@.last()@);
    reveal_strlit("  --device 0: ");
    reveal_strlit("  --device ");
    reveal_strlit(": ");
    reveal_strlit("\n");
    reveal_strlit("\n  --device ");
    assert("\n"@ + "  --device "@ =~= "\n  --device "@);
    if n == 0 {
        assert(text::dec_of(0) =~= seq!['0']);
        assert("  --device 0: "@ =~= "  --device "@ + text::dec_of(0) + ": "@);
        assert(f =~= Seq::<Seq<char>>::empty());
        assert(b@ =~= "  --device 0: "@ + all@[0]@);
    } else {
        assert(b@ =~= a@ + "\n  --device "@ + number@ + ": "@ + all@.last()@);
    }
}

/// A hit takes twelve bytes: room for the hits is allocated exactly if all of them fit
/// what the device can allocate.
pub proof fn hits_take_twelve_bytes(capacity: u32, max_alloc: u64, r: Result<u64, String>)
    requires
        call_ensures(gpu::hit_buffer_bytes, (capacity, max_alloc), r),
    ensures
        r is Ok <==> capacity * 12 <= max_alloc,
        r matches Ok(n) ==> n == capacity * 12,
{
}

/// Every hit is read as far as there is room, and none otherwise.
pub proof fn hits_are_read_whole(count: u32, capacity: u32, r: Option<usize>)
    requires
        3 * capacity <= 4_294_967_295,
        call_ensures(gpu::words_to_read, (count, capacity), r),
    ensures
        r is Some <==> count <= capacity,
        r matches Some(n) ==> n == count + count + count,
{
}

/// Word `j` of what was read is part `j % 3` of hit `j / 3`, up to the last whole hit.
pub proof fn every_word_is_taken(raw: &[u32], r: BatchOutcome, j: int)
    requires
        call_ensures(BatchOutcome::of_words, (raw,), r),
        0 <= j < raw@.len() - raw@.len() % 3,
    ensures
        r matches BatchOutcome::Hits(hits) && {
            let h = hits@[j / 3];
            &&& 3 * hits@.len() <= raw@.len() < 3 * hits@.len() + 3
            &&& raw@[j] == (if j % 3 == 0 {
                h.0
            } else if j % 3 == 1 {
                h.1
            } else {
                h.2
            })
        },
{
    let i = j / 3;
    if let BatchOutcome::Hits(hits) = r {
        assert(hits@[i] == (raw@[3 * i], raw@[3 * i + 1], raw@[3 * i + 2]));
    }
}

/// The positions are numbered in order of precedence, from zero.
pub proof fn positions_have_numbers(pos: Pos, n: u32)
    requires
        call_ensures(Pos::code, (&pos,), n),
    ensures
        n == 0 <==> pos == Pos::Prefix,
        n == 1 <==> pos == Pos::Suffix,
        n == 2 <==> pos == Pos::Inner,
{
}

/// A device's hit is taken exactly if it names what is found in the hexadecimal text of
/// the window's first nine bytes; and what is taken is what was found.
pub proof fn hits_are_found_again(
    m: &Matcher,
    salt: u128,
    window: u128,
    word_idx: u32,
    pos_code: u32,
    r: Result<mine::RawHit, String>,
    bytes: [u8; 16],
    hex: &[u8; 18],
    found: Option<(Pos, &str)>,
    named: Option<&str>,
)
    requires
        call_ensures(gpu::check_hit, (m, salt, window, word_idx, pos_code), r),
        call_ensures(crate::b20::to_be_bytes, (window,), bytes),
        hex@ == text::hex_of(bytes@.take(9)),
        call_ensures(Matcher::find, (m, hex), found),
        call_ensures(Matcher::word, (m, word_idx as usize), named),
    ensures
        r is Ok <==> (found matches Some(f) && (named matches Some(w) && w@ == f.1@) && pos_code
            == match f.0 {
            Pos::Prefix => 0u32,
            Pos::Suffix => 1u32,
            Pos::Inner => 2u32,
        }),
        r matches Ok(h) ==> h.salt == salt && h.tail@ == bytes@.take(9),
        r matches Ok(h) ==> (found matches Some(f) ==> h.pos == f.0 && h.word@ == f.1@),
{
}

/// A record of a batch is taken exactly if its offset lies in the batch and it names
/// what is found when that salt is tried: the word by its number in the list, and the
/// position by its number.
pub proof fn records_are_tried_again(
    kernel: &TailKernel,
    matcher: &Matcher,
    b: &Batch,
    record: (u32, u32, u32),
    r: Result<mine::RawHit, String>,
    deployer: &[u8; 20],
    salt: u128,
    tried: Option<mine::RawHit>,
    named: Option<&str>,
    code: u32,
)
    requires
        b.valid(),
        call_ensures(gpu::take_record, (kernel, matcher, b, record), r),
        call_ensures(TailKernel::new, (deployer,), *kernel),
        salt == b.first + record.0,
        call_ensures(mine::try_salt, (matcher, deployer, salt), tried),
        call_ensures(Matcher::word, (matcher, record.1 as usize), named),
        tried matches Some(t) ==> call_ensures(Pos::code, (&t.pos,), code),
    ensures
        r is Ok <==> record.0 < b.len && (tried matches Some(t) && named is Some && named->0@
            == t.word@ && code == record.2),
        r matches Ok(h) ==> (tried matches Some(t) ==> h.salt == salt && h.word@ == t.word@ && h.pos
            == t.pos && h.tail@ == t.tail@),
{
    crate::kernel::window_top_bytes_are_the_tail(deployer@, salt);
}

/// What becomes of a batch: it is run again, from where it began and at half its
/// length, exactly if it overran; else its records give its hits, one each and in
/// their order, and the run goes on behind it, as long as every record is taken.
pub proof fn batches_are_settled(
    p: &Planner,
    kernel: &TailKernel,
    matcher: &Matcher,
    b: Batch,
    outcome: BatchOutcome,
    r: Settled,
)
    requires
        p.is_due(b),
        call_ensures(Planner::settle, (p, kernel, matcher, b, outcome), r),
    ensures
        r is Retry <==> outcome is Overflow,
        r matches Settled::Retry(c) ==> {
            &&& c.first == b.first && c.base == b.base && c.requested == b.requested
            &&& b.len >= 2 ==> c.len + c.len == b.len || c.len + c.len + 1 == b.len
            &&& b.len == 1 ==> c.len == 1
        },
        r matches Settled::Accepted(q, hits) ==> {
            &&& outcome matches BatchOutcome::Hits(records) && hits@.len() == records@.len()
                && forall|i: int|
                0 <= i < records@.len() ==> b.first <= (#[trigger] hits@[i]).salt < b.first + b.len
                    && hits@[i].salt == b.first + records@[i].0
            &&& q.scanned() == p.scanned() + b.len
            &&& q.start() == p.start() && q.count() == p.count() && q.batch() == p.batch()
        },
        r matches Settled::Fault(hits, e) ==> {
            &&& outcome matches BatchOutcome::Hits(records) && hits@.len() < records@.len()
                && forall|i: int|
                0 <= i < hits@.len() ==> b.first <= (#[trigger] hits@[i]).salt < b.first + b.len
                    && hits@[i].salt == b.first + records@[i].0
        },
{
}

/// A run is ended by the first record that is not taken, with what there is to say of
/// it; the records before it were taken, and their hits are kept.
pub proof fn the_first_refused_record_ends_the_run(
    p: &Planner,
    kernel: &TailKernel,
    matcher: &Matcher,
    b: Batch,
    records: Vec<(u32, u32, u32)>,
    hits: Vec<mine::RawHit>,
    e: String,
    i: int,
    again: Result<mine::RawHit, String>,
)
    requires
        p.is_due(b),
        call_ensures(
            Planner::settle,
            (p, kernel, matcher, b, BatchOutcome::Hits(records)),
            Settled::Fault(hits, e),
        ),
        0 <= i <= hits@.len(),
        call_ensures(gpu::take_record, (kernel, matcher, &b, records@[i]), again),
    ensures
        hits@.len() < records@.len(),
        i < hits@.len() ==> (again matches Ok(h) && h.salt == hits@[i].salt && h.word@
            == hits@[i].word@ && h.pos == hits@[i].pos && h.tail@ == hits@[i].tail@),
        i == hits@.len() ==> (again matches Err(said) && said@ == e@),
{
    if i < hits@.len() {
        assert(hits@[i].salt == b.first + records@[i].0);
    }
}

/// What is said of a record outside its batch, or of one that names a hit where nothing
/// is found.
pub proof fn complaints_about_records(
    kernel: &TailKernel,
    matcher: &Matcher,
    b: &Batch,
    record: (u32, u32, u32),
    e: String,
    deployer: &[u8; 20],
    salt: u128,
    tried: Option<mine::RawHit>,
    named: Option<&str>,
    numbers: (String, String, String, String, String),
)
    requires
        b.valid(),
        call_ensures(gpu::take_record, (kernel, matcher, b, record), Err(e)),
        call_ensures(TailKernel::new, (deployer,), *kernel),
        salt == b.first + record.0,
        call_ensures(mine::try_salt, (matcher, deployer, salt), tried),
        call_ensures(Matcher::word, (matcher, record.1 as usize), named),
        call_ensures(text::decimal, (record.0 as u128,), numbers.0),
        call_ensures(text::decimal, (b.len as u128,), numbers.1),
        call_ensures(text::decimal, (salt,), numbers.2),
        call_ensures(text::decimal, (record.1 as u128,), numbers.3),
        call_ensures(text::decimal, (record.2 as u128,), numbers.4),
    ensures
        record.0 >= b.len ==> e@ == "GPU hit offset "@ + numbers.0@ + " outside the "@ + numbers.1@
            + "-salt batch: kernel bug"@,
        record.0 < b.len && tried is None ==> e@ == "GPU hit at salt "@ + numbers.2@
            + " rejected by the CPU matcher: kernel bug"@,
        record.0 < b.len && tried is Some && named is None ==> e@ == "GPU hit at salt "@ + numbers.2@
            + " has out-of-range word index "@ + numbers.3@ + ": kernel bug"@,
        record.0 < b.len && tried is Some && named is Some ==> e@
            == "GPU hit disagrees with CPU at salt "@ + numbers.2@ + ": gpu ("@ + named->0@ + ", "@
            + numbers.4@ + ") vs cpu ("@ + tried->0.word@ + ", "@ + (match tried->0.pos {
            Pos::Prefix => "0"@,
            Pos::Suffix => "1"@,
            Pos::Inner => "2"@,
        }) + ")"@,
{
    crate::kernel::window_top_bytes_are_the_tail(deployer@, salt);
    reveal_strlit("0");
    reveal_strlit("1");
    reveal_strlit("2");
    assert(text::dec_of(0) =~= "0"@);
    assert(text::dec_of(1) =~= "1"@);
    assert(text::dec_of(2) =~= "2"@);
}

/// What is said of room that a device cannot allocate.
pub proof fn complaints_about_room(
    capacity: u32,
    max_alloc: u64,
    e: String,
    numbers: (String, String, String),
)
    requires
        call_ensures(gpu::hit_buffer_bytes, (capacity, max_alloc), Err(e)),
        call_ensures(text::decimal, (capacity as u128,), numbers.0),
        call_ensures(text::decimal, ((capacity * 12) as u128,), numbers.1),
        call_ensures(text::decimal, (max_alloc as u128,), numbers.2),
    ensures
        e@ == "hit capacity "@ + numbers.0@ + " needs a "@ + numbers.1@
            + "-byte buffer, over the device's max allocation of "@ + numbers.2@ + " bytes"@,
{
}

} // verus!
