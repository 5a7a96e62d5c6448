//! The decisions of the OpenCL backend: its configuration, the choice of a
//! device, the batches, and the check of every hit that the device reports.

use crate::b20;
use crate::entries;
use crate::kernel;
use crate::kernel::TailKernel;
use crate::mine;
use crate::mine::{Matcher, RawHit};
use crate::text;
use crate::words;
use vstd::prelude::*;

verus! {

/// Salts per dispatch when --gpu-batch is not given: large enough to keep a
/// discrete GPU busy, small enough that Ctrl-C lands within a batch or two.
pub const DEFAULT_BATCH: u64 = 16_777_216;

/// Hits per dispatch that there is room for, when nothing else is said.
pub const DEFAULT_CAPACITY: usize = 65_536;

/// Which device to use, and how.
pub struct GpuConfig {
    pub device: Option<usize>,
    pub batch: Option<u64>,
    pub capacity: usize,
}

impl Default for GpuConfig {
    fn default() -> (cfg: GpuConfig)
        ensures
            cfg.device is None,
            cfg.batch is None,
            cfg.capacity == DEFAULT_CAPACITY,
    {
        GpuConfig { device: None, batch: None, capacity: DEFAULT_CAPACITY }
    }
}

/// The batch size that a configuration asks for.
pub open spec fn asked_batch(cfg: GpuConfig) -> u64 {
    match cfg.batch {
        Some(b) => b,
        None => DEFAULT_BATCH,
    }
}

/// A text followed by a number.
fn with_number(before: &str, n: u128) -> (s: String)
    ensures
        s@ == before@ + text::dec_of(n as nat),
{
    let mut s = before.to_owned();
    let digits = text::decimal(n);
    s.append(&digits);
    s
}

impl GpuConfig {
    /// The batch size and the hit capacity, checked before any device is asked:
    /// a batch must never be able to wrap the hit counter or the record offset,
    /// which are u32, and records are three words wide and indexed in u32.
    pub fn resolve(&self) -> (r: Result<(u64, u32), String>)
        ensures
            match r {
                Ok((batch, capacity)) => {
                    &&& batch == asked_batch(*self)
                    &&& 1 <= batch <= u32::MAX
                    &&& capacity == self.capacity
                    &&& 1 <= capacity <= u32::MAX / 3
                },
                Err(e) => {
                    if !(1 <= asked_batch(*self) <= u32::MAX) {
                        e@ == "--gpu-batch must be between 1 and "@ + text::dec_of(u32::MAX as nat)
                    } else if self.capacity > u32::MAX {
                        e@ == "hit capacity must fit in u32"@
                    } else {
                        &&& !(1 <= self.capacity <= u32::MAX / 3)
                        &&& e@ == "hit capacity must be between 1 and "@ + text::dec_of(
                            (u32::MAX / 3) as nat,
                        )
                    }
                },
            },
    {
        let batch: u64 = match self.batch {
            Some(b) => b,
            None => DEFAULT_BATCH,
        };
        if batch < 1 || batch > u32::MAX as u64 {
            return Err(with_number("--gpu-batch must be between 1 and ", u32::MAX as u128));
        }
        if self.capacity as u64 > u32::MAX as u64 {
            return Err("hit capacity must fit in u32".to_owned());
        }
        let capacity: u32 = self.capacity as u32;
        if capacity < 1 || capacity > u32::MAX / 3 {
            return Err(with_number("hit capacity must be between 1 and ", (u32::MAX / 3) as u128));
        }
        Ok((batch, capacity))
    }
}

/// One line per device: its number and its name.
pub open spec fn listing_of(names: Seq<Seq<char>>) -> Seq<char>
    decreases names.len(),
{
    if names.len() == 0 {
        Seq::empty()
    } else {
        let before = listing_of(names.drop_last());
        (if names.len() == 1 {
            before
        } else {
            before + "\n"@
        }) + "  --device "@ + text::dec_of((names.len() - 1) as nat) + ": "@ + names.last()
    }
}

/// One line per device: its number and its name.
pub fn listing(names: &[String]) -> (s: String)
    ensures
        s@ == listing_of(words::texts(names@)),
{
    let ghost all = words::texts(names@);
    let mut s = String::new();
    let mut i: usize = 0;
    assert(all.take(0) =~= Seq::<Seq<char>>::empty());
    while i < names.len()
        invariant
            i <= names@.len(),
            all == words::texts(names@),
            s@ == listing_of(all.take(i as int)),
        decreases names@.len() - i,
    {
        proof {
            assert(all.take(i + 1).drop_last() =~= all.take(i as int));
        }
        if i > 0 {
            s.append("\n");
        }
        s.append("  --device ");
        let digits = text::decimal(i as u128);
        s.append(&digits);
        s.append(": ");
        s.append(&names[i]);
        i = i + 1;
    }
    assert(all.take(i as int) =~= all);
    s
}

/// Picks a device out of those found, given by their names: the one asked for,
/// or the only one there is.
pub fn pick_device(device: Option<usize>, names: &[String]) -> (r: Result<usize, String>)
    ensures
        match r {
            Ok(i) => {
                &&& i < names@.len()
                &&& match device {
                    Some(d) => i == d,
                    None => names@.len() == 1,
                }
            },
            Err(e) => {
                if names@.len() == 0 {
                    e@ == "no OpenCL GPU devices found"@
                } else {
                    match device {
                        Some(d) => d >= names@.len() && e@ == "--device "@ + text::dec_of(d as nat)
                            + " does not exist; available:\n"@ + listing_of(words::texts(names@)),
                        None => names@.len() > 1 && e@
                            == "multiple GPUs found; pick one with --device:\n"@ + listing_of(
                            words::texts(names@),
                        ),
                    }
                }
            },
        },
{
    if names.len() == 0 {
        return Err("no OpenCL GPU devices found".to_owned());
    }
    match device {
        Some(d) => {
            if d < names.len() {
                Ok(d)
            } else {
                let mut e = with_number("--device ", d as u128);
                e.append(" does not exist; available:\n");
                let lines = listing(names);
                e.append(&lines);
                Err(e)
            }
        },
        None => {
            if names.len() == 1 {
                Ok(0)
            } else {
                let mut e = "multiple GPUs found; pick one with --device:\n".to_owned();
                let lines = listing(names);
                e.append(&lines);
                Err(e)
            }
        },
    }
}

/// How many bytes the hit buffer takes, if the device can allocate them. It is
/// the only allocation that scales with the configuration.
pub fn hit_buffer_bytes(capacity: u32, max_alloc: u64) -> (r: Result<u64, String>)
    ensures
        match r {
            Ok(bytes) => bytes == 12 * capacity && bytes <= max_alloc,
            Err(e) => 12 * capacity > max_alloc && e@ == "hit capacity "@ + text::dec_of(
                capacity as nat,
            ) + " needs a "@ + text::dec_of((12 * capacity) as nat)
                + "-byte buffer, over the device's max allocation of "@ + text::dec_of(
                max_alloc as nat,
            ) + " bytes"@,
        },
{
    let bytes: u64 = 3 * capacity as u64 * 4;
    if bytes <= max_alloc {
        Ok(bytes)
    } else {
        let mut e = with_number("hit capacity ", capacity as u128);
        e.append(" needs a ");
        let size = text::decimal(bytes as u128);
        e.append(&size);
        e.append("-byte buffer, over the device's max allocation of ");
        let limit = text::decimal(max_alloc as u128);
        e.append(&limit);
        e.append(" bytes");
        Err(e)
    }
}

/// One batch's outcome: hit records `(offset_in_batch, word_index, pos_code)`
/// or an overflow that the caller must shrink and rerun.
pub enum BatchOutcome {
    Hits(Vec<(u32, u32, u32)>),
    Overflow,
}

/// How many words of hit records there are to read, unless the hits overran
/// the capacity.
pub fn words_to_read(count: u32, capacity: u32) -> (r: Option<usize>)
    requires
        capacity <= u32::MAX / 3,
    ensures
        match r {
            Some(n) => count <= capacity && n == 3 * count,
            None => count > capacity,
        },
{
    if count > capacity {
        None
    } else {
        Some(3 * count as usize)
    }
}

impl BatchOutcome {
    /// The hit records in the words that were read, three words each.
    pub fn of_words(raw: &[u32]) -> (r: BatchOutcome)
        ensures
            match r {
                BatchOutcome::Hits(hits) => {
                    &&& hits@.len() == raw@.len() / 3
                    &&& forall|i: int|
                        0 <= i < hits@.len() ==> #[trigger] hits@[i] == (
                            raw@[3 * i],
                            raw@[3 * i + 1],
                            raw@[3 * i + 2],
                        )
                },
                BatchOutcome::Overflow => false,
            },
    {
        let n: usize = raw.len() / 3;
        let mut hits: Vec<(u32, u32, u32)> = Vec::new();
        let mut i: usize = 0;
        while i < n
            invariant
                n == raw@.len() / 3,
                raw@.len() <= usize::MAX,
                i <= n,
                hits@.len() == i,
                forall|k: int|
                    0 <= k < i ==> #[trigger] hits@[k] == (
                        raw@[3 * k],
                        raw@[3 * k + 1],
                        raw@[3 * k + 2],
                    ),
            decreases n - i,
        {
            hits.push((raw[3 * i], raw[3 * i + 1], raw[3 * i + 2]));
            i = i + 1;
        }
        BatchOutcome::Hits(hits)
    }
}

/// A run of salts that the device hashes at one go.
#[derive(Clone, Copy)]
pub struct Batch {
    /// The first salt.
    pub first: u128,
    /// How many salts of the range come before it.
    pub base: u64,
    /// How many salts the batch has.
    pub len: u64,
    /// How many it was to have.
    pub requested: u64,
}

impl Batch {
    /// The batch has a salt, no more than were requested, and its salts fit 128 bits.
    pub open spec fn valid(&self) -> bool {
        &&& 1 <= self.len <= self.requested
        &&& self.first + self.len - 1 <= u128::MAX
    }

    /// The batch at half its length, to be run again: an overrun batch is
    /// discarded whole.
    pub fn shrunk(self) -> (b: Batch)
        requires
            self.valid(),
        ensures
            b.valid(),
            b.first == self.first,
            b.base == self.base,
            b.requested == self.requested,
            b.len == (if self.len > 1 {
                self.len / 2
            } else {
                1
            }),
    {
        let half: u64 = self.len / 2;
        Batch {
            first: self.first,
            base: self.base,
            len: if half > 1 { half } else { 1 },
            requested: self.requested,
        }
    }
}

/// How many salts are asked for: without a count, as many as the offset can number.
pub open spec fn horizon(count: Option<u64>) -> u64 {
    match count {
        Some(c) => c,
        None => u64::MAX,
    }
}

/// The way of the batches through the range of salts.
pub struct Planner {
    start: u128,
    count: Option<u64>,
    batch: u64,
    cur: u64,
    base: u64,
    exhausted: bool,
}

impl Planner {
    /// The first salt of the range.
    pub closed spec fn start(&self) -> u128 {
        self.start
    }

    /// How many salts are asked for, if it was said.
    pub closed spec fn count(&self) -> Option<u64> {
        self.count
    }

    /// The size that no batch exceeds.
    pub closed spec fn batch(&self) -> u64 {
        self.batch
    }

    /// The size that the next batch is to have.
    pub closed spec fn size(&self) -> u64 {
        self.cur
    }

    /// How many salts of the range were scanned: those at its front.
    pub closed spec fn scanned(&self) -> u64 {
        self.base
    }

    /// Whether there are salts left: fewer were scanned than were asked for, and
    /// the next one fits 128 bits.
    pub open spec fn goes_on(&self) -> bool {
        self.scanned() < horizon(self.count()) && self.start() + self.scanned() <= u128::MAX
    }

    /// No salt was scanned that was not asked for, and none beyond the last.
    pub open spec fn in_range(&self) -> bool {
        &&& self.scanned() <= horizon(self.count())
        &&& self.start() + self.scanned() <= u128::MAX + 1
    }

    /// Whether a batch is one to run now: it starts where the scanned salts end,
    /// and is within what the size and the count allow.
    pub open spec fn is_due(&self, b: Batch) -> bool {
        &&& b.valid()
        &&& b.base == self.scanned()
        &&& b.first == self.start() + self.scanned()
        &&& b.requested <= self.size()
        &&& b.requested <= horizon(self.count()) - self.scanned()
    }

    /// Whether a run, once a batch is accepted, goes on as `p`: only an accepted
    /// batch advances it, and the size follows the batches.
    pub open spec fn is_followed_by(&self, p: Planner, b: Batch) -> bool {
        &&& p.start() == self.start()
        &&& p.count() == self.count()
        &&& p.batch() == self.batch()
        &&& p.scanned() == self.scanned() + b.len
        &&& p.in_range()
        &&& p.size() == (if b.len < b.requested {
            b.len as int
        } else if 2 * self.size() < self.batch() {
            2 * self.size()
        } else {
            self.batch() as int
        })
    }

    #[verifier::type_invariant]
    spec fn wf(&self) -> bool {
        &&& 1 <= self.cur <= self.batch <= u32::MAX
        &&& self.in_range()
        &&& self.exhausted <==> self.start + self.base > u128::MAX
    }

    /// A run over `count` salts from `start` on.
    pub fn new(start: u128, count: Option<u64>, batch: u64) -> (p: Planner)
        requires
            1 <= batch <= u32::MAX,
        ensures
            p.start() == start,
            p.count() == count,
            p.batch() == batch,
            p.size() == batch,
            p.scanned() == 0,
            p.in_range(),
    {
        Planner { start, count, batch, cur: batch, base: 0, exhausted: false }
    }

    /// The next batch: of the size that batches have come to, but not beyond
    /// what is asked for, nor beyond the last salt there is.
    pub fn next(&self) -> (r: Option<Batch>)
        ensures
            self.in_range(),
            match r {
                Some(b) => {
                    let remaining = horizon(self.count()) - self.scanned();
                    let room = u128::MAX - self.start() - self.scanned() + 1;
                    &&& self.goes_on()
                    &&& self.is_due(b)
                    &&& b.requested <= self.batch() <= u32::MAX
                    &&& b.requested == (if self.size() < remaining {
                        self.size() as int
                    } else {
                        remaining
                    })
                    &&& b.len == (if b.requested < room {
                        b.requested as int
                    } else {
                        room
                    })
                },
                None => !self.goes_on(),
            },
    {
        proof {
            use_type_invariant(self);
        }
        let limit: u64 = match self.count {
            Some(c) => c,
            None => u64::MAX,
        };
        if self.exhausted || self.base >= limit {
            return None;
        }
        let remaining: u64 = limit - self.base;
        let first: u128 = self.start + self.base as u128;
        let requested: u64 = if self.cur < remaining { self.cur } else { remaining };
        let beyond: u128 = u128::MAX - first;
        let len: u64 = if ((requested - 1) as u128) < beyond { requested } else { beyond as u64 + 1 };
        Some(Batch { first, base: self.base, len, requested })
    }

    /// Takes a batch as scanned: only an accepted batch advances the run. The
    /// size follows the batches, so a hit-dense word list settles near its
    /// sustainable batch size: it falls to that of a batch that had to shrink,
    /// and doubles after one that did not, up to the largest.
    pub fn accept(&self, b: Batch) -> (p: Planner)
        requires
            self.is_due(b),
        ensures
            self.is_followed_by(p, b),
    {
        proof {
            use_type_invariant(self);
        }
        let size: u64 = if b.len < b.requested {
            b.len
        } else if self.cur < self.batch - self.cur {
            2 * self.cur
        } else {
            self.batch
        };
        Planner {
            start: self.start,
            count: self.count,
            batch: self.batch,
            cur: size,
            base: self.base + b.len,
            exhausted: u128::MAX - b.first == (b.len - 1) as u128,
        }
    }

    /// A run that has come to its end has scanned every salt of the range once:
    /// those that were asked for and fit 128 bits, and no others.
    pub proof fn covers_the_range(&self, o: int)
        requires
            self.in_range(),
            !self.goes_on(),
            o >= 0,
        ensures
            o < self.scanned() <==> o < horizon(self.count()) && self.start() + o <= u128::MAX,
    {
    }
}

/// Whether a device's word number and position code name the hit in what a
/// window shows.
pub open spec fn agrees(search: mine::Search, window: u128, word_idx: u32, pos_code: u32) -> bool {
    match mine::hit_in(search, entries::shown(window)) {
        Some((pos, w)) => {
            &&& word_idx < search.words.len()
            &&& search.words[word_idx as int] == w
            &&& pos.number() == pos_code
        },
        None => false,
    }
}

/// What there is to say against a hit that a device reports.
pub open spec fn objection(
    search: mine::Search,
    salt: u128,
    window: u128,
    word_idx: u32,
    pos_code: u32,
) -> Seq<char> {
    match mine::hit_in(search, entries::shown(window)) {
        None => "GPU hit at salt "@ + text::dec_of(salt as nat)
            + " rejected by the CPU matcher: kernel bug"@,
        Some((pos, w)) => if word_idx >= search.words.len() {
            "GPU hit at salt "@ + text::dec_of(salt as nat) + " has out-of-range word index "@
                + text::dec_of(word_idx as nat) + ": kernel bug"@
        } else {
            "GPU hit disagrees with CPU at salt "@ + text::dec_of(salt as nat) + ": gpu ("@
                + search.words[word_idx as int] + ", "@ + text::dec_of(pos_code as nat)
                + ") vs cpu ("@ + w + ", "@ + text::dec_of(pos.number() as nat) + ")"@
        },
    }
}

/// Finds a device's hit again in the window, and requires agreement: what is
/// written down is only ever derived here, so a fault of the device can give an
/// error but never a wrong record.
pub fn check_hit(matcher: &Matcher, salt: u128, window: u128, word_idx: u32, pos_code: u32) -> (r:
    Result<RawHit, String>)
    ensures
        match r {
            Ok(hit) => {
                &&& agrees(matcher.search(), window, word_idx, pos_code)
                &&& mine::hit_in(matcher.search(), entries::shown(window)) == Some(
                    (hit.pos, hit.word@),
                )
                &&& hit.salt == salt
                &&& hit.tail@ == b20::be_bytes(window).take(9)
            },
            Err(e) => {
                &&& !agrees(matcher.search(), window, word_idx, pos_code)
                &&& e@ == objection(matcher.search(), salt, window, word_idx, pos_code)
            },
        },
{
    let bytes: [u8; 16] = b20::to_be_bytes(window);
    let tail: [u8; 9] = [
        bytes[0],
        bytes[1],
        bytes[2],
        bytes[3],
        bytes[4],
        bytes[5],
        bytes[6],
        bytes[7],
        bytes[8],
    ];
    let mut tail_hex: [u8; 18] = [0u8; 18];
    b20::hex_lower(&tail, &mut tail_hex);
    assert(tail@ =~= b20::be_bytes(window).take(9));
    assert(tail_hex@ =~= entries::shown(window));
    match matcher.find(&tail_hex) {
        None => {
            let mut e = with_number("GPU hit at salt ", salt);
            e.append(" rejected by the CPU matcher: kernel bug");
            Err(e)
        },
        Some((pos, word)) => match matcher.word(word_idx as usize) {
            None => {
                let mut e = with_number("GPU hit at salt ", salt);
                e.append(" has out-of-range word index ");
                let number = text::decimal(word_idx as u128);
                e.append(&number);
                e.append(": kernel bug");
                Err(e)
            },
            Some(gpu_word) => {
                let code: u32 = pos.code();
                let word = word.to_owned();
                if word == gpu_word.to_owned() && code == pos_code {
                    Ok(RawHit { word, pos, salt, tail })
                } else {
                    let mut e = with_number("GPU hit disagrees with CPU at salt ", salt);
                    e.append(": gpu (");
                    e.append(gpu_word);
                    e.append(", ");
                    let gpu_code = text::decimal(pos_code as u128);
                    e.append(&gpu_code);
                    e.append(") vs cpu (");
                    e.append(&word);
                    e.append(", ");
                    let cpu_code = text::decimal(code as u128);
                    e.append(&cpu_code);
                    e.append(")");
                    Err(e)
                }
            },
        },
    }
}

/// Whether a hit record holds: its offset lies in the batch, and it names the
/// hit of the salt there.
pub open spec fn record_holds(
    search: mine::Search,
    deployer: Seq<u8>,
    b: Batch,
    record: (u32, u32, u32),
) -> bool {
    record.0 < b.len && agrees(
        search,
        kernel::tail_window(deployer, (b.first + record.0) as u128),
        record.1,
        record.2,
    )
}

/// What there is to say against a hit record that does not hold.
pub open spec fn record_objection(
    search: mine::Search,
    deployer: Seq<u8>,
    b: Batch,
    record: (u32, u32, u32),
) -> Seq<char> {
    if record.0 >= b.len {
        "GPU hit offset "@ + text::dec_of(record.0 as nat) + " outside the "@ + text::dec_of(
            b.len as nat,
        ) + "-salt batch: kernel bug"@
    } else {
        let salt = (b.first + record.0) as u128;
        objection(search, salt, kernel::tail_window(deployer, salt), record.1, record.2)
    }
}

/// Takes one hit record of a batch: its offset must lie in the batch (the hit
/// would be that of some unrelated salt otherwise), and the hit is derived again
/// from the salt there.
pub fn take_record(kernel: &TailKernel, matcher: &Matcher, b: &Batch, record: (u32, u32, u32)) -> (r:
    Result<RawHit, String>)
    requires
        b.valid(),
    ensures
        match r {
            Ok(hit) => {
                &&& record_holds(matcher.search(), kernel.deployer(), *b, record)
                &&& hit.salt == b.first + record.0
                &&& hit.is_hit_of(matcher.search(), kernel.deployer())
            },
            Err(e) => {
                &&& !record_holds(matcher.search(), kernel.deployer(), *b, record)
                &&& e@ == record_objection(matcher.search(), kernel.deployer(), *b, record)
            },
        },
{
    if record.0 as u64 >= b.len {
        let mut e = with_number("GPU hit offset ", record.0 as u128);
        e.append(" outside the ");
        let size = text::decimal(b.len as u128);
        e.append(&size);
        e.append("-salt batch: kernel bug");
        return Err(e);
    }
    let salt: u128 = b.first + record.0 as u128;
    let window: u128 = kernel.window(salt);
    proof {
        kernel::window_top_bytes_are_the_tail(kernel.deployer(), salt);
    }
    check_hit(matcher, salt, window, record.1, record.2)
}

/// The hits of a batch's records, as far as the first record that does not hold.
pub open spec fn hits_of_records(
    hits: Seq<RawHit>,
    search: mine::Search,
    deployer: Seq<u8>,
    b: Batch,
    records: Seq<(u32, u32, u32)>,
) -> bool {
    &&& hits.len() <= records.len()
    &&& forall|i: int|
        0 <= i < hits.len() ==> {
            &&& record_holds(search, deployer, b, records[i])
            &&& (#[trigger] hits[i]).salt == b.first + records[i].0
            &&& hits[i].is_hit_of(search, deployer)
        }
    &&& hits.len() < records.len() ==> !record_holds(search, deployer, b, records[hits.len() as int])
}

/// What becomes of a batch that was run.
pub enum Settled {
    /// It overran the hit capacity, and is to be run again, shorter.
    Retry(Batch),
    /// Its hits are to be sent; the run goes on behind it.
    Accepted(Planner, Vec<RawHit>),
    /// The hits so far are to be sent; what comes next is a fault of the device.
    Fault(Vec<RawHit>, String),
}

impl Planner {
    /// Settles a batch by its outcome. An overrun batch is discarded whole and
    /// run again at half its length; every record of any other is checked.
    pub fn settle(
        &self,
        kernel: &TailKernel,
        matcher: &Matcher,
        b: Batch,
        outcome: BatchOutcome,
    ) -> (r: Settled)
        requires
            self.is_due(b),
        ensures
            ({
                let search = matcher.search();
                let deployer = kernel.deployer();
                match (outcome, r) {
                    (BatchOutcome::Overflow, Settled::Retry(c)) => {
                        &&& self.is_due(c)
                        &&& c.requested == b.requested
                        &&& c.len == (if b.len > 1 {
                            b.len / 2
                        } else {
                            1
                        })
                    },
                    (BatchOutcome::Hits(records), Settled::Accepted(p, hits)) => {
                        &&& hits_of_records(hits@, search, deployer, b, records@)
                        &&& hits@.len() == records@.len()
                        &&& self.is_followed_by(p, b)
                    },
                    (BatchOutcome::Hits(records), Settled::Fault(hits, e)) => {
                        &&& hits_of_records(hits@, search, deployer, b, records@)
                        &&& hits@.len() < records@.len()
                        &&& e@ == record_objection(
                            search,
                            deployer,
                            b,
                            records@[hits@.len() as int],
                        )
                    },
                    _ => false,
                }
            }),
    {
        match outcome {
            BatchOutcome::Overflow => Settled::Retry(b.shrunk()),
            BatchOutcome::Hits(records) => {
                let mut hits: Vec<RawHit> = Vec::new();
                let mut i: usize = 0;
                while i < records.len()
                    invariant
                        i <= records@.len(),
                        b.valid(),
                        hits@.len() == i,
                        forall|k: int|
                            0 <= k < i ==> {
                                &&& record_holds(
                                    matcher.search(),
                                    kernel.deployer(),
                                    b,
                                    records@[k],
                                )
                                &&& (#[trigger] hits@[k]).salt == b.first + records@[k].0
                                &&& hits@[k].is_hit_of(matcher.search(), kernel.deployer())
                            },
                        outcome == BatchOutcome::Hits(records),
                    decreases records@.len() - i,
                {
                    match take_record(kernel, matcher, &b, records[i]) {
                        Ok(hit) => hits.push(hit),
                        Err(e) => {
                            return Settled::Fault(hits, e);
                        },
                    }
                    i = i + 1;
                }
                Settled::Accepted(self.accept(b), hits)
            },
        }
    }
}

/// A device that reports, of each salt, the first entry that its window meets
/// reports what the matcher finds: a hit where there is one, and that hit.
pub proof fn devices_find_the_same(
    search: mine::Search,
    es: Seq<entries::Entry>,
    deployer: Seq<u8>,
    salt: u128,
)
    requires
        deployer.len() == 20,
        forall|window: u128| #[trigger]
            entries::names(
                entries::first_met(es, window),
                search.words,
                mine::hit_in(search, entries::shown(window)),
            ),
    ensures
        ({
            let window = kernel::tail_window(deployer, salt);
            match entries::first_met(es, window) {
                Some(e) => agrees(search, window, e.word, e.pos) && mine::hit_of(
                    search,
                    deployer,
                    salt,
                ) is Some,
                None => mine::hit_of(search, deployer, salt) is None,
            }
        }),
{
    let window = kernel::tail_window(deployer, salt);
    kernel::window_top_bytes_are_the_tail(deployer, salt);
    assert(entries::names(
        entries::first_met(es, window),
        search.words,
        mine::hit_in(search, entries::shown(window)),
    ));
}

} // verus!
