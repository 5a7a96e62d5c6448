use b20crunch::mine::{plan, quotas, try_salt, HitRecord, MineOpts, Pos, RawHit};
use b20crunch::scan::{Step, Worker};
use b20crunch::{b20, words};
use std::path::PathBuf;

const DEPLOYER: [u8; 20] = [0x11; 20];

fn opts(word_list: &str, start: u128, count: Option<u64>, workers: usize) -> MineOpts {
    MineOpts {
        deployer: DEPLOYER,
        words: words::parse_words(word_list).unwrap(),
        positions: words::Positions::Ends,
        inner_min: 6,
        start,
        count,
        workers,
        out: PathBuf::from("hits.jsonl"),
    }
}

/// Runs the workers one after another; the hits and the salts scanned.
fn run(opts: &MineOpts) -> (Vec<RawHit>, u64) {
    let p = plan(opts).unwrap_or_else(|e| panic!("{e}"));
    let mut hits = Vec::new();
    let mut scanned = 0u64;
    for wid in 0..opts.workers {
        let quota = p.quotas.as_ref().map(|q| q[wid]);
        let mut w = Worker::new(
            opts.deployer,
            opts.start,
            wid as u128,
            opts.workers as u128,
            quota,
        );
        loop {
            let (next, step) = w.advance(&p.matcher);
            w = next;
            match step {
                Step::Hit(h) => hits.push(h),
                Step::Look(n) => scanned += n,
                Step::Done(n) => {
                    scanned += n;
                    break;
                }
            }
        }
    }
    (hits, scanned)
}

fn hex32(salt: u128) -> String {
    let bytes = b20::salt_bytes(salt);
    let mut out = vec![0u8; 64];
    b20::hex_lower(&bytes, &mut out);
    String::from_utf8(out).unwrap()
}

#[test]
fn mined_hits_rederive_and_stand_where_they_say() {
    let deployer = b20::parse_address("0x1111111111111111111111111111111111111111").unwrap();
    let (raw, scanned) = run(&opts("dead", 0, Some(500_000), 2));
    assert_eq!(scanned, 500_000);
    let hits: Vec<HitRecord> = raw.into_iter().map(HitRecord::of).collect();

    // p = ~2/16^4 per salt -> ~15 expected hits in 500k salts
    assert!(hits.len() > 5, "suspiciously few hits: {}", hits.len());
    for h in &hits {
        let salt: u128 = h.salt.parse().unwrap();
        let tail = b20::tail(&deployer, salt);
        assert_eq!(h.asset_address, b20::eip55(&b20::b20_address(&tail, 0)));
        assert_eq!(
            h.stablecoin_address,
            b20::eip55(&b20::b20_address(&tail, 1))
        );
        match h.position.as_str() {
            "prefix" => assert!(h.tail.starts_with(&h.word)),
            "suffix" => assert!(h.tail.ends_with(&h.word)),
            other => panic!("unexpected position {other}"),
        }
        assert_eq!(h.salt_bytes32, format!("0x{}", hex32(salt)));
    }
}

#[test]
fn any_number_of_workers_finds_the_same() {
    let key = |hits: Vec<RawHit>| {
        let mut k: Vec<(u128, String)> = hits.into_iter().map(|h| (h.salt, h.word)).collect();
        k.sort();
        k
    };
    let (one, n) = run(&opts("de,ad0", 1000, Some(50_001), 1));
    assert_eq!(n, 50_001);
    let one = key(one);
    assert!(one.len() > 100);
    for workers in [2, 3, 7] {
        let (many, n) = run(&opts("de,ad0", 1000, Some(50_001), workers));
        assert_eq!(n, 50_001);
        assert_eq!(key(many), one);
    }
    // two runs, the second from where the first ended
    let (a, _) = run(&opts("de,ad0", 1000, Some(20_000), 3));
    let (b, _) = run(&opts("de,ad0", 21_000, Some(30_001), 2));
    let mut both = key(a);
    both.extend(key(b));
    assert_eq!(both, one);
}

#[test]
fn quotas_split_exactly() {
    assert_eq!(quotas(10, 4), vec![3, 3, 2, 2]);
    assert_eq!(quotas(3, 4), vec![1, 1, 1, 0]);
    assert_eq!(quotas(u64::MAX, 2), vec![1 << 63, (1 << 63) - 1]);
    for (count, workers) in [(0u64, 1usize), (1, 8), (65_537, 3)] {
        assert_eq!(quotas(count, workers).iter().sum::<u64>(), count);
    }
}

#[test]
fn no_worker_is_an_error() {
    match plan(&opts("dead", 0, None, 0)) {
        Err(e) => assert_eq!(e, "--workers must be at least 1"),
        Ok(_) => panic!("a plan without workers"),
    }
    match plan(&opts("dead", 0, None, 1)) {
        Ok(p) => assert!(p.quotas.is_none()),
        Err(e) => panic!("{e}"),
    }
}

#[test]
fn the_range_ends_at_the_last_salt() {
    // eleven salts are left, of a hundred that are asked for
    let (_, n) = run(&opts("dead", u128::MAX - 10, Some(100), 3));
    assert_eq!(n, 11);
    let (_, n) = run(&opts("dead", u128::MAX, None, 3));
    assert_eq!(n, 1);
}

#[test]
fn a_worker_looks_up_every_65536_salts() {
    let p = plan(&opts("dddddddddddddddddd", 0, Some(65_536), 1)).unwrap_or_else(|e| panic!("{e}"));
    let w = Worker::new(DEPLOYER, 0, 0, 1, Some(65_536));
    let (w, step) = w.advance(&p.matcher);
    assert!(matches!(step, Step::Look(65_536)));
    let (_, step) = w.advance(&p.matcher);
    assert!(matches!(step, Step::Done(0)));
}

#[test]
fn a_hit_that_was_not_sent_is_not_counted() {
    // salt 1 gives a tail that starts with 8e
    let p = plan(&opts("8e", 0, None, 1)).unwrap_or_else(|e| panic!("{e}"));
    let w = Worker::new(DEPLOYER, 0, 0, 1, None);
    let (w, step) = w.advance(&p.matcher);
    match step {
        Step::Hit(h) => assert_eq!((h.salt, h.word.as_str(), h.pos), (1, "8e", Pos::Prefix)),
        _ => panic!("no hit"),
    }
    assert_eq!(w.give_up(), 1);
}

#[test]
fn the_record_of_the_documented_salt() {
    let (hits, _) = run(&opts("c0ffee", 2_000_763, Some(1), 1));
    assert_eq!(hits.len(), 1);
    let rec = HitRecord::of(hits.into_iter().next().unwrap());
    assert_eq!(rec.word, "c0ffee");
    assert_eq!(rec.position, "prefix");
    assert_eq!(rec.salt, "2000763");
    assert_eq!(
        rec.salt_bytes32,
        "0x00000000000000000000000000000000000000000000000000000000001e877b"
    );
    assert_eq!(rec.tail, "c0ffeea7f58d19c4ef");
    assert_eq!(
        rec.asset_address,
        "0xB200000000000000000000c0FFeeA7F58D19C4Ef"
    );
    assert_eq!(
        rec.line(),
        format!(
            "{:>18} {:<6} salt={:<12} {}",
            rec.word, rec.position, rec.salt, rec.asset_address
        )
    );
    assert_eq!(
        rec.line(),
        "            c0ffee prefix salt=2000763      0xB200000000000000000000c0FFeeA7F58D19C4Ef"
    );
}

#[test]
fn a_walk_stopped_at_a_look_has_sent_its_hits() {
    let p = plan(&opts("dead,be", 7, None, 3)).unwrap_or_else(|e| panic!("{e}"));
    let mut w = Worker::new(DEPLOYER, 7, 1, 3, None);
    let mut hits = Vec::new();
    let reported = loop {
        let (next, step) = w.advance(&p.matcher);
        w = next;
        match step {
            Step::Hit(h) => hits.push(h.salt),
            Step::Look(n) => break n,
            Step::Done(_) => panic!("the walk has no end here"),
        }
    };
    assert_eq!(reported, 65_536);
    let expect: Vec<u128> = (0..65_536u128)
        .map(|k| 8 + 3 * k)
        .filter(|&salt| try_salt(&p.matcher, &DEPLOYER, salt).is_some())
        .collect();
    assert!(expect.len() > 100);
    assert_eq!(hits, expect);
    assert_eq!(w.give_up(), 0);
}
