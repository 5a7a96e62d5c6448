use b20crunch::chain::{self, Answer, Check, FACTORY};
use b20crunch::mine::{HitRecord, Pos, RawHit};
use b20crunch::{b20, text};

const DEPLOYER: [u8; 20] = [0x11; 20];

fn answer(salt: u128) -> Answer {
    let tail = b20::tail(&DEPLOYER, salt);
    Answer {
        asset: b20::b20_address(&tail, 0),
        stable: b20::b20_address(&tail, 1),
        asset_taken: false,
        stable_taken: true,
    }
}

#[test]
fn factory_constant() {
    assert_eq!(
        b20::eip55(&FACTORY),
        "0xB20f000000000000000000000000000000000000"
    );
}

#[test]
fn default_rpc_is_base_mainnet() {
    assert_eq!(chain::DEFAULT_RPC, "https://mainnet.base.org");
}

#[test]
fn report_of_a_salt() {
    let lines = chain::report(&DEPLOYER, 42, &answer(42));
    assert_eq!(
        lines,
        vec![
            "deployer:   0x1111111111111111111111111111111111111111",
            "salt:       42 (0x000000000000000000000000000000000000000000000000000000000000002a)",
            "asset:      0xB200000000000000000000C775cB6F4825b8f8A4 (initialized: false, local derivation matches)",
            "stablecoin: 0xb200000000000000000001C775cb6F4825b8f8a4 (initialized: true, local derivation matches)",
        ]
    );
    let mut other = answer(42);
    other.asset = answer(43).asset;
    let lines = chain::report(&DEPLOYER, 42, &other);
    assert!(lines[2].ends_with("local derivation MISMATCH)"));
    assert!(lines[3].ends_with("local derivation matches)"));
}

#[test]
fn verdicts() {
    let a = answer(42);
    assert_eq!(chain::verdict(&DEPLOYER, 42, &a, None), Ok((true, None)));
    assert_eq!(
        chain::verdict(&DEPLOYER, 42, &a, Some(a.asset)),
        Ok((true, Some("RESULT: MATCH".to_string())))
    );
    // the expected address is compared with the ASSET address
    assert_eq!(
        chain::verdict(&DEPLOYER, 42, &a, Some(a.stable)),
        Ok((
            false,
            Some(
                "RESULT: MISMATCH (expected 0xb200000000000000000001C775cb6F4825b8f8a4)"
                    .to_string()
            )
        ))
    );
    for salt in [41, 43] {
        assert_eq!(
            chain::verdict(&DEPLOYER, salt, &a, Some(a.asset)),
            Err("local derivation disagrees with the factory; file a bug".to_string())
        );
    }
    let mut half = answer(42);
    half.stable = half.asset;
    assert!(chain::verdict(&DEPLOYER, 42, &half, None).is_err());
}

fn record(salt: u128) -> HitRecord {
    HitRecord::of(RawHit {
        word: "c775".to_string(),
        pos: Pos::Prefix,
        salt,
        tail: b20::tail(&DEPLOYER, salt),
    })
}

#[test]
fn mined_hits_are_confirmed() {
    let rec = record(42);
    let a = answer(42);
    assert_eq!(text::parse_decimal(&rec.salt), Some(42));
    let (check, line) = Check::new().hit(&rec, &a.asset, &a.stable, false);
    assert_eq!(
        line,
        "c775 salt=42 factory=0xB200000000000000000000C775cB6F4825b8f8A4 ok, available"
    );
    let (check, line) = check.hit(&rec, &a.asset, &a.stable, true);
    assert!(line.ends_with(" already initialized!"));
    assert_eq!(check.finish(), Ok(()));
}

#[test]
fn casing_does_not_count_against_a_record() {
    let mut rec = record(42);
    rec.asset_address = rec.asset_address.to_uppercase();
    let a = answer(42);
    let (check, _) = Check::new().hit(&rec, &a.asset, &a.stable, false);
    assert_eq!(check.finish(), Ok(()));
}

#[test]
fn mismatches_are_counted() {
    let (rec, a, b) = (record(42), answer(42), answer(43));
    let (check, line) = Check::new().hit(&rec, &b.asset, &a.stable, true);
    assert!(line.ends_with(" DERIVATION MISMATCH"));
    let (check, _) = check.hit(&rec, &a.asset, &a.stable, false);
    let (check, _) = check.hit(&rec, &a.asset, &b.stable, false);
    assert_eq!(
        check.finish(),
        Err("2 hit(s) disagree with the factory derivation; file a bug".to_string())
    );
}
