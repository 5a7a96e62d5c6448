//! What the factory on chain answers, held against what is derived here.

use crate::b20;
use crate::mine::{self, HitRecord};
use crate::text;
use crate::words;
use vstd::prelude::*;

verus! {

/// The factory's address: 0xB20f and eighteen zero bytes.
pub const FACTORY: [u8; 20] = [
    0xB2,
    0x0f,
    0,
    0,
    0,
    0,
    0,
    0,
    0,
    0,
    0,
    0,
    0,
    0,
    0,
    0,
    0,
    0,
    0,
    0,
];

/// Where the factory is asked when nothing else is said.
pub const DEFAULT_RPC: &'static str = "https://mainnet.base.org";

/// What the factory says of a deployer's salt: the addresses of both variants,
/// and whether a token was created there already.
pub struct Answer {
    pub asset: [u8; 20],
    pub stable: [u8; 20],
    pub asset_taken: bool,
    pub stable_taken: bool,
}

/// Whether the factory derives, as variant `variant`, the address that is derived here.
pub open spec fn derives(address: Seq<u8>, deployer: Seq<u8>, salt: u128, variant: u8) -> bool {
    address == b20::address_of(b20::tail_of(deployer, salt), variant)
}

/// `true` or `false`.
pub open spec fn bool_text(b: bool) -> Seq<char> {
    if b {
        "true"@
    } else {
        "false"@
    }
}

/// What is said of one variant.
pub open spec fn variant_line(label: Seq<char>, address: Seq<u8>, taken: bool, same: bool) -> Seq<
    char,
> {
    label + b20::eip55_text(address) + " (initialized: "@ + bool_text(taken)
        + ", local derivation "@ + (if same {
        "matches"@
    } else {
        "MISMATCH"@
    }) + ")"@
}

/// What is said of a deployer's salt.
pub open spec fn report_of(deployer: Seq<u8>, salt: u128, answer: Answer) -> Seq<Seq<char>> {
    seq![
        "deployer:   "@ + b20::eip55_text(deployer),
        "salt:       "@ + text::dec_of(salt as nat) + " (0x"@ + text::chars_of(
            text::hex_of(b20::salt_be(salt)),
        ) + ")"@,
        variant_line(
            "asset:      "@,
            answer.asset@,
            answer.asset_taken,
            derives(answer.asset@, deployer, salt, 0),
        ),
        variant_line(
            "stablecoin: "@,
            answer.stable@,
            answer.stable_taken,
            derives(answer.stable@, deployer, salt, 1),
        ),
    ]
}

/// Whether two addresses are the same.
fn same_address(a: &[u8; 20], b: &[u8; 20]) -> (r: bool)
    ensures
        r == (a@ == b@),
{
    let mut i: usize = 0;
    while i < 20
        invariant
            i <= 20,
            forall|k: int| 0 <= k < i ==> a@[k] == b@[k],
        decreases 20 - i,
    {
        if a[i] != b[i] {
            return false;
        }
        i = i + 1;
    }
    assert(a@ =~= b@);
    true
}

/// What is said of one variant.
fn describe(label: &str, address: &[u8; 20], taken: bool, same: bool) -> (s: String)
    ensures
        s@ == variant_line(label@, address@, taken, same),
{
    let mut s = label.to_owned();
    let shown = b20::eip55(address);
    s.append(&shown);
    s.append(" (initialized: ");
    s.append(
        if taken {
            "true"
        } else {
            "false"
        },
    );
    s.append(", local derivation ");
    s.append(
        if same {
            "matches"
        } else {
            "MISMATCH"
        },
    );
    s.append(")");
    s
}

/// The lines that report a deployer's salt, what the factory answered, and
/// whether it derives what is derived here.
pub fn report(deployer: &[u8; 20], salt: u128, answer: &Answer) -> (lines: Vec<String>)
    ensures
        words::texts(lines@) == report_of(deployer@, salt, *answer),
{
    let tail: [u8; 9] = b20::tail(deployer, salt);
    let same_asset: bool = same_address(&answer.asset, &b20::b20_address(&tail, 0));
    let same_stable: bool = same_address(&answer.stable, &b20::b20_address(&tail, 1));
    let mut first = "deployer:   ".to_owned();
    let shown = b20::eip55(deployer);
    first.append(&shown);
    let mut second = "salt:       ".to_owned();
    let number = text::decimal(salt);
    second.append(&number);
    second.append(" (0x");
    let bytes: [u8; 32] = b20::salt_bytes(salt);
    let hex = mine::hex_text(&bytes);
    second.append(&hex);
    second.append(")");
    let third = describe("asset:      ", &answer.asset, answer.asset_taken, same_asset);
    let fourth = describe("stablecoin: ", &answer.stable, answer.stable_taken, same_stable);
    let mut lines: Vec<String> = Vec::new();
    lines.push(first);
    lines.push(second);
    lines.push(third);
    lines.push(fourth);
    assert(words::texts(lines@) =~= report_of(deployer@, salt, *answer));
    lines
}

/// Whether the salt stands the check, and what there is to say of the expected
/// address, if there is one: it is compared with the ASSET address. That the
/// factory derives other addresses than are derived here is an error.
pub fn verdict(
    deployer: &[u8; 20],
    salt: u128,
    answer: &Answer,
    expect: Option<[u8; 20]>,
) -> (r: Result<(bool, Option<String>), String>)
    ensures
        ({
            let same = derives(answer.asset@, deployer@, salt, 0) && derives(
                answer.stable@,
                deployer@,
                salt,
                1,
            );
            match r {
                Ok((stands, said)) => {
                    &&& same
                    &&& match (expect, said) {
                        (None, None) => stands,
                        (Some(e), Some(s)) => {
                            &&& stands == (e@ == answer.asset@)
                            &&& s@ == if stands {
                                "RESULT: MATCH"@
                            } else {
                                "RESULT: MISMATCH (expected "@ + b20::eip55_text(e@) + ")"@
                            }
                        },
                        _ => false,
                    }
                },
                Err(e) => !same && e@ == "local derivation disagrees with the factory; file a bug"@,
            }
        }),
{
    let tail: [u8; 9] = b20::tail(deployer, salt);
    let same_asset: bool = same_address(&answer.asset, &b20::b20_address(&tail, 0));
    let same_stable: bool = same_address(&answer.stable, &b20::b20_address(&tail, 1));
    if !(same_asset && same_stable) {
        return Err("local derivation disagrees with the factory; file a bug".to_owned());
    }
    match expect {
        None => Ok((true, None)),
        Some(e) => {
            if same_address(&e, &answer.asset) {
                Ok((true, Some("RESULT: MATCH".to_owned())))
            } else {
                let mut said = "RESULT: MISMATCH (expected ".to_owned();
                let shown = b20::eip55(&e);
                said.append(&shown);
                said.append(")");
                Ok((false, Some(said)))
            }
        },
    }
}

/// Whether a record names the addresses that the factory derives.
pub open spec fn confirms(rec: HitRecord, asset: Seq<u8>, stable: Seq<u8>) -> bool {
    &&& text::same_ignoring_case(b20::eip55_text(asset), rec.asset_address@)
    &&& text::same_ignoring_case(b20::eip55_text(stable), rec.stablecoin_address@)
}

/// The state of a recorded hit.
pub open spec fn state_text(confirmed: bool, taken: bool) -> Seq<char> {
    if !confirmed {
        "DERIVATION MISMATCH"@
    } else if taken {
        "already initialized!"@
    } else {
        "ok, available"@
    }
}

/// A check of recorded hits, one after another: how many the factory did not confirm.
pub struct Check {
    pub mismatches: usize,
}

impl Check {
    /// A check of nothing yet.
    pub fn new() -> (c: Check)
        ensures
            c.mismatches == 0,
    {
        Check { mismatches: 0 }
    }

    /// Takes what the factory derives for one recorded hit, and whether the
    /// ASSET address is taken; gives the line that says so.
    pub fn hit(self, rec: &HitRecord, asset: &[u8; 20], stable: &[u8; 20], taken: bool) -> (r: (
        Check,
        String,
    ))
        requires
            self.mismatches < usize::MAX,
        ensures
            ({
                let confirmed = confirms(*rec, asset@, stable@);
                &&& r.0.mismatches == self.mismatches + if confirmed {
                    0int
                } else {
                    1int
                }
                &&& r.1@ == rec.word@ + " salt="@ + rec.salt@ + " factory="@ + b20::eip55_text(
                    asset@,
                ) + " "@ + state_text(confirmed, taken)
            }),
    {
        let asset_text = b20::eip55(asset);
        let stable_text = b20::eip55(stable);
        let confirmed: bool = text::eq_ignoring_case(&asset_text, &rec.asset_address)
            && text::eq_ignoring_case(&stable_text, &rec.stablecoin_address);
        let mut line = rec.word.clone();
        line.append(" salt=");
        line.append(&rec.salt);
        line.append(" factory=");
        line.append(&asset_text);
        line.append(" ");
        line.append(
            if !confirmed {
                "DERIVATION MISMATCH"
            } else if taken {
                "already initialized!"
            } else {
                "ok, available"
            },
        );
        let mismatches: usize = if confirmed {
            self.mismatches
        } else {
            self.mismatches + 1
        };
        (Check { mismatches }, line)
    }

    /// A single hit that was not confirmed is an error.
    pub fn finish(self) -> (r: Result<(), String>)
        ensures
            match r {
                Ok(_) => self.mismatches == 0,
                Err(e) => self.mismatches > 0 && e@ == text::dec_of(self.mismatches as nat)
                    + " hit(s) disagree with the factory derivation; file a bug"@,
            },
    {
        if self.mismatches == 0 {
            Ok(())
        } else {
            let mut e = text::decimal(self.mismatches as u128);
            e.append(" hit(s) disagree with the factory derivation; file a bug");
            Err(e)
        }
    }
}

/// The record of a hit says where it came from: its salt reads back, and a
/// factory that derives as it is done here confirms both its addresses.
pub proof fn a_mined_hit_is_confirmed(
    rec: HitRecord,
    hit: mine::RawHit,
    search: mine::Search,
    deployer: Seq<u8>,
    asset: Seq<u8>,
    stable: Seq<u8>,
)
    requires
        rec.records(hit),
        hit.is_hit_of(search, deployer),
        derives(asset, deployer, hit.salt, 0),
        derives(stable, deployer, hit.salt, 1),
    ensures
        text::dec_parse(rec.salt@) == Some(hit.salt),
        confirms(rec, asset, stable),
{
    text::decimal_reads_back(hit.salt);
}

} // verus!
