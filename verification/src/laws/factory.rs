//! What is said of the factory's answers.

use crate::b20;
use crate::chain;
use crate::chain::{Answer, Check};
use crate::laws::records;
use crate::mine::HitRecord;
use crate::text;
use crate::words;
use vstd::prelude::*;

verus! {

/// Whether a text goes on, from `k` on, as `part` says.
pub open spec fn reads_at(s: Seq<char>, k: int, part: Seq<char>) -> bool {
    0 <= k && k + part.len() <= s.len() && s.subrange(k, k + part.len()) == part
}

/// A checksummed address has 42 characters.
proof fn shown_addresses_have_their_length(a: Seq<u8>)
    requires
        a.len() == 20,
    ensures
        b20::eip55_text(a).len() == 42,
{
    reveal_strlit("0x");
}

/// Where the parts of a line about a variant begin, and what they are.
proof fn lines_say(label: Seq<char>, address: Seq<u8>, taken: bool, same: bool)
    requires
        label.len() == 12,
        address.len() == 20,
    ensures
        ({
            let s = chain::variant_line(label, address, taken, same);
            let k = 69 + if taken {
                4int
            } else {
                5int
            };
            &&& s.take(12) == label
            &&& s.subrange(12, 54) == b20::eip55_text(address)
            &&& reads_at(s, 54, " (initialized: "@)
            &&& reads_at(s, 69, "true"@) <==> taken
            &&& reads_at(s, 69, "false"@) <==> !taken
            &&& reads_at(s, k, ", local derivation "@)
            &&& s.skip(k + 19) == if same {
                "matches)"@
            } else {
                "MISMATCH)"@
            }
        }),
{
    shown_addresses_have_their_length(address);
    reveal_strlit(" (initialized: ");
    reveal_strlit("true");
    reveal_strlit("false");
    reveal_strlit(", local derivation ");
    reveal_strlit("matches");
    reveal_strlit("MISMATCH");
    reveal_strlit("matches)");
    reveal_strlit("MISMATCH)");
    reveal_strlit(")");
    let s = chain::variant_line(label, address, taken, same);
    let k = 69 + if taken {
        4int
    } else {
        5int
    };
    assert(s.take(12) =~= label);
    assert(s.subrange(12, 54) =~= b20::eip55_text(address));
    assert(s.subrange(54, 69) =~= " (initialized: "@);
    assert(s[69] == if taken {
        't'
    } else {
        'f'
    });
    if taken {
        assert(s.subrange(69, 73) =~= "true"@);
        assert(s.subrange(69, 74)[0] == s[69] && "false"@[0] == 'f');
    } else {
        assert(s.subrange(69, 74) =~= "false"@);
        assert(s.subrange(69, 73)[0] == s[69] && "true"@[0] == 't');
    }
    assert(s.subrange(k, k + 19) =~= ", local derivation "@);
    assert(s.skip(k + 19) =~= if same {
        "matches)"@
    } else {
        "MISMATCH)"@
    });
}

/// The report says of each variant whether that variant is initialized: its line reads
/// `(initialized: true`, behind the label and the address, exactly if its own flag is
/// set, and `(initialized: false` exactly if it is not.
pub proof fn reports_tell_what_is_initialized(
    deployer: &[u8; 20],
    salt: u128,
    answer: &Answer,
    lines: Vec<String>,
)
    requires
        call_ensures(chain::report, (deployer, salt, answer), lines),
    ensures
        lines@.len() == 4,
        reads_at(lines@[2]@, 54, " (initialized: true"@) <==> answer.asset_taken,
        reads_at(lines@[2]@, 54, " (initialized: false"@) <==> !answer.asset_taken,
        reads_at(lines@[3]@, 54, " (initialized: true"@) <==> answer.stable_taken,
        reads_at(lines@[3]@, 54, " (initialized: false"@) <==> !answer.stable_taken,
{
    let all = words::texts(lines@);
    assert(all.len() == lines@.len());
    assert(all[2] == lines@[2]@ && all[3] == lines@[3]@);
    reveal_strlit("asset:      ");
    reveal_strlit("stablecoin: ");
    lines_say(
        "asset:      "@,
        answer.asset@,
        answer.asset_taken,
        chain::derives(answer.asset@, deployer@, salt, 0),
    );
    lines_say(
        "stablecoin: "@,
        answer.stable@,
        answer.stable_taken,
        chain::derives(answer.stable@, deployer@, salt, 1),
    );
    joined_parts(lines@[2]@, answer.asset_taken);
    joined_parts(lines@[3]@, answer.stable_taken);
}

/// Two parts that follow each other read as one.
proof fn joined_parts(s: Seq<char>, taken: bool)
    requires
        reads_at(s, 54, " (initialized: "@),
        reads_at(s, 69, "true"@) <==> taken,
        reads_at(s, 69, "false"@) <==> !taken,
    ensures
        reads_at(s, 54, " (initialized: true"@) <==> taken,
        reads_at(s, 54, " (initialized: false"@) <==> !taken,
{
    reveal_strlit(" (initialized: ");
    reveal_strlit("true");
    reveal_strlit("false");
    reveal_strlit(" (initialized: true");
    reveal_strlit(" (initialized: false");
    assert(" (initialized: true"@ =~= " (initialized: "@ + "true"@);
    assert(" (initialized: false"@ =~= " (initialized: "@ + "false"@);
    if taken {
        assert(s.subrange(54, 73) =~= s.subrange(54, 69) + s.subrange(69, 73));
        if reads_at(s, 54, " (initialized: false"@) {
            assert(s.subrange(69, 74) =~= s.subrange(54, 74).subrange(15, 20));
            assert(" (initialized: false"@.subrange(15, 20) =~= "false"@);
        }
    } else {
        assert(s.subrange(54, 74) =~= s.subrange(54, 69) + s.subrange(69, 74));
        if reads_at(s, 54, " (initialized: true"@) {
            assert(s.subrange(69, 73) =~= s.subrange(54, 73).subrange(15, 19));
            assert(" (initialized: true"@.subrange(15, 19) =~= "true"@);
        }
    }
}

/// There is one token address of a variant and a tail.
proof fn one_token(a: Seq<u8>, b: Seq<u8>, variant: u8, tail: Seq<u8>)
    requires
        records::is_token(a, variant, tail),
        records::is_token(b, variant, tail),
    ensures
        a == b,
{
    assert forall|i: int| 0 <= i < 20 implies a[i] == b[i] by {
        if i >= 11 {
            let j = i - 11;
            assert(a[11 + j] == tail[j]);
        }
    }
    assert(a =~= b);
}

/// The factory derives what is derived here exactly where its address is the token
/// address of the salt's tail.
proof fn derived_addresses(
    address: Seq<u8>,
    deployer: &[u8; 20],
    salt: u128,
    variant: u8,
    tail: [u8; 9],
)
    requires
        address.len() == 20,
        call_ensures(b20::tail, (deployer, salt), tail),
    ensures
        chain::derives(address, deployer@, salt, variant) <==> records::is_token(
            address,
            variant,
            tail@,
        ),
{
    let own = b20::address_of(tail@, variant);
    assert(records::is_token(own, variant, tail@));
    if records::is_token(address, variant, tail@) {
        one_token(address, own, variant, tail@);
    }
}

/// The report shows each variant's address behind its label, and says `matches`
/// exactly of an address that is the token address of the salt's tail: of variant 0
/// for ASSET, of variant 1 for STABLECOIN.
pub proof fn reports_tell_what_matches(
    deployer: &[u8; 20],
    salt: u128,
    answer: &Answer,
    lines: Vec<String>,
    tail: [u8; 9],
    asset: String,
    stable: String,
)
    requires
        call_ensures(chain::report, (deployer, salt, answer), lines),
        call_ensures(b20::tail, (deployer, salt), tail),
        call_ensures(b20::eip55, (&answer.asset,), asset),
        call_ensures(b20::eip55, (&answer.stable,), stable),
    ensures
        lines@.len() == 4,
        lines@[2]@.take(54) == "asset:      "@ + asset@,
        lines@[3]@.take(54) == "stablecoin: "@ + stable@,
        ends_as(lines@[2]@, records::is_token(answer.asset@, 0, tail@)),
        ends_as(lines@[3]@, records::is_token(answer.stable@, 1, tail@)),
{
    let all = words::texts(lines@);
    assert(all.len() == lines@.len());
    assert(all[2] == lines@[2]@ && all[3] == lines@[3]@);
    reveal_strlit("asset:      ");
    reveal_strlit("stablecoin: ");
    derived_addresses(answer.asset@, deployer, salt, 0, tail);
    derived_addresses(answer.stable@, deployer, salt, 1, tail);
    let (a, b) = (
        chain::derives(answer.asset@, deployer@, salt, 0),
        chain::derives(answer.stable@, deployer@, salt, 1),
    );
    lines_say("asset:      "@, answer.asset@, answer.asset_taken, a);
    lines_say("stablecoin: "@, answer.stable@, answer.stable_taken, b);
    shown_addresses_have_their_length(answer.asset@);
    shown_addresses_have_their_length(answer.stable@);
    let (s, t) = (lines@[2]@, lines@[3]@);
    assert(s.take(54) =~= s.take(12) + s.subrange(12, 54));
    assert(t.take(54) =~= t.take(12) + t.subrange(12, 54));
    line_ends(s, answer.asset_taken, a);
    line_ends(t, answer.stable_taken, b);
}

/// Whether a line ends by saying that the local derivation matches, or by saying that
/// it does not.
pub open spec fn ends_as(s: Seq<char>, same: bool) -> bool {
    let (yes, no) = (", local derivation matches)"@, ", local derivation MISMATCH)"@);
    &&& reads_at(s, s.len() - yes.len(), yes) <==> same
    &&& reads_at(s, s.len() - no.len(), no) <==> !same
}

proof fn line_ends(s: Seq<char>, taken: bool, same: bool)
    requires
        ({
            let k = 69 + if taken {
                4int
            } else {
                5int
            };
            &&& reads_at(s, k, ", local derivation "@)
            &&& s.skip(k + 19) == if same {
                "matches)"@
            } else {
                "MISMATCH)"@
            }
        }),
    ensures
        ends_as(s, same),
{
    reveal_strlit(", local derivation ");
    reveal_strlit("matches)");
    reveal_strlit("MISMATCH)");
    reveal_strlit(", local derivation matches)");
    reveal_strlit(", local derivation MISMATCH)");
    let (yes, no) = (", local derivation matches)"@, ", local derivation MISMATCH)"@);
    let k = 69 + if taken {
        4int
    } else {
        5int
    };
    assert(yes =~= ", local derivation "@ + "matches)"@);
    assert(no =~= ", local derivation "@ + "MISMATCH)"@);
    assert(s.subrange(k, s.len() as int) =~= s.subrange(k, k + 19) + s.skip(k + 19));
    let n = s.len() as int;
    assert(s.skip(k + 19)[n - k - 21] == s[n - 2]);
    assert(s[n - 2] == if same {
        's'
    } else {
        'H'
    });
    if same && reads_at(s, n - no.len(), no) {
        assert(s.subrange(n - no.len(), n)[no.len() - 2] == s[n - 2]);
    }
    if !same && reads_at(s, n - yes.len(), yes) {
        assert(s.subrange(n - yes.len(), n)[yes.len() - 2] == s[n - 2]);
    }
}

/// The first lines of a report show the deployer's address, and the salt as a decimal
/// number and as the 64 hexadecimal digits of its 32 bytes.
pub proof fn reports_begin_with_the_question(
    deployer: &[u8; 20],
    salt: u128,
    answer: &Answer,
    lines: Vec<String>,
    shown: String,
    number: String,
)
    requires
        call_ensures(chain::report, (deployer, salt, answer), lines),
        call_ensures(b20::eip55, (deployer,), shown),
        call_ensures(text::decimal, (salt,), number),
    ensures
        lines@.len() == 4,
        lines@[0]@ == "deployer:   "@ + shown@,
        exists|hex: Seq<char>|
            lines@[1]@ == "salt:       "@ + number@ + " (0x"@ + #[trigger] (hex + ")"@) && hex.len()
                == 64 && records::is_hex_text(hex) && records::hex_value(hex) == salt,
{
    let all = words::texts(lines@);
    assert(all.len() == lines@.len());
    assert(all[0] == lines@[0]@ && all[1] == lines@[1]@);
    let hex = text::chars_of(text::hex_of(b20::salt_be(salt)));
    b20::salt_bytes_hold_the_salt(salt);
    records::hex_text_holds_the_bytes(b20::salt_be(salt));
    assert(lines@[1]@ =~= "salt:       "@ + number@ + " (0x"@ + (hex + ")"@));
}

/// A salt stands the check exactly if the factory derives the token addresses of its
/// tail, and the expected address, if there is one, is that of ASSET. Another
/// derivation is an error, whatever was expected.
pub proof fn verdicts(
    deployer: &[u8; 20],
    salt: u128,
    answer: &Answer,
    expect: Option<[u8; 20]>,
    r: Result<(bool, Option<String>), String>,
    tail: [u8; 9],
)
    requires
        call_ensures(chain::verdict, (deployer, salt, answer, expect), r),
        call_ensures(b20::tail, (deployer, salt), tail),
    ensures
        r is Ok <==> records::is_token(answer.asset@, 0, tail@) && records::is_token(
            answer.stable@,
            1,
            tail@,
        ),
        r matches Err(e) ==> e@ == "local derivation disagrees with the factory; file a bug"@,
        r matches Ok(t) ==> {
            &&& t.0 <==> (expect matches Some(e) ==> e@ == answer.asset@)
            &&& t.1 is Some <==> expect is Some
            &&& t.1 matches Some(said) ==> (said@ == "RESULT: MATCH"@ <==> t.0)
        },
        forall|shown: String|
            (r matches Ok(t) && !t.0 && expect is Some && #[trigger] call_ensures(
                b20::eip55,
                (&expect->0,),
                shown,
            )) ==> r->Ok_0.1->0@ == "RESULT: MISMATCH (expected "@ + shown@ + ")"@,
{
    derived_addresses(answer.asset@, deployer, salt, 0, tail);
    derived_addresses(answer.stable@, deployer, salt, 1, tail);
    reveal_strlit("RESULT: MATCH");
    reveal_strlit("RESULT: MISMATCH (expected ");
    if let Ok(t) = r {
        if let Some(said) = t.1 {
            if !t.0 {
                assert(said@[9] == 'I');
                assert("RESULT: MATCH"@[9] == 'A');
            }
        }
    }
}

/// Whether two texts are the same but for the case of the letters `A` to `Z`.
pub open spec fn alike(s: Seq<char>, t: Seq<char>) -> bool {
    &&& s.len() == t.len()
    &&& forall|i: int|
        0 <= i < s.len() ==> {
            ||| #[trigger] s[i] == t[i]
            ||| 'A' <= s[i] <= 'Z' && t[i] as int == s[i] as int + 32
            ||| 'A' <= t[i] <= 'Z' && s[i] as int == t[i] as int + 32
        }
}

/// Texts are compared without regard to the case of the letters `A` to `Z`, and to
/// nothing else.
pub proof fn texts_alike(a: &str, b: &str, r: bool)
    requires
        call_ensures(text::eq_ignoring_case, (a, b), r),
    ensures
        r <==> alike(a@, b@),
{
    same_is_alike(a@, b@);
}

proof fn same_is_alike(s: Seq<char>, t: Seq<char>)
    ensures
        text::same_ignoring_case(s, t) <==> alike(s, t),
{
    let (a, b) = (
        s.map_values(|c: char| text::lower_char(c)),
        t.map_values(|c: char| text::lower_char(c)),
    );
    if a == b {
        assert(s.len() == a.len() && t.len() == b.len());
        assert forall|i: int| 0 <= i < s.len() implies {
            ||| #[trigger] s[i] == t[i]
            ||| 'A' <= s[i] <= 'Z' && t[i] as int == s[i] as int + 32
            ||| 'A' <= t[i] <= 'Z' && s[i] as int == t[i] as int + 32
        } by {
            assert(a[i] == text::lower_char(s[i]) && b[i] == text::lower_char(t[i]));
        }
    }
    if alike(s, t) {
        assert forall|i: int| 0 <= i < s.len() implies a[i] == b[i] by {
            assert(s[i] == s[i]);
        }
        assert(a =~= b);
    }
}

/// A recorded hit is confirmed exactly if both of its addresses are, but for the case
/// of letters, those that the factory derives; one that is not is counted. Its line
/// says that it is a mismatch exactly if it is not confirmed; else whether its ASSET
/// address is taken.
pub proof fn recorded_hits_are_checked(
    c: Check,
    rec: &HitRecord,
    asset: &[u8; 20],
    stable: &[u8; 20],
    taken: bool,
    r: (Check, String),
    asset_text: String,
    stable_text: String,
)
    requires
        c.mismatches < usize::MAX,
        call_ensures(Check::hit, (c, rec, asset, stable, taken), r),
        call_ensures(b20::eip55, (asset,), asset_text),
        call_ensures(b20::eip55, (stable,), stable_text),
    ensures
        ({
            let confirmed = alike(asset_text@, rec.asset_address@) && alike(
                stable_text@,
                rec.stablecoin_address@,
            );
            let said = rec.word@ + " salt="@ + rec.salt@ + " factory="@ + asset_text@;
            &&& r.0.mismatches == c.mismatches <==> confirmed
            &&& r.0.mismatches == c.mismatches + 1 <==> !confirmed
            &&& !confirmed ==> r.1@ == said + " DERIVATION MISMATCH"@
            &&& confirmed && taken ==> r.1@ == said + " already initialized!"@
            &&& confirmed && !taken ==> r.1@ == said + " ok, available"@
        }),
{
    same_is_alike(asset_text@, rec.asset_address@);
    same_is_alike(stable_text@, rec.stablecoin_address@);
    reveal_strlit(" ");
    reveal_strlit("DERIVATION MISMATCH");
    reveal_strlit(" DERIVATION MISMATCH");
    reveal_strlit("already initialized!");
    reveal_strlit(" already initialized!");
    reveal_strlit("ok, available");
    reveal_strlit(" ok, available");
    assert(" DERIVATION MISMATCH"@ =~= " "@ + "DERIVATION MISMATCH"@);
    assert(" already initialized!"@ =~= " "@ + "already initialized!"@);
    assert(" ok, available"@ =~= " "@ + "ok, available"@);
    let said = rec.word@ + " salt="@ + rec.salt@ + " factory="@ + asset_text@;
    let state = chain::state_text(chain::confirms(*rec, asset@, stable@), taken);
    assert(r.1@ =~= said + (" "@ + state));
}

/// A check of nothing finds nothing; a check ends well exactly if every hit was
/// confirmed, and else says how many were not.
pub proof fn checks_end(fresh: Check, c: Check, r: Result<(), String>, number: String)
    requires
        call_ensures(Check::new, (), fresh),
        call_ensures(Check::finish, (c,), r),
        call_ensures(text::decimal, (c.mismatches as u128,), number),
    ensures
        fresh.mismatches == 0,
        r is Ok <==> c.mismatches == 0,
        r matches Err(e) ==> e@ == number@
            + " hit(s) disagree with the factory derivation; file a bug"@,
{
}

/// The factory stands at 0xB20f and zeros.
pub proof fn the_factory_stands_there()
    ensures
        chain::FACTORY@.len() == 20,
        chain::FACTORY@[0] == 0xB2 && chain::FACTORY@[1] == 0x0f,
        forall|i: int| 2 <= i < 20 ==> #[trigger] chain::FACTORY@[i] == 0,
        chain::DEFAULT_RPC@ == "https://mainnet.base.org"@,
{
}

} // verus!
