//! Core data model: markets, positions, configuration.

use vstd::prelude::*;
use vstd::string::{StrSliceExecFns, StringSliceAdditionalSpecFns};

verus! {

/// Account identifier (32 bytes).
pub type AccountId = [u8; 32];

/// Block number.
pub type BlockNumber = u64;

/// Balance type for stakes and payouts.
pub type Balance = u64;

/// Market identifier.
pub type MarketId = u64;

/// Option index within a market.
pub type OptionIndex = u8;

/// Maximum number of options per market.
pub const MAX_OPTIONS: usize = 10;

/// The sum of a sequence of balances, as an unbounded integer.
pub open spec fn total(s: Seq<Balance>) -> int
    decreases s.len(),
{
    if s.len() == 0 {
        0
    } else {
        s[0] + total(s.drop_first())
    }
}

/// Every balance is nonnegative, so a sum of balances is too.
pub proof fn lemma_total_nonneg(s: Seq<Balance>)
    ensures
        0 <= total(s),
    decreases s.len(),
{
    if s.len() > 0 {
        lemma_total_nonneg(s.drop_first());
    }
}

/// Splitting off the last element of a sum.
pub proof fn lemma_total_drop_last(s: Seq<Balance>)
    requires
        s.len() > 0,
    ensures
        total(s) == total(s.drop_last()) + s.last(),
    decreases s.len(),
{
    if s.len() == 1 {
        assert(s.drop_last() =~= Seq::<Balance>::empty());
        assert(s.drop_first() =~= Seq::<Balance>::empty());
    } else {
        lemma_total_drop_last(s.drop_first());
        assert(s.drop_first().drop_last() =~= s.drop_last().drop_first());
        assert(s.drop_last()[0] == s[0]);
    }
}

/// Changing one slot changes the sum by exactly the difference at that slot.
pub proof fn lemma_total_update(s: Seq<Balance>, i: int, v: Balance)
    requires
        0 <= i < s.len(),
    ensures
        total(s.update(i, v)) == total(s) - s[i] + v,
    decreases s.len(),
{
    if i == 0 {
        assert(s.update(0, v).drop_first() =~= s.drop_first());
        assert(s.update(0, v)[0] == v);
    } else {
        lemma_total_update(s.drop_first(), i - 1, v);
        assert(s.update(i, v).drop_first() =~= s.drop_first().update(i - 1, v));
        assert(s.update(i, v)[0] == s[0]);
    }
}

/// A single slot never exceeds the sum of all slots.
pub proof fn lemma_total_slot_bound(s: Seq<Balance>, i: int)
    requires
        0 <= i < s.len(),
    ensures
        s[i] <= total(s),
    decreases s.len(),
{
    if i == 0 {
        lemma_total_nonneg(s.drop_first());
    } else {
        lemma_total_slot_bound(s.drop_first(), i - 1);
    }
}

/// The sum is zero exactly when every slot is zero.
pub proof fn lemma_total_zero(s: Seq<Balance>)
    ensures
        total(s) == 0 <==> (forall|i: int| 0 <= i < s.len() ==> s[i] == 0),
    decreases s.len(),
{
    if s.len() > 0 {
        lemma_total_zero(s.drop_first());
        lemma_total_nonneg(s.drop_first());
        if total(s) == 0 {
            assert forall|i: int| 0 <= i < s.len() implies s[i] == 0 by {
                if i > 0 {
                    assert(s[i] == s.drop_first()[i - 1]);
                }
            }
        }
        if forall|i: int| 0 <= i < s.len() ==> s[i] == 0 {
            assert forall|i: int| 0 <= i < s.drop_first().len() implies s.drop_first()[i] == 0 by {
                assert(s.drop_first()[i] == s[i + 1]);
            }
        }
    }
}

/// Status of a prediction market. Transitions are one-directional:
/// `Open` to `PendingResolution` to `Resolved`, with no path back.
#[derive(Clone, Copy, PartialEq, Eq, Structural, Debug)]
pub enum MarketStatus {
    /// Market is open for betting.
    Open,
    /// Resolution has been requested; waiting for the oracle.
    PendingResolution,
    /// Market has been resolved.
    Resolved,
}

impl Default for MarketStatus {
    fn default() -> (r: Self)
        ensures
            r is Open,
    {
        MarketStatus::Open
    }
}

/// A prediction market with multiple options.
#[derive(Clone, Debug)]
pub struct Market {
    /// Unique market identifier.
    pub id: MarketId,
    /// The question being predicted.
    pub question: String,
    /// Available option labels, in order.
    pub options: Vec<String>,
    /// Criteria for resolution.
    pub resolution_criteria: String,
    /// Where to verify the outcome.
    pub resolution_source: String,
    /// Who created this market.
    pub creator: AccountId,
    /// Block number after which resolution can be requested.
    pub resolution_deadline: BlockNumber,
    /// Total shares per option, index-aligned with `options`.
    pub shares_per_option: Vec<Balance>,
    /// Current status.
    pub status: MarketStatus,
    /// Winning option index; `None` while unresolved.
    pub winning_option: Option<OptionIndex>,
}

impl Market {
    /// Structural invariant of a stored market.
    pub open spec fn wf(self) -> bool {
        &&& 2 <= self.options@.len() <= MAX_OPTIONS as int
        &&& self.shares_per_option@.len() == self.options@.len()
        &&& (self.winning_option is Some <==> self.status is Resolved)
        &&& (self.winning_option matches Some(w) ==> (w as int) < self.options@.len())
        &&& total(self.shares_per_option@) <= u64::MAX as int
    }

    /// Total pool across all options.
    pub fn total_pool(&self) -> (r: Balance)
        requires
            total(self.shares_per_option@) <= u64::MAX as int,
        ensures
            r == total(self.shares_per_option@),
    {
        let mut acc: u64 = 0;
        let mut i: usize = 0;
        proof {
            assert(self.shares_per_option@.subrange(0, 0) =~= Seq::<Balance>::empty());
        }
        while i < self.shares_per_option.len()
            invariant
                0 <= i <= self.shares_per_option@.len(),
                acc == total(self.shares_per_option@.subrange(0, i as int)),
                total(self.shares_per_option@) <= u64::MAX as int,
            decreases self.shares_per_option@.len() - i,
        {
            proof {
                let s = self.shares_per_option@;
                assert(s.subrange(0, i + 1).drop_last() =~= s.subrange(0, i as int));
                lemma_total_drop_last(s.subrange(0, i + 1));
                lemma_total_prefix_bound(s, i + 1);
                lemma_total_nonneg(s.subrange(0, i + 1));
            }
            acc = acc + self.shares_per_option[i];
            i = i + 1;
        }
        proof {
            assert(self.shares_per_option@.subrange(0, self.shares_per_option@.len() as int)
                =~= self.shares_per_option@);
        }
        acc
    }

    /// Whether this is a binary (two-option) market.
    pub fn is_binary(&self) -> (r: bool)
        ensures
            r == (self.options@.len() == 2),
    {
        self.options.len() == 2
    }
}

/// A prefix sum never exceeds the sum of the whole sequence.
pub proof fn lemma_total_prefix_bound(s: Seq<Balance>, n: int)
    requires
        0 <= n <= s.len(),
    ensures
        total(s.subrange(0, n)) <= total(s),
    decreases s.len() - n,
{
    if n < s.len() {
        lemma_total_prefix_bound(s, n + 1);
        assert(s.subrange(0, n + 1).drop_last() =~= s.subrange(0, n));
        lemma_total_drop_last(s.subrange(0, n + 1));
    } else {
        assert(s.subrange(0, n) =~= s);
    }
}

/// A user's stake per option in one market.
#[derive(Debug)]
pub struct Position {
    /// Shares held for each option, index-aligned with the market's options.
    pub shares: Vec<Balance>,
}

impl Position {
    /// A fresh position with one zeroed slot per option.
    pub fn new(num_options: usize) -> (r: Self)
        ensures
            r.shares@ == Seq::new(num_options as nat, |i: int| 0u64),
    {
        let shares: Vec<Balance> = vec![0; num_options];
        proof {
            assert(shares@ =~= Seq::new(num_options as nat, |i: int| 0u64));
        }
        Position { shares }
    }

    /// Total shares across all options.
    pub fn total_shares(&self) -> (r: Balance)
        requires
            total(self.shares@) <= u64::MAX as int,
        ensures
            r == total(self.shares@),
    {
        let mut acc: u64 = 0;
        let mut i: usize = 0;
        proof {
            assert(self.shares@.subrange(0, 0) =~= Seq::<Balance>::empty());
        }
        while i < self.shares.len()
            invariant
                0 <= i <= self.shares@.len(),
                acc == total(self.shares@.subrange(0, i as int)),
                total(self.shares@) <= u64::MAX as int,
            decreases self.shares@.len() - i,
        {
            proof {
                let s = self.shares@;
                assert(s.subrange(0, i + 1).drop_last() =~= s.subrange(0, i as int));
                lemma_total_drop_last(s.subrange(0, i + 1));
                lemma_total_prefix_bound(s, i + 1);
                lemma_total_nonneg(s.subrange(0, i + 1));
            }
            acc = acc + self.shares[i];
            i = i + 1;
        }
        proof {
            assert(self.shares@.subrange(0, self.shares@.len() as int) =~= self.shares@);
        }
        acc
    }

    /// Whether the position holds no shares at all.
    pub fn is_empty(&self) -> (r: bool)
        ensures
            r == (forall|i: int| 0 <= i < self.shares@.len() ==> self.shares@[i] == 0),
    {
        let mut i: usize = 0;
        while i < self.shares.len()
            invariant
                0 <= i <= self.shares@.len(),
                forall|j: int| 0 <= j < i ==> self.shares@[j] == 0,
            decreases self.shares@.len() - i,
        {
            if self.shares[i] != 0 {
                return false;
            }
            i = i + 1;
        }
        true
    }
}

impl Clone for Position {
    fn clone(&self) -> (r: Self)
        ensures
            r.shares@ == self.shares@,
    {
        let mut shares: Vec<Balance> = Vec::new();
        let mut i: usize = 0;
        while i < self.shares.len()
            invariant
                0 <= i <= self.shares@.len(),
                shares@ =~= self.shares@.subrange(0, i as int),
            decreases self.shares@.len() - i,
        {
            shares.push(self.shares[i]);
            i = i + 1;
        }
        proof {
            assert(shares@ =~= self.shares@);
        }
        Position { shares }
    }
}

/// Ledger configuration: the admin and the two agent roles.
#[derive(Clone, Copy, Debug)]
pub struct Config {
    /// Admin who can update the configuration.
    pub admin: AccountId,
    /// The only account allowed to create markets, once configured.
    pub market_creator_agent: Option<AccountId>,
    /// The oracle agent asked to resolve markets, once configured.
    pub resolver_oracle_agent: Option<AccountId>,
}

/// Whether `c` is the ASCII code of a hexadecimal digit.
pub open spec fn is_hex_digit(c: u8) -> bool {
    (48 <= c <= 57) || (97 <= c <= 102) || (65 <= c <= 70)
}

/// The numeric value of a hexadecimal digit's ASCII code.
pub open spec fn hex_val(c: u8) -> int {
    if 48 <= c <= 57 {
        c - 48
    } else if 97 <= c <= 102 {
        c - 87
    } else {
        c - 55
    }
}

/// `b` without a leading `0x`, if it has one.
pub open spec fn strip_hex_prefix(b: Seq<u8>) -> Seq<u8> {
    if b.len() >= 2 && b[0] == 48 && b[1] == 120 {
        b.subrange(2, b.len() as int)
    } else {
        b
    }
}

/// The account encoded by 64 hexadecimal digits, two per byte.
pub open spec fn spec_hex_account(b: Seq<u8>) -> Seq<u8> {
    Seq::new(32, |i: int| (16 * hex_val(b[2 * i]) + hex_val(b[2 * i + 1])) as u8)
}

/// The numeric value of one hexadecimal digit, if it is one.
fn hex_digit(c: u8) -> (r: Option<u8>)
    ensures
        r is Some <==> is_hex_digit(c),
        r matches Some(v) ==> v == hex_val(c) && v < 16,
{
    if 48 <= c && c <= 57 {
        Some(c - 48)
    } else if 97 <= c && c <= 102 {
        Some(c - 87)
    } else if 65 <= c && c <= 70 {
        Some(c - 55)
    } else {
        None
    }
}

/// Parse an account id from its hexadecimal form, with or without a `0x`
/// prefix: exactly 64 hex digits, two per byte, most significant first.
pub fn account_from_hex(s: &str) -> (r: Option<AccountId>)
    ensures
        r is Some <==> ({
            let b = strip_hex_prefix(s.spec_bytes());
            b.len() == 64 && forall|i: int| 0 <= i < 64 ==> is_hex_digit(b[i])
        }),
        r matches Some(a) ==> a@ == spec_hex_account(strip_hex_prefix(s.spec_bytes())),
{
    let bytes = s.as_bytes_vec();
    let off: usize = if bytes.len() >= 2 && bytes[0] == 48 && bytes[1] == 120 {
        2
    } else {
        0
    };
    proof {
        assert(strip_hex_prefix(s.spec_bytes()) =~= s.spec_bytes().subrange(
            off as int,
            s.spec_bytes().len() as int,
        ));
    }
    if bytes.len() - off != 64 {
        return None;
    }
    let mut account: AccountId = [0; 32];
    let mut i: usize = 0;
    while i < 32
        invariant
            0 <= i <= 32,
            off + 64 == bytes@.len(),
            bytes@.len() <= usize::MAX as int,
            bytes@ == s.spec_bytes(),
            strip_hex_prefix(s.spec_bytes()) == s.spec_bytes().subrange(
                off as int,
                s.spec_bytes().len() as int,
            ),
            forall|j: int|
                0 <= j < 2 * i ==> is_hex_digit(#[trigger] bytes@[off + j]),
            forall|j: int|
                0 <= j < i ==> account@[j] == (16 * hex_val(bytes@[off + 2 * j]) + hex_val(
                    bytes@[off + 2 * j + 1],
                )) as u8,
        decreases 32 - i,
    {
        let hi = match hex_digit(bytes[off + 2 * i]) {
            Some(v) => v,
            None => {
                proof {
                    let b = strip_hex_prefix(s.spec_bytes());
                    assert(!is_hex_digit(b[2 * i as int]));
                }
                return None;
            },
        };
        let lo = match hex_digit(bytes[off + 2 * i + 1]) {
            Some(v) => v,
            None => {
                proof {
                    let b = strip_hex_prefix(s.spec_bytes());
                    assert(!is_hex_digit(b[2 * i as int + 1]));
                }
                return None;
            },
        };
        account[i] = 16 * hi + lo;
        i = i + 1;
    }
    proof {
        let b = strip_hex_prefix(s.spec_bytes());
        assert forall|j: int| 0 <= j < 64 implies is_hex_digit(b[j]) by {
            assert(b[j] == bytes@[off + j]);
            assert(is_hex_digit(bytes@[off + j]));
        }
        assert(account@ =~= spec_hex_account(b)) by {
            assert forall|j: int| 0 <= j < 32 implies account@[j] == spec_hex_account(b)[j] by {
                assert(b[2 * j] == bytes@[off + 2 * j]);
                assert(b[2 * j + 1] == bytes@[off + 2 * j + 1]);
            }
        }
    }
    Some(account)
}

/// Byte-wise equality of two account identifiers.
pub fn accounts_equal(a: &AccountId, b: &AccountId) -> (r: bool)
    ensures
        r == (a@ == b@),
{
    let mut i: usize = 0;
    while i < 32
        invariant
            0 <= i <= 32,
            forall|j: int| 0 <= j < i ==> a@[j] == b@[j],
        decreases 32 - i,
    {
        if a[i] != b[i] {
            return false;
        }
        i = i + 1;
    }
    proof {
        assert(a@ =~= b@);
    }
    true
}

} // verus!
