//! Transaction stress testing: its configurations and results, and what a transaction reads
//! and writes.

use crate::driver::{opt_text, text_or};
use crate::rng::{xorshift, SimpleRng};
use crate::text::{bytes_of, decimal, hex, push_count, push_decimal, push_hex16, text_of};
use vstd::prelude::*;
use vstd::utf8::encode_utf8;

verus! {

/// Configuration for transaction stress testing.
#[derive(Clone, Copy, Debug)]
pub struct TxnStressConfig {
    /// Number of concurrent transactions to simulate.
    pub num_transactions: usize,
    /// Number of keys in the keyspace.
    pub num_keys: usize,
    /// Operations per transaction.
    pub ops_per_txn: usize,
    /// Read probability in parts per million.
    pub read_probability: u32,
}

impl Default for TxnStressConfig {
    fn default() -> (r: Self)
        ensures
            r == (TxnStressConfig {
                num_transactions: 10,
                num_keys: 5,
                ops_per_txn: 3,
                read_probability: 500_000,
            }),
    {
        TxnStressConfig {
            num_transactions: 10,
            num_keys: 5,
            ops_per_txn: 3,
            read_probability: 500_000,
        }
    }
}

impl TxnStressConfig {
    /// Configuration for write skew testing: few keys, and mostly reads.
    pub fn write_skew() -> (r: Self)
        ensures
            r == (TxnStressConfig {
                num_transactions: 20,
                num_keys: 2,
                ops_per_txn: 3,
                read_probability: 700_000,
            }),
    {
        TxnStressConfig {
            num_transactions: 20,
            num_keys: 2,
            ops_per_txn: 3,
            read_probability: 700_000,
        }
    }

    /// Configuration for heavy contention.
    pub fn heavy_contention() -> (r: Self)
        ensures
            r == (TxnStressConfig {
                num_transactions: 50,
                num_keys: 3,
                ops_per_txn: 4,
                read_probability: 500_000,
            }),
    {
        TxnStressConfig {
            num_transactions: 50,
            num_keys: 3,
            ops_per_txn: 4,
            read_probability: 500_000,
        }
    }
}

/// Result of a transaction stress test.
#[derive(Debug)]
pub struct TxnStressResult {
    /// Whether the test passed.
    pub passed: bool,
    /// The seed used.
    pub seed: u64,
    /// Total transactions attempted.
    pub total_txns: u64,
    /// Transactions that committed.
    pub committed_txns: u64,
    /// Transactions that aborted.
    pub aborted_txns: u64,
    /// Failure description if any.
    pub failure: Option<String>,
}

/// The text of a result.
pub open spec fn txn_text(r: TxnStressResult) -> Seq<char> {
    let count = decimal(r.committed_txns as nat) + "/"@ + decimal(r.total_txns as nat)
        + " committed, "@;
    if r.passed {
        "PASS: "@ + count + decimal(r.aborted_txns as nat) + " aborted (SSI), seed=0x"@ + hex(
            r.seed as nat,
            16,
        )
    } else {
        "FAIL: "@ + count + "seed=0x"@ + hex(r.seed as nat, 16) + "\n  "@ + text_or(
            opt_text(r.failure),
            "unknown"@,
        )
    }
}

impl TxnStressResult {
    /// Returns a summary of the result.
    pub fn summary(&self) -> (r: String)
        ensures
            r@ == txn_text(*self),
    {
        let mut r = if self.passed {
            text_of("PASS: ")
        } else {
            text_of("FAIL: ")
        };
        push_decimal(&mut r, self.committed_txns);
        r.push_str("/");
        push_decimal(&mut r, self.total_txns);
        r.push_str(" committed, ");
        if self.passed {
            push_decimal(&mut r, self.aborted_txns);
            r.push_str(" aborted (SSI), seed=0x");
            push_hex16(&mut r, self.seed);
        } else {
            r.push_str("seed=0x");
            push_hex16(&mut r, self.seed);
            r.push_str("\n  ");
            match &self.failure {
                Some(f) => r.push_str(f.as_str()),
                None => r.push_str("unknown"),
            }
        }
        assert(r@ =~= txn_text(*self));
        r
    }
}

/// Result of a transaction stress test with crash injection.
#[derive(Debug)]
pub struct TxnStressWithCrashesResult {
    /// Whether the test passed.
    pub passed: bool,
    /// The seed used.
    pub seed: u64,
    /// Total transactions attempted.
    pub total_txns: u64,
    /// Transactions that committed.
    pub committed_txns: u64,
    /// Transactions that aborted.
    pub aborted_txns: u64,
    /// Number of crashes injected.
    pub crashes: u64,
    /// Failure description if any.
    pub failure: Option<String>,
}

/// The text of a result with crashes.
pub open spec fn txn_crash_text(r: TxnStressWithCrashesResult) -> Seq<char> {
    let count = decimal(r.committed_txns as nat) + "/"@ + decimal(r.total_txns as nat)
        + " committed, "@;
    let tail = decimal(r.crashes as nat) + " crashes, seed=0x"@ + hex(r.seed as nat, 16);
    if r.passed {
        "PASS: "@ + count + decimal(r.aborted_txns as nat) + " aborted (SSI), "@ + tail
    } else {
        "FAIL: "@ + count + tail + "\n  "@ + text_or(opt_text(r.failure), "unknown"@)
    }
}

impl TxnStressWithCrashesResult {
    /// Returns a summary of the result.
    #[verifier::rlimit(40)]
    pub fn summary(&self) -> (r: String)
        ensures
            r@ == txn_crash_text(*self),
    {
        let mut r = if self.passed {
            text_of("PASS: ")
        } else {
            text_of("FAIL: ")
        };
        push_decimal(&mut r, self.committed_txns);
        r.push_str("/");
        push_decimal(&mut r, self.total_txns);
        r.push_str(" committed, ");
        if self.passed {
            push_decimal(&mut r, self.aborted_txns);
            r.push_str(" aborted (SSI), ");
        }
        push_decimal(&mut r, self.crashes);
        r.push_str(" crashes, seed=0x");
        push_hex16(&mut r, self.seed);
        if !self.passed {
            r.push_str("\n  ");
            match &self.failure {
                Some(f) => r.push_str(f.as_str()),
                None => r.push_str("unknown"),
            }
        }
        assert(r@ =~= txn_crash_text(*self));
        r
    }
}

/// Result of an explicit write skew test.
#[derive(Debug)]
pub struct WriteSkewTestResult {
    /// Whether write skew was prevented.
    pub prevented: bool,
    /// Which transactions aborted.
    pub aborted: Vec<u64>,
    /// Error message if the test failed.
    pub error: Option<String>,
}

/// The transactions of two that aborted.
pub open spec fn aborted_of(first: u64, first_committed: bool, second: u64, second_committed: bool) -> Seq<
    u64,
> {
    (if first_committed {
        Seq::<u64>::empty()
    } else {
        seq![first]
    }) + (if second_committed {
        Seq::<u64>::empty()
    } else {
        seq![second]
    })
}

/// Tells whether a write skew was prevented: not both transactions committed.
pub open spec fn skew_prevented(first_committed: bool, second_committed: bool) -> bool {
    !(first_committed && second_committed)
}

/// Concludes from the commits of two transactions, each of which read what the other wrote,
/// whether write skew was prevented: at least one of them must abort.
pub fn write_skew_result(
    first: u64,
    first_committed: bool,
    second: u64,
    second_committed: bool,
) -> (r: WriteSkewTestResult)
    ensures
        r.aborted@ == aborted_of(first, first_committed, second, second_committed),
        r.prevented == skew_prevented(first_committed, second_committed),
        opt_text(r.error) == if r.prevented {
            None
        } else {
            Some("Write skew NOT prevented: both T1 and T2 committed"@)
        },
{
    let mut aborted: Vec<u64> = Vec::new();
    if !first_committed {
        aborted.push(first);
    }
    if !second_committed {
        aborted.push(second);
    }
    assert(aborted@ =~= aborted_of(first, first_committed, second, second_committed));
    if aborted.len() == 0 {
        WriteSkewTestResult {
            prevented: false,
            aborted,
            error: Some(text_of("Write skew NOT prevented: both T1 and T2 committed")),
        }
    } else {
        WriteSkewTestResult { prevented: true, aborted, error: None }
    }
}

/// The seeds of repeated write skew tests, which wrap round at the end of the numbers.
pub fn write_skew_seeds(seed: u64, num_iterations: usize) -> (r: Vec<u64>)
    ensures
        r.len() == num_iterations,
        forall|i: int|
            0 <= i < num_iterations ==> (#[trigger] r@[i]) as int == (seed + i)
                % 0x1_0000_0000_0000_0000,
{
    let mut r: Vec<u64> = Vec::new();
    let mut i: usize = 0;
    while i < num_iterations
        invariant
            i <= num_iterations,
            r.len() == i,
            forall|k: int|
                0 <= k < i ==> (#[trigger] r@[k]) as int == (seed + k)
                    % 0x1_0000_0000_0000_0000,
        decreases num_iterations - i,
    {
        r.push(seed.wrapping_add(i as u64));
        i += 1;
    }
    r
}

/// The draws below which a transaction keeps to its own key: seven in ten.
pub const OWN_KEY_BELOW: u64 = 0xB333_3333_3333_2C00;

/// The draws below which an even round reads: eight in ten.
pub const EVEN_READ_BELOW: u64 = 0xCCCC_CCCC_CCCC_CC00;

/// The draws below which an odd round reads: three in ten.
pub const ODD_READ_BELOW: u64 = 0x4CCC_CCCC_CCCC_CA01;

/// The largest number of transactions that run at the same time.
pub const BATCH_SIZE: usize = 4;

/// The bytes of a key by its number.
pub open spec fn numbered_key(n: nat) -> Seq<u8> {
    encode_utf8("key"@ + decimal(n))
}

/// The bytes of a value by the transaction that writes it and a number.
pub open spec fn numbered_value(txn: nat, n: u64) -> Seq<u8> {
    encode_utf8("v"@ + decimal(txn) + "_"@ + decimal(n as nat))
}

/// An operation that a transaction is to perform.
#[derive(Debug)]
pub enum TxnChoice {
    /// Read a key.
    Read { key: Vec<u8> },
    /// Write a value to a key.
    Write { key: Vec<u8>, value: Vec<u8> },
}

/// An operation to perform as a mathematical value.
pub enum ChoiceView {
    Read { key: Seq<u8> },
    Write { key: Seq<u8>, value: Seq<u8> },
}

impl View for TxnChoice {
    type V = ChoiceView;

    open spec fn view(&self) -> ChoiceView {
        match self {
            TxnChoice::Read { key } => ChoiceView::Read { key: key@ },
            TxnChoice::Write { key, value } => ChoiceView::Write { key: key@, value: value@ },
        }
    }
}

/// The number of the key that a transaction draws, and the state of the generator after: its
/// own key, or one at a random distance from it.
pub open spec fn drawn_key_number(s: u64, txn: nat, num_keys: usize) -> (nat, u64) {
    let own = txn % num_keys as nat;
    let t = xorshift(s);
    if t < OWN_KEY_BELOW {
        (own, t)
    } else {
        let u = xorshift(t);
        ((own + (u as usize % num_keys) as nat) % num_keys as nat, u)
    }
}

/// Tells whether a draw makes a round read.
pub open spec fn reads_in_round(draw: u64, round: nat) -> bool {
    if round % 2 == 0 {
        draw < EVEN_READ_BELOW
    } else {
        draw < ODD_READ_BELOW
    }
}

/// The operation that a transaction draws in a round, and the state of the generator after.
pub open spec fn drawn_choice(s: u64, txn: nat, round: nat, num_keys: usize) -> (ChoiceView, u64) {
    let (n, t) = drawn_key_number(s, txn, num_keys);
    let u = xorshift(t);
    if reads_in_round(u, round) {
        (ChoiceView::Read { key: numbered_key(n) }, u)
    } else {
        let w = xorshift(u);
        (ChoiceView::Write { key: numbered_key(n), value: numbered_value(txn, w) }, w)
    }
}

/// Builds the bytes of a key by its number.
pub fn key_bytes(n: usize) -> (r: Vec<u8>)
    ensures
        r@ == numbered_key(n as nat),
{
    let mut text = text_of("key");
    push_count(&mut text, n);
    bytes_of(text.as_str())
}

/// Chooses what a transaction does in a round.
pub fn choose_op(rng: &mut SimpleRng, txn: usize, round: usize, num_keys: usize) -> (r: TxnChoice)
    requires
        num_keys > 0,
    ensures
        (r@, final(rng).spec_state()) == drawn_choice(
            old(rng).spec_state(),
            txn as nat,
            round as nat,
            num_keys,
        ),
{
    let base_key: usize = txn % num_keys;
    let n: usize = if rng.next() < OWN_KEY_BELOW {
        base_key
    } else {
        let offset = rng.next_usize(num_keys);
        wrapped_sum(base_key, offset, num_keys)
    };
    let key = key_bytes(n);
    let draw = rng.next();
    let is_read = if round % 2 == 0 {
        draw < EVEN_READ_BELOW
    } else {
        draw < ODD_READ_BELOW
    };
    if is_read {
        TxnChoice::Read { key }
    } else {
        let w = rng.next();
        let mut text = text_of("v");
        push_count(&mut text, txn);
        text.push_str("_");
        push_decimal(&mut text, w);
        TxnChoice::Write { key, value: bytes_of(text.as_str()) }
    }
}

fn wrapped_sum(a: usize, b: usize, n: usize) -> (r: usize)
    requires
        a < n,
        b < n,
    ensures
        r == (a + b) as int % n as int,
{
    if a < n - b {
        proof {
            vstd::arithmetic::div_mod::lemma_small_mod((a + b) as nat, n as nat);
        }
        a + b
    } else {
        proof {
            vstd::arithmetic::div_mod::lemma_mod_add_multiples_vanish(a + b - n, n as int);
            vstd::arithmetic::div_mod::lemma_small_mod((a + b - n) as nat, n as nat);
        }
        a - (n - b)
    }
}

/// What a transaction of the test does is on a key of the key space, and what it writes names the
/// transaction.
pub proof fn law_choice_in_space(s: u64, txn: nat, round: nat, num_keys: usize)
    requires
        num_keys > 0,
    ensures
        match drawn_choice(s, txn, round, num_keys).0 {
            ChoiceView::Read { key } => exists|n: nat|
                n < num_keys && key == #[trigger] numbered_key(n),
            ChoiceView::Write { key, value } => (exists|n: nat|
                n < num_keys && key == #[trigger] numbered_key(n)) && exists|w: u64|
                value == #[trigger] numbered_value(txn, w),
        },
{
    let n = drawn_key_number(s, txn, num_keys).0;
    assert(n < num_keys);
    assert(numbered_key(n) == numbered_key(n));
}

/// Which transactions of a write skew test aborted: the first where it did not commit, the second
/// where it did not, and no other.
pub proof fn law_aborted_listed(first: u64, a: bool, second: u64, b: bool, id: u64)
    ensures
        aborted_of(first, a, second, b).contains(id) <==> (id == first && !a) || (id == second
            && !b),
        aborted_of(first, a, second, b).len() == 0 <==> a && b,
        skew_prevented(a, b) <==> aborted_of(first, a, second, b).len() > 0,
{
    let s = aborted_of(first, a, second, b);
    if !a {
        assert(s[0] == first);
    }
    if !b {
        assert(s[s.len() - 1] == second);
    }
}

} // verus!
