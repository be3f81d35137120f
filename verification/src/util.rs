//! Keys as text for logs and snapshots.
use std::fmt::Debug;
use std::hash::{BuildHasher, Hash};

use vstd::prelude::*;
use vstd::string::*;

use crate::text::{hexadecimal, push_hexadecimal};

verus! {

/// The `Debug` form of a value, by `format!`. What it reads is the affair of the value's
/// type, so nothing is claimed of it but that it is what this call gave.
#[verifier::external_body]
pub fn debug_text<T: Debug>(value: &T) -> (text: String) {
    format!("{value:?}")
}

/// `RandomState::hash_one` with a fresh random state, so that any number may come back.
#[verifier::external_body]
pub fn random_hash<T: Hash>(value: &T) -> (hash: u64) {
    std::collections::hash_map::RandomState::new().hash_one(value)
}

/// `text` is a `Debug` form of `value`.
pub open spec fn reads<T: Debug>(value: T, text: String) -> bool {
    call_ensures(debug_text::<T>, (&value,), text)
}

/// `hash` is a hash of `value` under some random state.
pub open spec fn hashes<T: Hash>(value: T, hash: u64) -> bool {
    call_ensures(random_hash::<T>, (&value,), hash)
}

/// What a redacted key looks like: `hash:` and the sixteen hexadecimal digits of a hash.
pub open spec fn redacted(hash: u64) -> Seq<char> {
    "hash:"@ + hexadecimal(hash as nat, 16)
}

/// The redacted form of a key with the given hash.
pub fn redacted_key(hash: u64) -> (text: String)
    ensures
        text@ == redacted(hash),
{
    let mut text: String = "hash:".to_owned();
    push_hexadecimal(&mut text, hash, 16);
    text
}

/// `text` shows `key` in a log: hashed where keys are redacted, else in its `Debug` form.
pub open spec fn shown<K: Hash + Debug>(key: K, redact: bool, text: String) -> bool {
    if redact {
        exists|hash: u64| #[trigger] hashes(key, hash) && text@ == redacted(hash)
    } else {
        reads(key, text)
    }
}

/// Format a rate-limit key for logging.
///
/// When `redact` is `false`, the key's `Debug` representation is returned. When it is
/// `true`, the key is hashed with a random state and returned as `hash:` and sixteen
/// hexadecimal digits, so that sensitive values do not appear verbatim in logs.
pub fn format_key<K: Hash + Debug>(key: &K, redact: bool) -> (text: String)
    ensures
        shown(*key, redact, text),
{
    if redact {
        let hash: u64 = random_hash(key);
        assert(hashes(*key, hash));
        redacted_key(hash)
    } else {
        debug_text(key)
    }
}

/// A redacted key has the same length whatever the key: the prefix and sixteen digits.
pub proof fn redacted_length(hash: u64)
    ensures
        redacted(hash).len() == 21,
        redacted(hash).take(5) == "hash:"@,
{
    reveal_strlit("hash:");
    lemma_hexadecimal_len(hash as nat, 16);
    assert(redacted(hash).take(5) =~= "hash:"@);
}

proof fn lemma_hexadecimal_len(n: nat, width: nat)
    ensures
        hexadecimal(n, width).len() == width,
    decreases width,
{
    if width > 0 {
        lemma_hexadecimal_len(n / 16, (width - 1) as nat);
    }
}

/// A redacted key tells the hash and nothing else: its digits spell it in base 16.
pub proof fn redacted_digits_spell_the_hash(hash: u64)
    ensures
        crate::text::number_of(redacted(hash).skip(5), 16) == hash,
{
    reveal_strlit("hash:");
    crate::text::hexadecimal_reads_back(hash as nat, 16);
    assert(redacted(hash).skip(5) =~= hexadecimal(hash as nat, 16));
    assert(vstd::arithmetic::power::pow(16, 16) == 0x1_0000_0000_0000_0000) by {
        vstd::arithmetic::power::lemma_pow1(16);
        vstd::arithmetic::power::lemma_pow_adds(16, 1, 1);
        vstd::arithmetic::power::lemma_pow_adds(16, 2, 2);
        vstd::arithmetic::power::lemma_pow_adds(16, 4, 4);
        vstd::arithmetic::power::lemma_pow_adds(16, 8, 8);
        assert(16 * 16 == 256) by (nonlinear_arith);
        assert(256 * 256 == 0x1_0000) by (nonlinear_arith);
        assert(0x1_0000 * 0x1_0000 == 0x1_0000_0000) by (nonlinear_arith);
        assert(0x1_0000_0000 * 0x1_0000_0000 == 0x1_0000_0000_0000_0000) by (nonlinear_arith);
    }
    vstd::arithmetic::div_mod::lemma_small_mod(hash as nat, 0x1_0000_0000_0000_0000);
}

/// A key is shown as it reads unless keys are redacted, and then by a hash of it.
pub proof fn a_key_is_hashed_where_asked<K: Hash + Debug>(key: K, redact: bool, text: String)
    requires
        shown(key, redact, text),
    ensures
        !redact ==> reads(key, text),
        redact ==> exists|hash: u64| #[trigger] hashes(key, hash) && text@ == redacted(hash),
{
}

}
