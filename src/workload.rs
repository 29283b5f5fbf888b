//! A random key/value table to benchmark the two lookup paths on.
use vstd::prelude::*;
use rand::Rng;
use rand::distributions::Alphanumeric;
use crate::table::{HostTable, find};
use crate::sim::rand_range;

verus! {

/// Shortest and longest generated key.
pub const KEY_MIN: i32 = 5;
pub const KEY_MAX: i32 = 40;
/// Shortest and longest generated value.
pub const VAL_MIN: i32 = 10;
pub const VAL_MAX: i32 = 200;

pub open spec fn is_alphanumeric(b: u8) -> bool {
    (48 <= b <= 57) || (65 <= b <= 90) || (97 <= b <= 122)
}

/// Relies on rand's `Alphanumeric` distribution sampled through
/// `thread_rng`: each byte is an ASCII letter or digit.
#[verifier::external_body]
fn random_alphanumeric(len: usize) -> (r: Vec<u8>)
    ensures
        r@.len() == len,
        forall|i: int| 0 <= i < len ==> is_alphanumeric(#[trigger] r@[i]),
{
    rand::thread_rng().sample_iter(&Alphanumeric).take(len).collect()
}

/// A random alphanumeric string with a length drawn from `min..=max`.
pub fn random_string(min: i32, max: i32) -> (r: Vec<u8>)
    requires
        0 <= min <= max,
    ensures
        min <= r@.len() <= max,
        forall|i: int| 0 <= i < r@.len() ==> is_alphanumeric(#[trigger] r@[i]),
{
    let len = rand_range(min, max);
    random_alphanumeric(len as usize)
}

/// The generated pairs of a table: keys and values of the set lengths.
pub open spec fn generated_pairs(table: &HostTable) -> bool {
    forall|k: Seq<u8>| (#[trigger] find(table.entries(), k)) is Some ==> {
        &&& KEY_MIN <= k.len() <= KEY_MAX
        &&& VAL_MIN <= find(table.entries(), k)->Some_0.len() <= VAL_MAX
    }
}

/// Draws `entries` random pairs into a table (a repeated key keeps its last
/// value) and returns the keys of the first `test_keys` draws.
pub fn create_lookup(entries: usize, test_keys: usize) -> (r: (HostTable, Vec<Vec<u8>>))
    ensures
        r.0.wf(),
        generated_pairs(&r.0),
        r.1@.len() == if test_keys < entries { test_keys } else { entries },
        forall|i: int| 0 <= i < r.1@.len() ==> (#[trigger] find(r.0.entries(), r.1@[i]@)) is Some,
{
    let mut table = HostTable::new();
    let mut keys: Vec<Vec<u8>> = Vec::new();
    let mut n: usize = 0;
    while n < entries
        invariant
            table.wf(),
            generated_pairs(&table),
            n <= entries,
            keys@.len() == if test_keys < n { test_keys } else { n },
            forall|i: int| 0 <= i < keys@.len() ==> (#[trigger] find(table.entries(), keys@[i]@)) is Some,
        decreases entries - n,
    {
        let key = random_string(KEY_MIN, KEY_MAX);
        let value = random_string(VAL_MIN, VAL_MAX);
        if keys.len() < test_keys {
            keys.push(crate::table::copy_bytes(key.as_slice()));
        }
        let ghost kv = key@;
        let ghost before = keys@;
        table.insert(key, value);
        proof {
            assert forall|i: int| 0 <= i < keys@.len() implies (#[trigger] find(table.entries(), keys@[i]@)) is Some by {
                if keys@[i]@ != kv {
                    assert(before.len() <= keys@.len());
                    if i < before.len() {
                        assert(keys@[i] == before[i]);
                    }
                }
            }
        }
        n = n + 1;
    }
    (table, keys)
}

} // verus!
