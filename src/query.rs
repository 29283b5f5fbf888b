//! The host-mediated query: a guest asks the host for the value of a key,
//! offering a buffer of some capacity; the host reports the value's true
//! length and copies it only when it fits, and the guest retries once with
//! a buffer of exactly the reported size.
use vstd::prelude::*;
use crate::table::{HostTable, find, copy_bytes};
use crate::index::{opt_bytes, PackedHashIndex, chains_of, lemma_lookup_finds};

verus! {

/// The outcome of one call-out, as the host reports it.
#[derive(Clone, Copy, Debug, PartialEq, Eq, Structural)]
pub enum LookupStatus {
    Success,
    BufferTooSmall,
    NotFound,
}

/// The status code that crosses the sandbox boundary.
pub open spec fn status_code(s: LookupStatus) -> i32 {
    match s {
        LookupStatus::Success => 0,
        LookupStatus::BufferTooSmall => 1,
        LookupStatus::NotFound => 2,
    }
}

/// Why a guest's query failed.
#[derive(Clone, Copy, Debug, PartialEq, Eq, Structural)]
pub enum QueryError {
    /// The host answered with a code outside the status set.
    UnknownStatus(i32),
    /// The host reported a too-small buffer on the retry as well.
    BufferTooSmallTwice,
}

impl LookupStatus {
    /// The wire code of this status.
    pub fn code(&self) -> (r: i32)
        ensures
            r == status_code(*self),
    {
        match self {
            LookupStatus::Success => 0,
            LookupStatus::BufferTooSmall => 1,
            LookupStatus::NotFound => 2,
        }
    }

    /// Decodes a wire code; a code outside the set is an error, not a crash.
    pub fn decode(code: i32) -> (r: Result<LookupStatus, QueryError>)
        ensures
            match r {
                Ok(s) => status_code(s) == code,
                Err(e) => e == QueryError::UnknownStatus(code) && !(0 <= code <= 2),
            },
    {
        if code == 0 {
            Ok(LookupStatus::Success)
        } else if code == 1 {
            Ok(LookupStatus::BufferTooSmall)
        } else if code == 2 {
            Ok(LookupStatus::NotFound)
        } else {
            Err(QueryError::UnknownStatus(code))
        }
    }
}

/// What the host hands back for one call-out: the status, the value written
/// to the guest's in/out capacity field, and the bytes copied into the
/// guest's buffer, if any.
pub struct HostReply {
    pub status: LookupStatus,
    pub capacity: u32,
    pub value: Option<Vec<u8>>,
}

/// Every value of the table has a length that the capacity field can carry.
pub open spec fn lengths_fit(table: &HostTable) -> bool {
    forall|i: int| 0 <= i < table.entries().len() ==> (#[trigger] table.entries()[i]).1.len() <= u32::MAX
}

/// Whether every value of the table has a length that the capacity field
/// can carry.
pub fn values_fit(table: &HostTable) -> (r: bool)
    ensures
        r == lengths_fit(table),
{
    let n = table.len();
    let mut i: usize = 0;
    while i < n
        invariant
            n == table.entries().len(),
            i <= n,
            forall|q: int| 0 <= q < i ==> (#[trigger] table.entries()[q]).1.len() <= u32::MAX,
        decreases n - i,
    {
        let (_, v) = table.entry(i);
        if v.len() > 0xffff_ffff {
            return false;
        }
        i = i + 1;
    }
    true
}

/// The host's side of a call-out: look `key` up and answer a guest whose
/// buffer holds `capacity` bytes. A found key's true length is written back
/// whatever the outcome; the value is copied only when it fits.
pub fn host_lookup(table: &HostTable, key: &[u8], capacity: u32) -> (r: HostReply)
    requires
        table.wf(),
        lengths_fit(table),
    ensures
        match find(table.entries(), key@) {
            None => r.status == LookupStatus::NotFound && r.capacity == capacity && r.value is None,
            Some(v) => {
                &&& r.capacity == v.len()
                &&& if v.len() <= capacity {
                    r.status == LookupStatus::Success && opt_bytes(r.value) == Some(v)
                } else {
                    r.status == LookupStatus::BufferTooSmall && r.value is None
                }
            },
        },
{
    match table.get(key) {
        None => HostReply { status: LookupStatus::NotFound, capacity, value: None },
        Some(v) => {
            proof {
                crate::table::lemma_find_some(table.entries(), key@);
                let i = choose|i: int| 0 <= i < table.entries().len() && table.entries()[i] == (key@, v@);
                assert(table.entries()[i].1.len() <= u32::MAX);
            }
            let len = v.len() as u32;
            if len <= capacity {
                HostReply { status: LookupStatus::Success, capacity: len, value: Some(copy_bytes(v)) }
            } else {
                HostReply { status: LookupStatus::BufferTooSmall, capacity: len, value: None }
            }
        },
    }
}

/// What the guest does with a reply.
#[derive(Clone, Copy, Debug, PartialEq, Eq, Structural)]
pub enum GuestStep {
    /// The value is in the buffer.
    Found,
    /// The host holds no value for the key.
    Missing,
    /// Retry once with a buffer of this many bytes.
    Retry(u32),
}

/// The guest's decision on a reply with wire code `code` and capacity field
/// `reported`, on its first attempt or on its retry.
pub fn guest_step(first_attempt: bool, code: i32, reported: u32) -> (r: Result<GuestStep, QueryError>)
    ensures
        code == 0 ==> r == Ok::<GuestStep, QueryError>(GuestStep::Found),
        code == 2 ==> r == Ok::<GuestStep, QueryError>(GuestStep::Missing),
        code == 1 && first_attempt ==> r == Ok::<GuestStep, QueryError>(GuestStep::Retry(reported)),
        code == 1 && !first_attempt ==> r == Err::<GuestStep, QueryError>(QueryError::BufferTooSmallTwice),
        !(0 <= code <= 2) ==> r == Err::<GuestStep, QueryError>(QueryError::UnknownStatus(code)),
{
    match LookupStatus::decode(code) {
        Err(e) => Err(e),
        Ok(LookupStatus::Success) => Ok(GuestStep::Found),
        Ok(LookupStatus::NotFound) => Ok(GuestStep::Missing),
        Ok(LookupStatus::BufferTooSmall) => {
            if first_attempt {
                Ok(GuestStep::Retry(reported))
            } else {
                Err(QueryError::BufferTooSmallTwice)
            }
        },
    }
}

/// A whole host-mediated query against `table`, starting from a buffer of
/// `default_capacity` bytes: the guest's retry protocol run against the
/// host's answers. With an honest host it always ends with the table's value.
pub fn lookup_host_mediated(table: &HostTable, key: &[u8], default_capacity: u32) -> (r: Result<Option<Vec<u8>>, QueryError>)
    requires
        table.wf(),
        lengths_fit(table),
    ensures
        r is Ok,
        opt_bytes(r->Ok_0) == find(table.entries(), key@),
{
    let first = host_lookup(table, key, default_capacity);
    match guest_step(true, first.status.code(), first.capacity) {
        Err(e) => Err(e),
        Ok(GuestStep::Found) => Ok(first.value),
        Ok(GuestStep::Missing) => Ok(None),
        Ok(GuestStep::Retry(capacity)) => {
            let second = host_lookup(table, key, capacity);
            match guest_step(false, second.status.code(), second.capacity) {
                Err(e) => Err(e),
                Ok(GuestStep::Found) => Ok(second.value),
                Ok(GuestStep::Missing) => Ok(None),
                Ok(GuestStep::Retry(_)) => Err(QueryError::BufferTooSmallTwice),
            }
        },
    }
}

/// How many of the given keys `verify_lookups` checks.
pub const VERIFY_SAMPLE: usize = 10;

/// Checks the direct path against the host-mediated one: for each of the
/// first `VERIFY_SAMPLE` keys both must find a value, and the same one; for
/// `missing` both must find none.
pub fn verify_lookups(
    idx: &PackedHashIndex,
    table: &HostTable,
    keys: &Vec<Vec<u8>>,
    missing: &[u8],
    default_capacity: u32,
) -> (r: bool)
    requires
        idx.wf(),
        chains_of(idx.chains(), table.entries(), idx.chains().len()),
        table.wf(),
        lengths_fit(table),
    ensures
        r == ((forall|i: int| 0 <= i < keys@.len() && i < VERIFY_SAMPLE ==>
            (#[trigger] find(table.entries(), keys@[i]@)) is Some)
            && find(table.entries(), missing@) is None),
{
    let mut i: usize = 0;
    while i < keys.len() && i < VERIFY_SAMPLE
        invariant
            idx.wf(),
            chains_of(idx.chains(), table.entries(), idx.chains().len()),
            table.wf(),
            lengths_fit(table),
            i <= keys@.len(),
            forall|q: int| 0 <= q < i ==> (#[trigger] find(table.entries(), keys@[q]@)) is Some,
        decreases keys@.len() - i,
    {
        let key = keys[i].as_slice();
        proof {
            lemma_lookup_finds(*idx, table.entries(), key@);
        }
        let direct = idx.lookup(key);
        let mediated = lookup_host_mediated(table, key, default_capacity);
        match (direct, mediated) {
            (Ok(Some(a)), Ok(Some(b))) => {
                if !crate::table::same_bytes(a.as_slice(), b.as_slice()) {
                    return false;
                }
            },
            _ => {
                return false;
            },
        }
        i = i + 1;
    }
    proof {
        lemma_lookup_finds(*idx, table.entries(), missing@);
    }
    let direct = idx.lookup(missing);
    let mediated = lookup_host_mediated(table, missing, default_capacity);
    match (direct, mediated) {
        (Ok(None), Ok(None)) => true,
        _ => false,
    }
}

} // verus!
