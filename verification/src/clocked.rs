//! The operations that depend on the time, with the time read from the
//! system clock. Each hands the reading to the operation that takes the
//! time as an argument. If the clock cannot be read, `open`, `putex`,
//! `compact`, `restore` and the operations that set a field or add an item
//! do nothing and fail with `SystemTime`; a read, a scan or a pop takes
//! the end of time for the reading, so that what may expire counts as
//! expired and what never expires is still read.

use vstd::prelude::*;
use vstd::utf8::encode_utf8;

use crate::composite::{
    field_set, field_text, hash_field_removed, hash_field_set, hash_pairs, list_length,
    list_pushed, list_ranged, opt_view, set_added,
};
use crate::json::{pairs_view, texts_view};
use crate::kv::{opt_bytes, opt_range, selected, valid_key_text, SlackbaseEngine, Snapshot};
use crate::serialization::Serializer;
use crate::store::read;
use crate::types::Error;

verus! {

/// `std::time::SystemTime`, taken as it is.
#[verifier::external_type_specification]
#[verifier::external_body]
pub struct ExSystemTime(std::time::SystemTime);

/// `std::time::SystemTimeError`, taken as it is.
#[verifier::external_type_specification]
#[verifier::external_body]
pub struct ExSystemTimeError(std::time::SystemTimeError);

/// `SystemTime::now`. Nothing is believed of the reading.
pub assume_specification[ std::time::SystemTime::now ]() -> (r: std::time::SystemTime)
;

/// `SystemTime::duration_since`. Nothing is believed of the result: it is
/// an error when the time stands before `earlier`.
pub assume_specification[ std::time::SystemTime::duration_since ](
    time: &std::time::SystemTime,
    earlier: std::time::SystemTime,
) -> (r: Result<core::time::Duration, std::time::SystemTimeError>)
;

/// `Duration::as_secs`. Nothing is believed of the result.
pub assume_specification[ core::time::Duration::as_secs ](span: &core::time::Duration) -> (r: u64)
;

/// `std::time::UNIX_EPOCH`.
#[verifier::external_body]
pub(crate) fn unix_epoch() -> (r: std::time::SystemTime) {
    std::time::UNIX_EPOCH
}

/// The time now, in seconds since the Unix epoch; `None` when the clock
/// stands before the epoch.
pub fn unix_now() -> (r: Option<u64>) {
    match std::time::SystemTime::now().duration_since(unix_epoch()) {
        Ok(span) => Some(span.as_secs()),
        Err(_) => None,
    }
}

impl<S: Serializer> SlackbaseEngine<S> {
    /// Opens a store now. See `open_at`.
    pub fn open(log: Vec<u8>, wal: Vec<u8>, hint: Option<Vec<u8>>, serializer: S) -> (r: Result<
        Self,
        Error,
    >)
        ensures
            match r {
                Ok(engine) => exists|now: u64| #[trigger]
                    engine.opened(log@, wal@, crate::kv::opt_image(hint), serializer, now),
                Err(e) => e == Error::SystemTime || e == Error::Serde,
            },
    {
        match unix_now() {
            Some(now) => Self::open_at(log, wal, hint, serializer, now),
            None => Err(Error::SystemTime),
        }
    }

    /// Writes `value` under `key`, to expire `ttl_secs` seconds from now.
    /// See `putex_at`.
    pub fn putex(&mut self, key: &str, value: &str, ttl_secs: u64) -> (r: Result<(), Error>)
        requires
            old(self).wf(),
            valid_key_text(key@),
        ensures
            final(self).wf(),
            (r == Err::<(), Error>(Error::SystemTime) && final(self).unchanged(old(self)))
                || exists|now: u64| #[trigger]
                final(self).wrote(
                    old(self),
                    key@,
                    value@,
                    Some(crate::kv::expiry_after(now, ttl_secs)),
                    r,
                ),
    {
        match unix_now() {
            Some(now) => self.putex_at(key, value, ttl_secs, now),
            None => Err(Error::SystemTime),
        }
    }

    /// Reads `key` now. See `get_at`.
    ///
    /// A clock that cannot be read counts as the end of time: a value that
    /// may expire then reads as nothing, and a value that never expires is
    /// read as at any other time. So a key that holds nothing gives
    /// nothing, and a key whose value never expires gives that value,
    /// whatever the clock does.
    pub fn get(&mut self, key: &str) -> (r: Option<String>)
        requires
            old(self).wf(),
        ensures
            final(self).wf(),
            exists|now: u64| #[trigger] final(self).got(old(self), key@, now, opt_view(r)),
            !old(self).held().contains_key(encode_utf8(key@)) ==> r is None,
            old(self).held().contains_key(encode_utf8(key@)) && old(self).held()[encode_utf8(
                key@,
            )].expiry is None ==> opt_view(r) == old(self).held()[encode_utf8(key@)].text,
    {
        let now = match unix_now() {
            Some(reading) => reading,
            None => u64::MAX,
        };
        self.get_at(key, now)
    }

    /// Compacts the store now. See `compact_at`.
    pub fn compact(&mut self) -> (r: Result<(), Error>)
        requires
            old(self).wf(),
        ensures
            final(self).wf(),
            match r {
                Ok(_) => exists|now: u64| #[trigger] final(self).compacted_at(old(self), now),
                Err(e) => e == Error::SystemTime && final(self).unchanged(old(self)),
            },
    {
        match unix_now() {
            Some(now) => self.compact_at(now),
            None => Err(Error::SystemTime),
        }
    }

    /// Restores a snapshot now. See `restore_at`.
    pub fn restore(&mut self, snapshot: &Snapshot) -> (r: Result<(), Error>)
        requires
            old(self).wf(),
        ensures
            final(self).wf(),
            final(self).serializer() == old(self).serializer(),
            match r {
                Ok(_) => exists|now: u64| #[trigger]
                    final(self).opened(
                        snapshot.log@,
                        snapshot.wal@,
                        Some(snapshot.hint@),
                        old(self).serializer(),
                        now,
                    ),
                Err(e) => final(self).unchanged(old(self)) && (e == Error::SystemTime || e
                    == Error::Serde),
            },
    {
        match unix_now() {
            Some(now) => self.restore_at(snapshot, now),
            None => Err(Error::SystemTime),
        }
    }

    /// Scans the keys now. See `scan_at`.
    ///
    /// A clock that cannot be read counts as the end of time: the keys are
    /// listed all the same, and a value that may expire is listed as
    /// nothing.
    pub fn scan(&mut self, prefix: Option<&str>, range: Option<(&str, &str)>) -> (r: Vec<
        (String, Option<String>),
    >)
        requires
            old(self).wf(),
        ensures
            final(self).wf(),
            exists|now: u64| #[trigger]
                final(self).scan_done(old(self), opt_bytes(prefix), opt_range(range), now, r@),
            r@.len() == selected(old(self).keys(), opt_bytes(prefix), opt_range(range)).len(),
            forall|i: int|
                0 <= i < r@.len() ==> encode_utf8((#[trigger] r@[i]).0@) == selected(
                    old(self).keys(),
                    opt_bytes(prefix),
                    opt_range(range),
                )[i],
    {
        let now = match unix_now() {
            Some(reading) => reading,
            None => u64::MAX,
        };
        self.scan_at(prefix, range, now)
    }

    /// See `json_set_field_at`.
    pub fn json_set_field(&mut self, key: &str, field: &str, value: &str) -> (r: Result<(), Error>)
        requires
            old(self).wf(),
            valid_key_text(key@),
        ensures
            final(self).wf(),
            (r == Err::<(), Error>(Error::SystemTime) && final(self).unchanged(old(self)))
                || exists|now: u64|
                final(self).read_then_wrote(
                    old(self),
                    key@,
                    now,
                    field_set(
                        #[trigger] read(old(self).held(), encode_utf8(key@), now),
                        field@,
                        value@,
                    ),
                    r,
                ),
    {
        match unix_now() {
            Some(now) => self.json_set_field_at(key, field, value, now),
            None => Err(Error::SystemTime),
        }
    }

    /// The JSON text of `field` of the object under `key`, read now. See
    /// `json_get_field_at`. A clock that cannot be read counts as the end
    /// of time.
    pub fn json_get_field(&mut self, key: &str, field: &str) -> (r: Option<String>)
        requires
            old(self).wf(),
        ensures
            final(self).wf(),
            exists|now: u64|
                final(self).got(
                    old(self),
                    key@,
                    now,
                    #[trigger] read(old(self).held(), encode_utf8(key@), now),
                ) && opt_view(r) == field_text(
                    read(old(self).held(), encode_utf8(key@), now),
                    field@,
                ),
    {
        let now = match unix_now() {
            Some(reading) => reading,
            None => u64::MAX,
        };
        self.json_get_field_at(key, field, now)
    }

    /// See `hash_set_at`.
    pub fn hash_set(&mut self, key: &str, field: &str, value: &str) -> (r: Result<(), Error>)
        requires
            old(self).wf(),
            valid_key_text(key@),
        ensures
            final(self).wf(),
            (r == Err::<(), Error>(Error::SystemTime) && final(self).unchanged(old(self)))
                || exists|now: u64|
                final(self).read_then_wrote(
                    old(self),
                    key@,
                    now,
                    hash_field_set(
                        #[trigger] read(old(self).held(), encode_utf8(key@), now),
                        field@,
                        value@,
                    ),
                    r,
                ),
    {
        match unix_now() {
            Some(now) => self.hash_set_at(key, field, value, now),
            None => Err(Error::SystemTime),
        }
    }

    /// The JSON text of `field` of the hash under `key`, read now. See
    /// `hash_get_at`. A clock that cannot be read counts as the end of
    /// time.
    pub fn hash_get(&mut self, key: &str, field: &str) -> (r: Option<String>)
        requires
            old(self).wf(),
        ensures
            final(self).wf(),
            exists|now: u64|
                final(self).got(
                    old(self),
                    key@,
                    now,
                    #[trigger] read(old(self).held(), encode_utf8(key@), now),
                ) && opt_view(r) == field_text(
                    read(old(self).held(), encode_utf8(key@), now),
                    field@,
                ),
    {
        let now = match unix_now() {
            Some(reading) => reading,
            None => u64::MAX,
        };
        self.hash_get_at(key, field, now)
    }

    /// See `hash_del_at`.
    pub fn hash_del(&mut self, key: &str, field: &str) -> (r: Result<(), Error>)
        requires
            old(self).wf(),
            valid_key_text(key@),
        ensures
            final(self).wf(),
            (r == Err::<(), Error>(Error::SystemTime) && final(self).unchanged(old(self)))
                || exists|now: u64|
                final(self).read_then_wrote(
                    old(self),
                    key@,
                    now,
                    hash_field_removed(
                        #[trigger] read(old(self).held(), encode_utf8(key@), now),
                        field@,
                    ),
                    r,
                ),
    {
        match unix_now() {
            Some(now) => self.hash_del_at(key, field, now),
            None => Err(Error::SystemTime),
        }
    }

    /// All fields of the hash under `key`, read now. See `hash_getall_at`.
    /// A clock that cannot be read counts as the end of time.
    pub fn hash_getall(&mut self, key: &str) -> (r: Option<Vec<(String, String)>>)
        requires
            old(self).wf(),
        ensures
            final(self).wf(),
            exists|now: u64|
                final(self).got(
                    old(self),
                    key@,
                    now,
                    #[trigger] read(old(self).held(), encode_utf8(key@), now),
                ) && (match hash_pairs(read(old(self).held(), encode_utf8(key@), now)) {
                    Some(p) => r is Some && pairs_view(r->Some_0@) == p,
                    None => r is None,
                }),
    {
        let now = match unix_now() {
            Some(reading) => reading,
            None => u64::MAX,
        };
        self.hash_getall_at(key, now)
    }

    /// See `list_push_at`.
    pub fn list_push(&mut self, key: &str, value: &str) -> (r: Result<(), Error>)
        requires
            old(self).wf(),
            valid_key_text(key@),
        ensures
            final(self).wf(),
            (r == Err::<(), Error>(Error::SystemTime) && final(self).unchanged(old(self)))
                || exists|now: u64|
                final(self).read_then_wrote(
                    old(self),
                    key@,
                    now,
                    list_pushed(
                        #[trigger] read(old(self).held(), encode_utf8(key@), now),
                        value@,
                        false,
                    ),
                    r,
                ),
    {
        match unix_now() {
            Some(now) => self.list_push_at(key, value, now),
            None => Err(Error::SystemTime),
        }
    }

    /// See `list_lpush_at`.
    pub fn list_lpush(&mut self, key: &str, value: &str) -> (r: Result<(), Error>)
        requires
            old(self).wf(),
            valid_key_text(key@),
        ensures
            final(self).wf(),
            (r == Err::<(), Error>(Error::SystemTime) && final(self).unchanged(old(self)))
                || exists|now: u64|
                final(self).read_then_wrote(
                    old(self),
                    key@,
                    now,
                    list_pushed(
                        #[trigger] read(old(self).held(), encode_utf8(key@), now),
                        value@,
                        true,
                    ),
                    r,
                ),
    {
        match unix_now() {
            Some(now) => self.list_lpush_at(key, value, now),
            None => Err(Error::SystemTime),
        }
    }

    /// See `list_rpush_at`.
    pub fn list_rpush(&mut self, key: &str, value: &str) -> (r: Result<(), Error>)
        requires
            old(self).wf(),
            valid_key_text(key@),
        ensures
            final(self).wf(),
            (r == Err::<(), Error>(Error::SystemTime) && final(self).unchanged(old(self)))
                || exists|now: u64|
                final(self).read_then_wrote(
                    old(self),
                    key@,
                    now,
                    list_pushed(
                        #[trigger] read(old(self).held(), encode_utf8(key@), now),
                        value@,
                        false,
                    ),
                    r,
                ),
    {
        match unix_now() {
            Some(now) => self.list_rpush_at(key, value, now),
            None => Err(Error::SystemTime),
        }
    }

    /// See `set_add_at`.
    pub fn set_add(&mut self, key: &str, value: &str) -> (r: Result<(), Error>)
        requires
            old(self).wf(),
            valid_key_text(key@),
        ensures
            final(self).wf(),
            (r == Err::<(), Error>(Error::SystemTime) && final(self).unchanged(old(self)))
                || exists|now: u64|
                final(self).read_then_wrote(
                    old(self),
                    key@,
                    now,
                    set_added(#[trigger] read(old(self).held(), encode_utf8(key@), now), value@),
                    r,
                ),
    {
        match unix_now() {
            Some(now) => self.set_add_at(key, value, now),
            None => Err(Error::SystemTime),
        }
    }

    /// Takes the first item from the list under `key`, read now. See
    /// `list_lpop_at`. A clock that cannot be read counts as the end of
    /// time: a list that may expire gives nothing and stays as it is.
    pub fn list_lpop(&mut self, key: &str) -> (r: Option<String>)
        requires
            old(self).wf(),
            valid_key_text(key@),
        ensures
            final(self).wf(),
            exists|now: u64| #[trigger]
                final(self).popped(old(self), key@, true, now, opt_view(r)),
    {
        let now = match unix_now() {
            Some(reading) => reading,
            None => u64::MAX,
        };
        self.list_lpop_at(key, now)
    }

    /// Takes the last item from the list under `key`, read now. See
    /// `list_rpop_at`. A clock that cannot be read counts as the end of
    /// time: a list that may expire gives nothing and stays as it is.
    pub fn list_rpop(&mut self, key: &str) -> (r: Option<String>)
        requires
            old(self).wf(),
            valid_key_text(key@),
        ensures
            final(self).wf(),
            exists|now: u64| #[trigger]
                final(self).popped(old(self), key@, false, now, opt_view(r)),
    {
        let now = match unix_now() {
            Some(reading) => reading,
            None => u64::MAX,
        };
        self.list_rpop_at(key, now)
    }

    /// The JSON texts of the items of the list under `key` from `start` to
    /// `end`, read now. See `list_range_at`. A clock that cannot be read
    /// counts as the end of time.
    pub fn list_range(&mut self, key: &str, start: isize, end: isize) -> (r: Option<Vec<String>>)
        requires
            old(self).wf(),
        ensures
            final(self).wf(),
            exists|now: u64|
                final(self).got(
                    old(self),
                    key@,
                    now,
                    #[trigger] read(old(self).held(), encode_utf8(key@), now),
                ) && (match list_ranged(
                    read(old(self).held(), encode_utf8(key@), now),
                    start as int,
                    end as int,
                ) {
                    Some(t) => r is Some && texts_view(r->Some_0@) == t,
                    None => r is None,
                }),
    {
        let now = match unix_now() {
            Some(reading) => reading,
            None => u64::MAX,
        };
        self.list_range_at(key, start, end, now)
    }

    /// The number of items of the list under `key`, read now. See
    /// `list_len_at`. A clock that cannot be read counts as the end of
    /// time.
    pub fn list_len(&mut self, key: &str) -> (r: usize)
        requires
            old(self).wf(),
        ensures
            final(self).wf(),
            exists|now: u64|
                final(self).got(
                    old(self),
                    key@,
                    now,
                    #[trigger] read(old(self).held(), encode_utf8(key@), now),
                ) && r == list_length(read(old(self).held(), encode_utf8(key@), now)),
    {
        let now = match unix_now() {
            Some(reading) => reading,
            None => u64::MAX,
        };
        self.list_len_at(key, now)
    }
}

} // verus!
