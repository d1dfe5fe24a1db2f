//! The change detector behind the polling file watcher.
//!
//! The code around the library polls the file's modification time on a
//! timer and hands each observation in as a plain value; the state here
//! decides whether the observation differs from the last one, which is
//! when a reload fires.

use vstd::prelude::*;

verus! {

/// One observation of a file's modification time: the time as seconds and
/// nanoseconds since the epoch, or the failure's kind and OS error code.
#[derive(Clone, Debug)]
pub enum FileStamp {
    Time { secs: u64, nanos: u32 },
    Failure { kind: String, code: Option<i32> },
}

/// The observation at the spec level.
pub enum SpecStamp {
    Time { secs: u64, nanos: u32 },
    Failure { kind: Seq<char>, code: Option<i32> },
}

impl View for FileStamp {
    type V = SpecStamp;

    open spec fn view(&self) -> SpecStamp {
        match self {
            FileStamp::Time { secs, nanos } => SpecStamp::Time { secs: *secs, nanos: *nanos },
            FileStamp::Failure { kind, code } => SpecStamp::Failure { kind: kind@, code: *code },
        }
    }
}

/// When two observations count as equal: equal times; or two failures of
/// the same kind and OS error code. A time never equals a failure.
pub open spec fn stamp_eq(a: SpecStamp, b: SpecStamp) -> bool {
    match (a, b) {
        (SpecStamp::Time { secs: s1, nanos: n1 }, SpecStamp::Time { secs: s2, nanos: n2 }) => s1
            == s2 && n1 == n2,
        (
            SpecStamp::Failure { kind: k1, code: c1 },
            SpecStamp::Failure { kind: k2, code: c2 },
        ) => k1 == k2 && c1 == c2,
        _ => false,
    }
}

/// Compare two observations.
pub fn stamps_equal(a: &FileStamp, b: &FileStamp) -> (r: bool)
    ensures
        r == stamp_eq(a@, b@),
{
    match (a, b) {
        (FileStamp::Time { secs: s1, nanos: n1 }, FileStamp::Time { secs: s2, nanos: n2 }) => s1
            == s2 && n1 == n2,
        (
            FileStamp::Failure { kind: k1, code: c1 },
            FileStamp::Failure { kind: k2, code: c2 },
        ) => {
            let codes_equal = match (c1, c2) {
                (Some(x), Some(y)) => x == y,
                (None, None) => true,
                _ => false,
            };
            codes_equal && crate::text::str_eq(k1.as_str(), k2.as_str())
        },
        _ => false,
    }
}

/// The watcher's memory: the last observation of the file.
#[derive(Debug)]
pub struct WatchState {
    last: FileStamp,
}

impl View for WatchState {
    type V = SpecStamp;

    closed spec fn view(&self) -> SpecStamp {
        self.last@
    }
}

impl WatchState {
    /// Remember the observation made when watching began.
    pub fn new(initial: FileStamp) -> (r: WatchState)
        ensures
            r@ == initial@,
    {
        WatchState { last: initial }
    }

    /// Take one observation: fires, and keeps the observation, exactly
    /// when it differs from the last one.
    pub fn observe(&mut self, stamp: FileStamp) -> (fired: bool)
        ensures
            fired == !stamp_eq(old(self)@, stamp@),
            fired ==> final(self)@ == stamp@,
            !fired ==> final(self)@ == old(self)@,
    {
        if stamps_equal(&self.last, &stamp) {
            false
        } else {
            self.last = stamp;
            true
        }
    }
}

} // verus!
