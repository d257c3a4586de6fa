//! The vector store: its addresses, and how often it is tried.
use crate::config::Config;
use crate::text;
use crate::text::{owned, trim_end_matches};
use vstd::prelude::*;

verus! {

/// How often the store is probed at the start before it is given up.
pub const MOST_PROBES: u32 = 60;

/// How long to wait after a failed probe, in milliseconds.
pub const PROBE_PAUSE_MILLIS: u64 = 1000;

/// How often points are sent to the store before they are given up.
pub const MOST_UPSERTS: u32 = 3;

// ---------------------------------------------------------------------------
// Addresses
// ---------------------------------------------------------------------------

/// The address of the collection, followed by `tail`.
pub open spec fn collection_address(config: Config, tail: Seq<char>) -> Seq<char> {
    config.qdrant_url@ + "/collections/"@ + config.collection@ + tail
}

fn address(config: &Config, tail: &str) -> (r: String)
    ensures
        r@ == collection_address(*config, tail@),
{
    let mut out: String = owned(config.qdrant_url.as_str());
    out.push_str("/collections/");
    out.push_str(config.collection.as_str());
    out.push_str(tail);
    out
}

/// The address of the collection itself.
pub fn collection_url(config: &Config) -> (r: String)
    ensures
        r@ == config.qdrant_url@ + "/collections/"@ + config.collection@,
{
    let r: String = address(config, "");
    proof {
        reveal_strlit("");
    }
    assert(r@ == config.qdrant_url@ + "/collections/"@ + config.collection@);
    r
}

/// Where the collection is searched.
pub fn search_url(config: &Config) -> (r: String)
    ensures
        r@ == collection_address(*config, "/points/search"@),
{
    address(config, "/points/search")
}

/// Where points are stored.
pub fn upsert_url(config: &Config) -> (r: String)
    ensures
        r@ == collection_address(*config, "/points?wait=true"@),
{
    address(config, "/points?wait=true")
}

/// Where points are deleted.
pub fn delete_url(config: &Config) -> (r: String)
    ensures
        r@ == collection_address(*config, "/points/delete?wait=true"@),
{
    address(config, "/points/delete?wait=true")
}

/// Where the store is probed: its address with exactly one `/` at the end.
pub fn probe_url(qdrant_url: &str) -> (r: String)
    ensures
        r@ == text::without_trailing(qdrant_url@, '/').push('/'),
{
    let mut out: String = trim_end_matches(qdrant_url, '/');
    out.push('/');
    out
}

// ---------------------------------------------------------------------------
// Waiting for the store
// ---------------------------------------------------------------------------

/// What to do after a probe.
pub enum ProbeStep {
    /// The store is there.
    Ready,
    /// Wait, and probe again.
    Again,
    /// Wait, and give up with this error.
    GiveUp(String),
}

/// The probes that failed so far.
pub struct Probing {
    pub failures: u32,
}

impl Probing {
    /// No probe failed yet.
    pub fn begin() -> (r: Self)
        ensures
            r.failures == 0,
    {
        Probing { failures: 0 }
    }

    /// What to do after a probe of the store at `qdrant_url`.
    pub fn probed(&mut self, ready: bool, qdrant_url: &str) -> (r: ProbeStep)
        requires
            old(self).failures < MOST_PROBES,
        ensures
            final(self).failures == old(self).failures + (if ready {
                0int
            } else {
                1int
            }),
            match r {
                ProbeStep::Ready => ready,
                ProbeStep::Again => !ready && final(self).failures < MOST_PROBES,
                ProbeStep::GiveUp(error) => {
                    &&& !ready
                    &&& final(self).failures == MOST_PROBES
                    &&& error@ == "Qdrant no respondió en "@ + qdrant_url@
                },
            },
    {
        if ready {
            return ProbeStep::Ready;
        }
        self.failures = self.failures + 1;
        if self.failures < MOST_PROBES {
            ProbeStep::Again
        } else {
            let mut error: String = owned("Qdrant no respondió en ");
            error.push_str(qdrant_url);
            ProbeStep::GiveUp(error)
        }
    }
}

/// The collection to create.
pub struct NewCollection {
    pub size: usize,
    pub distance: &'static str,
}

/// The collection to create, where there is none: of vectors with as many numbers as
/// the settings say.
pub fn ensure_qdrant_collection(exists: bool, config: &Config) -> (r: Option<NewCollection>)
    ensures
        match r {
            Some(new) => {
                &&& !exists
                &&& new.size == config.embedding_dimension
                &&& new.distance@ == "Cosine"@
            },
            None => exists,
        },
{
    if exists {
        None
    } else {
        Some(NewCollection { size: config.embedding_dimension, distance: "Cosine" })
    }
}

// ---------------------------------------------------------------------------
// Storing points
// ---------------------------------------------------------------------------

/// What to do to have points stored.
pub enum UpsertStep {
    /// Nothing more: they are stored, or there were none.
    Done,
    /// Wait for so many milliseconds, and send them.
    Send(u64),
    /// Give up with this error.
    GiveUp(String),
}

/// Points that are being sent: the attempts that failed, and the last error.
pub struct Upserting {
    pub failures: u32,
    pub last_error: Option<String>,
}

impl Upserting {
    /// Every failed attempt left an error.
    pub open spec fn well_formed(self) -> bool {
        &&& self.failures <= MOST_UPSERTS
        &&& self.failures > 0 <==> self.last_error is Some
    }

    /// How long to wait before the next attempt: not at all before the first, then a
    /// second, and half a second more each time.
    pub open spec fn pause(self) -> int {
        if self.failures == 0 {
            0
        } else {
            500 * (self.failures + 1)
        }
    }

    /// Begins to send `points` points.
    pub fn begin(points: usize) -> (r: (Self, UpsertStep))
        ensures
            r.0.well_formed(),
            r.0.failures == 0,
            match r.1 {
                UpsertStep::Done => points == 0,
                UpsertStep::Send(millis) => points > 0 && millis == 0,
                UpsertStep::GiveUp(_) => false,
            },
    {
        let fresh: Upserting = Upserting { failures: 0, last_error: None };
        if points == 0 {
            (fresh, UpsertStep::Done)
        } else {
            (fresh, UpsertStep::Send(0))
        }
    }

    /// What to do after an attempt, which ended in `error` where there is one.
    pub fn sent(&mut self, error: Option<String>) -> (r: UpsertStep)
        requires
            old(self).well_formed(),
            old(self).failures < MOST_UPSERTS,
        ensures
            final(self).well_formed(),
            match error {
                Some(e) => {
                    &&& final(self).failures == old(self).failures + 1
                    &&& final(self).last_error == Some(e)
                    &&& match r {
                        UpsertStep::Done => false,
                        UpsertStep::Send(millis) => final(self).failures < MOST_UPSERTS && millis
                            == final(self).pause(),
                        UpsertStep::GiveUp(last) => final(self).failures == MOST_UPSERTS && last@
                            == e@,
                    }
                },
                None => r is Done && *final(self) == *old(self),
            },
    {
        match error {
            Some(e) => {
                self.failures = self.failures + 1;
                let last: String = e.clone();
                self.last_error = Some(e);
                if self.failures < MOST_UPSERTS {
                    UpsertStep::Send(500 * (self.failures as u64 + 1))
                } else {
                    UpsertStep::GiveUp(last)
                }
            },
            None => UpsertStep::Done,
        }
    }
}

/// The address of a collection is that of the store, `/collections/` and its name, with the
/// tail behind it.
pub proof fn collections_have_their_address(config: Config, tail: Seq<char>)
    ensures
        collection_address(config, tail) == config.qdrant_url@ + "/collections/"@
            + config.collection@ + tail,
{
}

/// Points are sent three times at most: at once, after a second, and after a second and a
/// half.
pub proof fn points_are_sent_three_times_at_most(sending: Upserting)
    requires
        sending.well_formed(),
    ensures
        MOST_UPSERTS == 3,
        sending.failures <= 3,
        sending.failures > 0 <==> sending.last_error is Some,
        sending.failures == 0 ==> sending.pause() == 0,
        sending.failures == 1 ==> sending.pause() == 1000,
        sending.failures == 2 ==> sending.pause() == 1500,
{
}

/// The store is waited for one minute: 60 probes, a second apart.
pub proof fn the_store_is_waited_for_a_minute()
    ensures
        MOST_PROBES == 60,
        PROBE_PAUSE_MILLIS == 1000,
{
}

} // verus!
