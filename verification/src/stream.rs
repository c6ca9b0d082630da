//! The durable stream and its pull consumers.
//!
//! A stream is an append-only log of records, each filed under a
//! subject that must match one of the stream's subject filters.  A
//! consumer is a cursor-based reader over that log: it sees the
//! records from its start position (the whole log for deliver policy
//! `All`, only later records for `New`) whose subject matches its
//! filter.  Fetching hands out the pending records in stream order, a
//! bounded batch at a time, and counts a delivery for each; a record
//! is pending until it is acknowledged, and one that has been
//! delivered three times without acknowledgment is never delivered
//! again.  Durable consumers bear a name and are reattached, cursor
//! and all, when created again under that name.

use crate::codec::encode_squeak;
use crate::codec::wire_of;
use crate::error::OddbotError;
use crate::message::EventMessage;
use crate::subject::check_filter_subject;
use crate::subject::filter_matches;
use crate::subject::subject_matches;
use crate::subject::valid_filter_subject;
use crate::text::chars_of;
use vstd::prelude::*;

verus! {

/// How many times a record may be delivered in all.
pub const MAX_DELIVER: u32 = 3;

/// The retention window of a new stream: thirty days, in seconds.
pub const RETENTION_SECS: u64 = 2592000;

/// Where a fresh consumer starts reading.
#[derive(Clone, Copy, PartialEq, Eq, Structural, Debug)]
pub enum DeliverPolicy {
    /// Replay from the start of the stream.
    All,
    /// Only records written after the consumer was created.
    New,
}

/// One record of the log: a routing subject and an encoded payload.
#[derive(Debug)]
pub struct StoredRecord {
    pub subject: String,
    pub payload: String,
}

/// One fetched record: its position in the log, its fields, and how
/// many times it has now been delivered.
#[derive(Debug)]
pub struct Delivery {
    pub seq: usize,
    pub subject: String,
    pub payload: String,
    pub deliveries: u32,
}

/// One consumer: its identity, filter, start position, and per-record
/// delivery state.  The two state vectors grow lazily; a record beyond
/// their end has never been delivered nor acknowledged.
#[derive(Debug)]
pub struct Consumer {
    pub durable_name: Option<String>,
    pub filter: String,
    pub policy: DeliverPolicy,
    pub start: usize,
    pub deliveries: Vec<u32>,
    pub acked: Vec<bool>,
}

/// The delivery count a vector of counts records at position `i`: a
/// position beyond its end has never been delivered.
pub open spec fn count_of(dels: Seq<u32>, i: int) -> int {
    if 0 <= i < dels.len() {
        dels[i] as int
    } else {
        0
    }
}

impl Consumer {
    /// How many times record `i` has been delivered to this consumer.
    pub open spec fn count_at(&self, i: int) -> int {
        count_of(self.deliveries@, i)
    }

    /// Whether record `i` has been acknowledged by this consumer.
    pub open spec fn acked_at(&self, i: int) -> bool {
        0 <= i < self.acked@.len() && self.acked@[i]
    }
}

/// The sequence numbers of a batch of deliveries.
pub open spec fn seqs_of(ds: Seq<Delivery>) -> Seq<int> {
    Seq::new(ds.len(), |k: int| ds[k].seq as int)
}

/// A durable, append-only stream together with the consumers
/// provisioned on it.
#[derive(Debug)]
pub struct EventStream {
    pub stream_name: String,
    pub subjects: Vec<String>,
    pub description: Option<String>,
    pub max_age_secs: u64,
    pub records: Vec<StoredRecord>,
    pub consumers: Vec<Consumer>,
}

impl EventStream {
    /// Every consumer's state stays within the log: start position and
    /// state vectors never run past the end, and no delivery count
    /// passes the redelivery bound.
    pub open spec fn wf(&self) -> bool {
        forall|c: int|
            0 <= c < self.consumers@.len() ==> {
                let con = #[trigger] self.consumers@[c];
                &&& con.start <= self.records@.len()
                &&& con.deliveries@.len() <= self.records@.len()
                &&& con.acked@.len() <= self.records@.len()
                &&& forall|i: int|
                    0 <= i < con.deliveries@.len() ==> #[trigger] con.deliveries@[i] <= MAX_DELIVER
            }
    }

    /// Whether record `i` is pending for consumer `c`: visible from
    /// its start, matching its filter, not acknowledged, and not yet
    /// delivered the maximum number of times.
    pub open spec fn is_pending(&self, c: int, i: int) -> bool {
        let con = self.consumers@[c];
        &&& 0 <= i < self.records@.len()
        &&& con.start <= i
        &&& subject_matches(con.filter@, self.records@[i].subject@)
        &&& !con.acked_at(i)
        &&& con.count_at(i) < MAX_DELIVER
    }

    /// The pending record positions of consumer `c` that lie in
    /// `[lo, hi)`, in stream order.
    pub open spec fn pending_between(&self, c: int, lo: int, hi: int) -> Seq<int>
        decreases hi - lo,
    {
        if lo >= hi {
            Seq::empty()
        } else if self.is_pending(c, hi - 1) {
            self.pending_between(c, lo, hi - 1).push(hi - 1)
        } else {
            self.pending_between(c, lo, hi - 1)
        }
    }

    /// All pending record positions of consumer `c`, in stream order.
    pub open spec fn pending(&self, c: int) -> Seq<int> {
        self.pending_between(c, 0, self.records@.len() as int)
    }
}

/// Whether a consumer bears the given durable name.
pub open spec fn bears(con: Consumer, n: Seq<char>) -> bool {
    con.durable_name matches Some(m) && m@ == n
}

/// The first position at or after `i` whose consumer bears the name,
/// or the length when none does.
pub open spec fn first_durable_from(s: Seq<Consumer>, n: Seq<char>, i: int) -> int
    decreases s.len() - i,
{
    if i >= s.len() {
        s.len() as int
    } else if bears(s[i], n) {
        i
    } else {
        first_durable_from(s, n, i + 1)
    }
}

/// Is true when every subject filter in the list is well formed and
/// there is at least one.
pub open spec fn valid_subjects(subs: Seq<String>) -> bool {
    subs.len() > 0 && forall|k: int| 0 <= k < subs.len() ==> valid_filter_subject((#[trigger] subs[k])@)
}

impl EventStream {
    /// The position of the durable consumer bearing this name, or the
    /// number of consumers when there is none.
    pub open spec fn durable_lookup(&self, n: Seq<char>) -> int {
        first_durable_from(self.consumers@, n, 0)
    }

    /// Provisions a new stream: a name, the subject filters records
    /// may be filed under, an optional description, and a thirty-day
    /// retention window.  Creation fails, and nothing comes into
    /// being, exactly when the subject list is empty or some filter
    /// in it is malformed.
    pub fn new_stream(stream_name: String, subjects: Vec<String>, description: Option<String>) -> (r:
        Result<EventStream, OddbotError>)
        ensures
            valid_subjects(subjects@) ==> (r matches Ok(s) && s.wf() && s.stream_name == stream_name
                && s.subjects == subjects && s.description == description && s.max_age_secs
                == RETENTION_SECS && s.records@.len() == 0 && s.consumers@.len() == 0),
            !valid_subjects(subjects@) ==> r == Err::<EventStream, OddbotError>(
                OddbotError::StreamCreate,
            ),
    {
        if subjects.len() == 0 {
            return Err(OddbotError::StreamCreate);
        }
        let mut k: usize = 0;
        while k < subjects.len()
            invariant
                0 <= k <= subjects@.len(),
                forall|j: int| 0 <= j < k ==> valid_filter_subject((#[trigger] subjects@[j])@),
            decreases subjects@.len() - k,
        {
            let cs = chars_of(subjects[k].as_str());
            if !check_filter_subject(&cs) {
                return Err(OddbotError::StreamCreate);
            }
            k = k + 1;
        }
        Ok(
            EventStream {
                stream_name,
                subjects,
                description,
                max_age_secs: RETENTION_SECS,
                records: Vec::new(),
                consumers: Vec::new(),
            },
        )
    }

    /// Appends one record, filed under its subject, provided the
    /// subject matches one of the stream's filters; otherwise nothing
    /// is appended and publishing fails.  A new record becomes
    /// pending for every consumer whose filter matches and whose
    /// start position it lies past.
    pub fn publish_raw(&mut self, subject: String, payload: String) -> (r: Result<(), OddbotError>)
        requires
            old(self).wf(),
        ensures
            final(self).wf(),
            (exists|k: int|
                0 <= k < old(self).subjects@.len() && subject_matches(
                    (#[trigger] old(self).subjects@[k])@,
                    subject@,
                )) ==> {
                &&& r is Ok
                &&& final(self).records@.len() == old(self).records@.len() + 1
                &&& final(self).records@.drop_last() == old(self).records@
                &&& final(self).records@.last().subject == subject
                &&& final(self).records@.last().payload == payload
                &&& final(self).consumers == old(self).consumers
                &&& final(self).subjects == old(self).subjects
                &&& final(self).stream_name == old(self).stream_name
                &&& final(self).description == old(self).description
                &&& final(self).max_age_secs == old(self).max_age_secs
            },
            !(exists|k: int|
                0 <= k < old(self).subjects@.len() && subject_matches(
                    (#[trigger] old(self).subjects@[k])@,
                    subject@,
                )) ==> r == Err::<(), OddbotError>(OddbotError::StreamPublish) && *final(self)
                == *old(self),
    {
        let mut k: usize = 0;
        let mut matched = false;
        while k < self.subjects.len() && !matched
            invariant
                0 <= k <= self.subjects@.len(),
                matched ==> (exists|j: int|
                    0 <= j < self.subjects@.len() && subject_matches(
                        (#[trigger] self.subjects@[j])@,
                        subject@,
                    )),
                !matched ==> (forall|j: int|
                    0 <= j < k ==> !subject_matches((#[trigger] self.subjects@[j])@, subject@)),
            decreases self.subjects@.len() - k + if matched { 0int } else { 1int },
        {
            if filter_matches(self.subjects[k].as_str(), subject.as_str()) {
                matched = true;
            } else {
                k = k + 1;
            }
        }
        if !matched {
            return Err(OddbotError::StreamPublish);
        }
        self.records.push(StoredRecord { subject, payload });
        proof {
            assert(self.records@.drop_last() =~= old(self).records@);
        }
        Ok(())
    }

    /// Provisions a pull consumer on this stream, or reattaches to a
    /// durable one.  Without a name the consumer is ephemeral and
    /// always fresh.  With a name: if no consumer bears it, a fresh
    /// durable consumer is created; if one does, it is returned as it
    /// stands — same cursor, same delivery state — provided the
    /// filter and deliver policy agree, and creation fails on any
    /// mismatch.  A fresh consumer starts at the head of the log for
    /// deliver policy `All` and past its current end for `New`.
    pub fn create_consumer(&mut self, name: Option<String>, filter: String, policy: DeliverPolicy) -> (r:
        Result<usize, OddbotError>)
        requires
            old(self).wf(),
        ensures
            final(self).wf(),
            ({
                let fresh = match name {
                    Option::None => true,
                    Option::Some(n) => old(self).durable_lookup(n@) == old(
                        self,
                    ).consumers@.len(),
                };
                if fresh {
                    &&& r == Ok::<usize, OddbotError>(old(self).consumers@.len() as usize)
                    &&& final(self).consumers@.len() == old(self).consumers@.len() + 1
                    &&& final(self).consumers@.drop_last() == old(self).consumers@
                    &&& final(self).consumers@.last().durable_name == name
                    &&& final(self).consumers@.last().filter == filter
                    &&& final(self).consumers@.last().policy == policy
                    &&& final(self).consumers@.last().start == (if policy is All {
                        0int
                    } else {
                        old(self).records@.len() as int
                    })
                    &&& final(self).consumers@.last().deliveries@.len() == 0
                    &&& final(self).consumers@.last().acked@.len() == 0
                    &&& final(self).records == old(self).records
                    &&& final(self).subjects == old(self).subjects
                    &&& final(self).stream_name == old(self).stream_name
                    &&& final(self).description == old(self).description
                    &&& final(self).max_age_secs == old(self).max_age_secs
                } else {
                    let j = old(self).durable_lookup(name.unwrap()@);
                    &&& *final(self) == *old(self)
                    &&& (old(self).consumers@[j].filter@ == filter@ && old(
                        self,
                    ).consumers@[j].policy == policy ==> r == Ok::<usize, OddbotError>(j as usize))
                    &&& (!(old(self).consumers@[j].filter@ == filter@ && old(
                        self,
                    ).consumers@[j].policy == policy) ==> r == Err::<usize, OddbotError>(
                        OddbotError::StreamConsumerCreate,
                    ))
                }
            }),
    {
        let found: Option<usize> = match &name {
            None => None,
            Some(n) => {
                let mut i: usize = 0;
                let mut hit: Option<usize> = None;
                while i < self.consumers.len() && hit.is_none()
                    invariant
                        0 <= i <= self.consumers@.len(),
                        hit is None ==> first_durable_from(self.consumers@, n@, 0)
                            == first_durable_from(self.consumers@, n@, i as int),
                        hit matches Some(h) ==> h == first_durable_from(self.consumers@, n@, 0)
                            && h < self.consumers@.len(),
                    decreases self.consumers@.len() - i + if hit is Some { 0int } else { 1int },
                {
                    let is_hit = match &self.consumers[i].durable_name {
                        Some(m) => m.eq(n),
                        None => false,
                    };
                    proof {
                        assert(is_hit == bears(self.consumers@[i as int], n@));
                        assert(first_durable_from(self.consumers@, n@, i as int) == (if bears(
                            self.consumers@[i as int],
                            n@,
                        ) {
                            i as int
                        } else {
                            first_durable_from(self.consumers@, n@, i + 1)
                        }));
                    }
                    if is_hit {
                        hit = Some(i);
                    } else {
                        i = i + 1;
                    }
                }
                hit
            },
        };
        match found {
            Some(j) => {
                let same = filter_matches_eq(&self.consumers[j].filter, &filter)
                    && policy_eq(self.consumers[j].policy, policy);
                if same {
                    Ok(j)
                } else {
                    Err(OddbotError::StreamConsumerCreate)
                }
            },
            None => {
                let start = match policy {
                    DeliverPolicy::All => 0,
                    DeliverPolicy::New => self.records.len(),
                };
                let id = self.consumers.len();
                self.consumers.push(
                    Consumer {
                        durable_name: name,
                        filter,
                        policy,
                        start,
                        deliveries: Vec::new(),
                        acked: Vec::new(),
                    },
                );
                proof {
                    assert(self.consumers@.drop_last() =~= old(self).consumers@);
                }
                Ok(id)
            },
        }
    }

    /// Acknowledges one delivered record for one consumer: from now
    /// on it is never pending for that consumer again.  Nothing else
    /// — no other record, no other consumer, no stored data —
    /// changes.
    pub fn ack(&mut self, c: usize, seq: usize)
        requires
            old(self).wf(),
            c < old(self).consumers@.len(),
            seq < old(self).records@.len(),
        ensures
            final(self).wf(),
            final(self).records == old(self).records,
            final(self).subjects == old(self).subjects,
            final(self).stream_name == old(self).stream_name,
            final(self).description == old(self).description,
            final(self).max_age_secs == old(self).max_age_secs,
            final(self).consumers@.len() == old(self).consumers@.len(),
            forall|d: int|
                0 <= d < old(self).consumers@.len() && d != c ==> final(self).consumers@[d] == old(
                    self,
                ).consumers@[d],
            final(self).consumers@[c as int].durable_name == old(
                self,
            ).consumers@[c as int].durable_name,
            final(self).consumers@[c as int].filter == old(self).consumers@[c as int].filter,
            final(self).consumers@[c as int].policy == old(self).consumers@[c as int].policy,
            final(self).consumers@[c as int].start == old(self).consumers@[c as int].start,
            forall|i: int|
                final(self).consumers@[c as int].count_at(i) == old(self).consumers@[c as int].count_at(
                    i,
                ),
            forall|i: int|
                final(self).consumers@[c as int].acked_at(i) == (old(
                    self,
                ).consumers@[c as int].acked_at(i) || i == seq),
    {
        let ghost old_con = old(self).consumers@[c as int];
        let nrec = self.records.len();
        let con = &mut self.consumers[c];
        let ghost old_acked = con.acked@;
        if con.acked.len() <= seq {
            proof {
                assert(con.acked@.take(old_acked.len() as int) =~= old_acked);
            }
            while con.acked.len() < seq + 1
                invariant
                    seq < nrec,
                    old_acked.len() <= con.acked@.len() <= seq + 1,
                    con.acked@.take(old_acked.len() as int) == old_acked,
                    forall|i: int|
                        old_acked.len() <= i < con.acked@.len() ==> !(#[trigger] con.acked@[i]),
                    con.durable_name == old_con.durable_name,
                    con.filter == old_con.filter,
                    con.policy == old_con.policy,
                    con.start == old_con.start,
                    con.deliveries == old_con.deliveries,
                decreases seq + 1 - con.acked@.len(),
            {
                con.acked.push(false);
                proof {
                    assert(con.acked@.take(old_acked.len() as int) =~= old_acked);
                }
            }
        }
        con.acked[seq] = true;
        proof {
            let oc = old_con;
            let nc = self.consumers@[c as int];
            assert forall|i: int| nc.acked_at(i) == (oc.acked_at(i) || i == seq) by {
                if 0 <= i < old_acked.len() && i != seq {
                    assert(nc.acked@[i] == old_acked[i]) by {
                        assert(nc.acked@.take(old_acked.len() as int)[i] == old_acked[i]);
                    }
                }
            }
        }
    }
}

/// The integer values of a sequence of positions.
pub open spec fn ints_of(v: Seq<usize>) -> Seq<int> {
    Seq::new(v.len(), |k: int| v[k] as int)
}

/// The smaller of two integers.
pub open spec fn min_int(a: int, b: int) -> int {
    if a <= b {
        a
    } else {
        b
    }
}

impl EventStream {
    /// Fetches up to `max_batch` pending records for consumer `c`:
    /// exactly the first pending records in stream order, fewer than
    /// asked only when the stream has no more to give.  Each fetched
    /// record has one more delivery counted against it — a record
    /// whose count reaches the bound stops being pending — and
    /// nothing else about the stream or any consumer changes; in
    /// particular no acknowledgment state moves, and a record already
    /// acknowledged or already delivered the maximum number of times
    /// is never among the fetched.
    pub fn fetch(&mut self, c: usize, max_batch: usize) -> (r: Vec<Delivery>)
        requires
            old(self).wf(),
            c < old(self).consumers@.len(),
        ensures
            final(self).wf(),
            final(self).records == old(self).records,
            final(self).subjects == old(self).subjects,
            final(self).stream_name == old(self).stream_name,
            final(self).description == old(self).description,
            final(self).max_age_secs == old(self).max_age_secs,
            final(self).consumers@.len() == old(self).consumers@.len(),
            forall|d: int|
                0 <= d < old(self).consumers@.len() && d != c ==> final(self).consumers@[d] == old(
                    self,
                ).consumers@[d],
            final(self).consumers@[c as int].durable_name == old(
                self,
            ).consumers@[c as int].durable_name,
            final(self).consumers@[c as int].filter == old(self).consumers@[c as int].filter,
            final(self).consumers@[c as int].policy == old(self).consumers@[c as int].policy,
            final(self).consumers@[c as int].start == old(self).consumers@[c as int].start,
            forall|i: int|
                final(self).consumers@[c as int].acked_at(i) == old(
                    self,
                ).consumers@[c as int].acked_at(i),
            seqs_of(r@) == old(self).pending(c as int).take(
                min_int(max_batch as int, old(self).pending(c as int).len() as int),
            ),
            r@.len() == min_int(max_batch as int, old(self).pending(c as int).len() as int),
            forall|k: int|
                0 <= k < r@.len() ==> {
                    let i = (#[trigger] r@[k]).seq as int;
                    &&& 0 <= i < old(self).records@.len()
                    &&& r@[k].subject == old(self).records@[i].subject
                    &&& r@[k].payload == old(self).records@[i].payload
                    &&& r@[k].deliveries == old(self).consumers@[c as int].count_at(i) + 1
                },
            forall|i: int|
                final(self).consumers@[c as int].count_at(i) == old(
                    self,
                ).consumers@[c as int].count_at(i) + if seqs_of(r@).contains(i) {
                    1int
                } else {
                    0int
                },
    {
        let ghost cg = c as int;
        let n = self.records.len();
        let start = self.consumers[c].start;
        let mut picked: Vec<usize> = Vec::new();
        let mut i: usize = 0;
        while i < n && picked.len() < max_batch
            invariant
                old(self).wf(),
                c < old(self).consumers@.len(),
                *self == *old(self),
                n == self.records@.len(),
                start == self.consumers@[cg].start,
                cg == c as int,
                0 <= i <= n,
                picked@.len() <= max_batch,
                ints_of(picked@) == self.pending_between(cg, 0, i as int),
            decreases n - i,
        {
            let con = &self.consumers[c];
            let matches_filter = filter_matches(
                con.filter.as_str(),
                self.records[i].subject.as_str(),
            );
            let was_acked = i < con.acked.len() && con.acked[i];
            let count = if i < con.deliveries.len() {
                con.deliveries[i]
            } else {
                0
            };
            let pend = start <= i && matches_filter && !was_acked && count < MAX_DELIVER;
            proof {
                assert(pend == self.is_pending(cg, i as int));
            }
            if pend {
                picked.push(i);
                proof {
                    assert(ints_of(picked@) =~= self.pending_between(cg, 0, i + 1));
                }
            } else {
                proof {
                    assert(ints_of(picked@) =~= self.pending_between(cg, 0, i + 1));
                }
            }
            i = i + 1;
        }
        proof {
            lemma_pending_elems(self, cg, 0, i as int);
            assert forall|a: int| 0 <= a < picked@.len() implies (#[trigger] picked@[a]) < self.records@.len()
                && self.is_pending(cg, picked@[a] as int) by {
                assert(ints_of(picked@)[a] == picked@[a] as int);
                assert(self.pending_between(cg, 0, i as int)[a] == picked@[a] as int);
            }
            assert forall|a: int, b: int| 0 <= a < b < picked@.len() implies (#[trigger] picked@[a]) < (
            #[trigger] picked@[b]) by {
                assert(ints_of(picked@)[a] == picked@[a] as int);
                assert(ints_of(picked@)[b] == picked@[b] as int);
                assert(self.pending_between(cg, 0, i as int)[a] < self.pending_between(
                    cg,
                    0,
                    i as int,
                )[b]);
            }
            if picked@.len() == max_batch {
                lemma_pending_take(self, cg, i as int, max_batch as int);
                assert(ints_of(picked@) == self.pending(cg).take(
                    min_int(max_batch as int, self.pending(cg).len() as int),
                ));
            } else {
                assert(i == n);
                assert(ints_of(picked@) == self.pending(cg));
                assert(self.pending(cg).take(self.pending(cg).len() as int) =~= self.pending(cg));
                assert(ints_of(picked@) == self.pending(cg).take(
                    min_int(max_batch as int, self.pending(cg).len() as int),
                ));
            }
        }
        let ghost pend_taken = ints_of(picked@);
        let mut result: Vec<Delivery> = Vec::new();
        let mut k: usize = 0;
        while k < picked.len()
            invariant
                old(self).wf(),
                self.wf(),
                c < old(self).consumers@.len(),
                cg == c as int,
                0 <= k <= picked@.len(),
                picked@.len() <= max_batch,
                ints_of(picked@) == pend_taken,
                forall|a: int|
                    0 <= a < picked@.len() ==> (#[trigger] picked@[a]) < old(
                        self,
                    ).records@.len() && old(self).is_pending(cg, picked@[a] as int),
                forall|a: int, b: int|
                    0 <= a < b < picked@.len() ==> (#[trigger] picked@[a]) < (#[trigger] picked@[b]),
                self.records == old(self).records,
                self.subjects == old(self).subjects,
                self.stream_name == old(self).stream_name,
                self.description == old(self).description,
                self.max_age_secs == old(self).max_age_secs,
                self.consumers@.len() == old(self).consumers@.len(),
                forall|d: int|
                    0 <= d < old(self).consumers@.len() && d != cg ==> self.consumers@[d] == old(
                        self,
                    ).consumers@[d],
                self.consumers@[cg].durable_name == old(self).consumers@[cg].durable_name,
                self.consumers@[cg].filter == old(self).consumers@[cg].filter,
                self.consumers@[cg].policy == old(self).consumers@[cg].policy,
                self.consumers@[cg].start == old(self).consumers@[cg].start,
                self.consumers@[cg].acked == old(self).consumers@[cg].acked,
                forall|i2: int|
                    self.consumers@[cg].count_at(i2) == old(self).consumers@[cg].count_at(i2)
                        + if ints_of(picked@.take(k as int)).contains(i2) {
                        1int
                    } else {
                        0int
                    },
                result@.len() == k,
                forall|j: int|
                    0 <= j < k ==> {
                        let i2 = (#[trigger] result@[j]).seq as int;
                        &&& result@[j].seq == picked@[j]
                        &&& 0 <= i2 < old(self).records@.len()
                        &&& result@[j].subject == old(self).records@[i2].subject
                        &&& result@[j].payload == old(self).records@[i2].payload
                        &&& result@[j].deliveries == old(self).consumers@[cg].count_at(i2) + 1
                    },
            decreases picked@.len() - k,
        {
            let seqi = picked[k];
            proof {
                assert(!ints_of(picked@.take(k as int)).contains(seqi as int)) by {
                    if exists|j: int|
                        0 <= j < k && #[trigger] ints_of(picked@.take(k as int))[j] == seqi as int {
                        let j = choose|j: int|
                            0 <= j < k && #[trigger] ints_of(picked@.take(k as int))[j]
                                == seqi as int;
                        assert(picked@[j] < picked@[k as int]);
                    }
                }
                assert(self.consumers@[cg].count_at(seqi as int) == old(self).consumers@[
                cg].count_at(seqi as int));
                assert(old(self).consumers@[cg].count_at(seqi as int) < MAX_DELIVER);
            }
            let ghost pre = *self;
            let nrec = self.records.len();
            let con = &mut self.consumers[c];
            let ghost old_dels = con.deliveries@;
            if con.deliveries.len() <= seqi {
                proof {
                    assert(con.deliveries@.take(old_dels.len() as int) =~= old_dels);
                }
                while con.deliveries.len() < seqi + 1
                    invariant
                        seqi < nrec,
                        old_dels.len() <= con.deliveries@.len() <= seqi + 1,
                        con.deliveries@.take(old_dels.len() as int) == old_dels,
                        forall|i2: int|
                            old_dels.len() <= i2 < con.deliveries@.len() ==> (
                            #[trigger] con.deliveries@[i2]) == 0,
                        con.durable_name == pre.consumers@[cg].durable_name,
                        con.filter == pre.consumers@[cg].filter,
                        con.policy == pre.consumers@[cg].policy,
                        con.start == pre.consumers@[cg].start,
                        con.acked == pre.consumers@[cg].acked,
                    decreases seqi + 1 - con.deliveries@.len(),
                {
                    con.deliveries.push(0);
                    proof {
                        assert(con.deliveries@.take(old_dels.len() as int) =~= old_dels);
                    }
                }
            }
            let ghost mid_dels = con.deliveries@;
            proof {
                assert forall|i2: int| #[trigger] count_of(mid_dels, i2) == pre.consumers@[
                cg].count_at(i2) by {
                    if 0 <= i2 < old_dels.len() {
                        assert(mid_dels[i2] == mid_dels.take(old_dels.len() as int)[i2]);
                    }
                }
            }
            let cur = con.deliveries[seqi];
            proof {
                assert(cur == pre.consumers@[cg].count_at(seqi as int));
            }
            con.deliveries[seqi] = cur + 1;
            proof {
                assert(self.consumers@[cg].deliveries@ == mid_dels.update(
                    seqi as int,
                    (cur + 1) as u32,
                ));
            }
            let subj = self.records[seqi].subject.clone();
            let pay = self.records[seqi].payload.clone();
            result.push(Delivery { seq: seqi, subject: subj, payload: pay, deliveries: cur + 1 });
            k = k + 1;
            proof {
                assert(picked@.take(k as int).drop_last() =~= picked@.take(k as int - 1));
                assert forall|i2: int|
                    self.consumers@[cg].count_at(i2) == old(self).consumers@[cg].count_at(i2)
                        + if ints_of(picked@.take(k as int)).contains(i2) {
                        1int
                    } else {
                        0int
                    } by {
                    let tk = ints_of(picked@.take(k as int));
                    let tk0 = ints_of(picked@.take(k as int - 1));
                    assert forall|x: int| #[trigger] tk.contains(x) <==> (tk0.contains(x) || x
                        == seqi as int) by {
                        if tk.contains(x) {
                            let j = choose|j: int| 0 <= j < tk.len() && #[trigger] tk[j] == x;
                            if j < k - 1 {
                                assert(tk0[j] == x);
                            }
                        }
                        if tk0.contains(x) {
                            let j = choose|j: int| 0 <= j < tk0.len() && #[trigger] tk0[j] == x;
                            assert(tk[j] == x);
                        }
                        if x == seqi as int {
                            assert(tk[k as int - 1] == x);
                        }
                    }
                    if i2 == seqi as int {
                        assert(self.consumers@[cg].count_at(i2) == cur + 1);
                    } else {
                        assert(count_of(self.consumers@[cg].deliveries@, i2) == count_of(
                            mid_dels,
                            i2,
                        ));
                    }
                }
                assert(mid_dels.len() <= self.records@.len());
                assert(pre.wf());
                assert forall|d: int|
                    0 <= d < self.consumers@.len() implies {
                    let con2 = #[trigger] self.consumers@[d];
                    &&& con2.start <= self.records@.len()
                    &&& con2.deliveries@.len() <= self.records@.len()
                    &&& con2.acked@.len() <= self.records@.len()
                    &&& forall|i2: int|
                        0 <= i2 < con2.deliveries@.len() ==> #[trigger] con2.deliveries@[i2]
                            <= MAX_DELIVER
                } by {
                    if d == cg {
                        let con2 = self.consumers@[d];
                        assert forall|i2: int|
                            0 <= i2 < con2.deliveries@.len() implies #[trigger] con2.deliveries@[i2]
                            <= MAX_DELIVER by {
                            if i2 != seqi as int {
                                assert(con2.deliveries@[i2] == mid_dels[i2]);
                                assert(count_of(mid_dels, i2) == pre.consumers@[cg].count_at(i2));
                            }
                        }
                    } else {
                        assert(self.consumers@[d] == pre.consumers@[d]);
                    }
                }
                assert(self.wf());
            }
        }
        proof {
            assert(picked@.take(picked@.len() as int) =~= picked@);
            assert(seqs_of(result@) =~= ints_of(picked@));
        }
        result
    }
}

/// The batch sizes the drain idiom reports for `n` pending records at
/// batch size `b`: full batches until fewer than `b` remain, then one
/// short batch (possibly empty), which is the stop signal.
pub open spec fn drain_batches(n: int, b: int) -> Seq<int>
    decreases n,
        when b >= 1
{
    if n < b {
        seq![n]
    } else {
        seq![b] + drain_batches(n - b, b)
    }
}

/// After a fetch of the first `k` pending records and an
/// acknowledgment of each of them, the pending sequence is what it
/// was with its first `k` entries gone.
pub proof fn lemma_drain_step(s0: &EventStream, s2: &EventStream, c: int, k: int)
    requires
        0 <= c < s0.consumers@.len(),
        c < s2.consumers@.len(),
        s2.records@ == s0.records@,
        s2.consumers@[c].filter@ == s0.consumers@[c].filter@,
        s2.consumers@[c].start == s0.consumers@[c].start,
        0 <= k <= s0.pending(c).len(),
        forall|i: int|
            s2.consumers@[c].acked_at(i) == (s0.consumers@[c].acked_at(i) || s0.pending(c).take(
                k,
            ).contains(i)),
        forall|i: int|
            s2.consumers@[c].count_at(i) == s0.consumers@[c].count_at(i) + if s0.pending(c).take(
                k,
            ).contains(i) {
                1int
            } else {
                0int
            },
    ensures
        s2.pending(c) == s0.pending(c).skip(k),
{
    let len = s0.records@.len() as int;
    let p0 = s0.pending(c);
    lemma_pending_elems(s0, c, 0, len);
    let m = if k == p0.len() {
        len
    } else {
        p0[k]
    };
    assert(0 <= m <= len);
    assert forall|i: int| 0 <= i < m implies !s2.is_pending(c, i) by {
        if s0.is_pending(c, i) {
            lemma_pending_contains(s0, c, 0, len, i);
            let j = choose|j: int| 0 <= j < p0.len() && #[trigger] p0[j] == i;
            assert(j < k) by {
                if j >= k {
                    if k < p0.len() {
                        if j > k {
                            assert(p0[k] < p0[j]);
                        }
                    }
                }
            }
            assert(p0.take(k)[j] == i);
            assert(p0.take(k).contains(i));
            assert(s2.consumers@[c].acked_at(i));
        } else {
            if s2.is_pending(c, i) {
                assert(!s2.consumers@[c].acked_at(i));
                assert(!s0.consumers@[c].acked_at(i));
                assert(s2.consumers@[c].count_at(i) >= s0.consumers@[c].count_at(i));
                assert(s0.is_pending(c, i));
            }
        }
    }
    assert forall|i: int| m <= i < len implies s2.is_pending(c, i) == s0.is_pending(c, i) by {
        assert(!p0.take(k).contains(i)) by {
            if p0.take(k).contains(i) {
                let j = choose|j: int| 0 <= j < p0.take(k).len() && #[trigger] p0.take(k)[j] == i;
                assert(p0[j] == i);
                if k < p0.len() {
                    if j < k {
                        assert(p0[j] < p0[k]);
                    }
                }
            }
        }
        assert(s2.consumers@[c].acked_at(i) == s0.consumers@[c].acked_at(i));
        assert(s2.consumers@[c].count_at(i) == s0.consumers@[c].count_at(i));
    }
    lemma_pending_split(s2, c, 0, m, len);
    lemma_pending_none(s2, c, 0, m);
    lemma_pending_pointwise(s2, s0, c, c, m, len);
    lemma_pending_split(s0, c, 0, m, len);
    let p1 = s0.pending_between(c, 0, m);
    let p2 = s0.pending_between(c, m, len);
    lemma_pending_elems(s0, c, 0, m);
    lemma_pending_elems(s0, c, m, len);
    lemma_pending_len(s0, c, m, len);
    assert(p0 == p1 + p2);
    assert(p1.len() == k) by {
        if p1.len() < k {
            assert(p2.len() > 0);
            assert(p0[p1.len() as int] == p2[0]);
            assert(p2[0] >= m);
            if k < p0.len() {
                if p1.len() < k {
                    assert(p0[p1.len() as int] <= p0[k]) by {
                        if p1.len() < k {
                            assert(p0[p1.len() as int] < p0[k]);
                        }
                    }
                }
                assert(p2[0] < m);
            } else {
                assert(m == len);
                assert(p2.len() <= 0);
            }
        }
        if p1.len() > k {
            assert(p0[k] == p1[k]);
            assert(p1[k] < m);
            assert(k < p0.len());
            assert(p0[k] == m);
        }
    }
    assert(s2.pending(c) == p2);
    assert(p0.skip(k) =~= p2);
}

impl EventStream {
    /// Reads everything currently pending for consumer `c` with the
    /// batch-drain idiom: fetch a batch, acknowledge every record in
    /// it, stop as soon as a batch comes back short.  Hands back the
    /// drained records — every record that was pending, each exactly
    /// once, in stream order — and the size of each batch.  When it
    /// returns, nothing is pending for `c`, and every record that was
    /// pending is acknowledged; records stay in the log (draining
    /// acknowledges, it does not erase).
    pub fn drain(&mut self, c: usize, batch_size: usize) -> (r: (Vec<Delivery>, Vec<usize>))
        requires
            old(self).wf(),
            c < old(self).consumers@.len(),
            batch_size >= 1,
        ensures
            final(self).wf(),
            final(self).records == old(self).records,
            final(self).subjects == old(self).subjects,
            final(self).stream_name == old(self).stream_name,
            final(self).description == old(self).description,
            final(self).max_age_secs == old(self).max_age_secs,
            final(self).consumers@.len() == old(self).consumers@.len(),
            forall|d: int|
                0 <= d < old(self).consumers@.len() && d != c ==> final(self).consumers@[d] == old(
                    self,
                ).consumers@[d],
            final(self).consumers@[c as int].durable_name == old(
                self,
            ).consumers@[c as int].durable_name,
            final(self).consumers@[c as int].filter == old(self).consumers@[c as int].filter,
            final(self).consumers@[c as int].policy == old(self).consumers@[c as int].policy,
            final(self).consumers@[c as int].start == old(self).consumers@[c as int].start,
            seqs_of(r.0@) == old(self).pending(c as int),
            forall|j: int|
                0 <= j < r.0@.len() ==> {
                    let i = (#[trigger] r.0@[j]).seq as int;
                    &&& 0 <= i < old(self).records@.len()
                    &&& r.0@[j].subject == old(self).records@[i].subject
                    &&& r.0@[j].payload == old(self).records@[i].payload
                },
            ints_of(r.1@) == drain_batches(
                old(self).pending(c as int).len() as int,
                batch_size as int,
            ),
            final(self).pending(c as int).len() == 0,
            forall|i: int|
                final(self).consumers@[c as int].acked_at(i) == (old(
                    self,
                ).consumers@[c as int].acked_at(i) || old(self).pending(c as int).contains(i)),
    {
        let ghost cg = c as int;
        let ghost p0 = old(self).pending(cg);
        let mut out: Vec<Delivery> = Vec::new();
        let mut batches: Vec<usize> = Vec::new();
        let mut total: usize = 0;
        let nrec_all = self.records.len();
        proof {
            lemma_pending_len(old(self), cg, 0, old(self).records@.len() as int);
            assert(self.pending(cg) =~= p0.skip(0));
            assert(old(self).records@.len() == nrec_all);
        }
        loop
            invariant_except_break
                ints_of(batches@) + drain_batches(p0.len() - total, batch_size as int)
                    == drain_batches(p0.len() as int, batch_size as int),
            invariant
                self.wf(),
                old(self).wf(),
                c < old(self).consumers@.len(),
                cg == c as int,
                batch_size >= 1,
                p0 == old(self).pending(cg),
                p0.len() <= old(self).records@.len(),
                total <= p0.len(),
                self.pending(cg) == p0.skip(total as int),
                self.records == old(self).records,
                self.subjects == old(self).subjects,
                self.stream_name == old(self).stream_name,
                self.description == old(self).description,
                self.max_age_secs == old(self).max_age_secs,
                self.consumers@.len() == old(self).consumers@.len(),
                forall|d: int|
                    0 <= d < old(self).consumers@.len() && d != cg ==> self.consumers@[d] == old(
                        self,
                    ).consumers@[d],
                self.consumers@[cg].durable_name == old(self).consumers@[cg].durable_name,
                self.consumers@[cg].filter == old(self).consumers@[cg].filter,
                self.consumers@[cg].policy == old(self).consumers@[cg].policy,
                self.consumers@[cg].start == old(self).consumers@[cg].start,
                seqs_of(out@) == p0.take(total as int),
                out@.len() == total,
                forall|j: int|
                    0 <= j < out@.len() ==> {
                        let i = (#[trigger] out@[j]).seq as int;
                        &&& 0 <= i < old(self).records@.len()
                        &&& out@[j].subject == old(self).records@[i].subject
                        &&& out@[j].payload == old(self).records@[i].payload
                    },
                forall|i: int|
                    (#[trigger] self.consumers@[cg].acked_at(i)) == (old(self).consumers@[cg].acked_at(i)
                        || p0.take(total as int).contains(i)),
                old(self).records@.len() <= usize::MAX,
            ensures
                self.wf(),
                self.records == old(self).records,
                self.subjects == old(self).subjects,
                self.stream_name == old(self).stream_name,
                self.description == old(self).description,
                self.max_age_secs == old(self).max_age_secs,
                self.consumers@.len() == old(self).consumers@.len(),
                forall|d: int|
                    0 <= d < old(self).consumers@.len() && d != cg ==> self.consumers@[d] == old(
                        self,
                    ).consumers@[d],
                self.consumers@[cg].durable_name == old(self).consumers@[cg].durable_name,
                self.consumers@[cg].filter == old(self).consumers@[cg].filter,
                self.consumers@[cg].policy == old(self).consumers@[cg].policy,
                self.consumers@[cg].start == old(self).consumers@[cg].start,
                seqs_of(out@) == p0,
                total == p0.len(),
                forall|j: int|
                    0 <= j < out@.len() ==> {
                        let i = (#[trigger] out@[j]).seq as int;
                        &&& 0 <= i < old(self).records@.len()
                        &&& out@[j].subject == old(self).records@[i].subject
                        &&& out@[j].payload == old(self).records@[i].payload
                    },
                ints_of(batches@) == drain_batches(p0.len() as int, batch_size as int),
                self.pending(cg).len() == 0,
                forall|i: int|
                    self.consumers@[cg].acked_at(i) == (old(self).consumers@[cg].acked_at(i)
                        || p0.contains(i)),
            decreases p0.len() - total,
        {
            let ghost s_pre = *self;
            let ghost pend_pre = self.pending(cg);
            let batch = self.fetch(c, batch_size);
            let k = batch.len();
            proof {
                assert(pend_pre == p0.skip(total as int));
                assert(k == min_int(batch_size as int, pend_pre.len() as int));
            }
            let ghost s_fetched = *self;
            let mut j: usize = 0;
            while j < batch.len()
                invariant
                    0 <= j <= batch@.len(),
                    self.wf(),
                    s_fetched.wf(),
                    c < s_fetched.consumers@.len(),
                    cg == c as int,
                    batch@.len() <= self.records@.len(),
                    forall|a: int|
                        0 <= a < batch@.len() ==> 0 <= (#[trigger] batch@[a]).seq < self.records@.len(),
                    self.records == s_fetched.records,
                    self.subjects == s_fetched.subjects,
                    self.stream_name == s_fetched.stream_name,
                    self.description == s_fetched.description,
                    self.max_age_secs == s_fetched.max_age_secs,
                    self.consumers@.len() == s_fetched.consumers@.len(),
                    forall|d: int|
                        0 <= d < s_fetched.consumers@.len() && d != cg ==> self.consumers@[d]
                            == s_fetched.consumers@[d],
                    self.consumers@[cg].durable_name == s_fetched.consumers@[cg].durable_name,
                    self.consumers@[cg].filter == s_fetched.consumers@[cg].filter,
                    self.consumers@[cg].policy == s_fetched.consumers@[cg].policy,
                    self.consumers@[cg].start == s_fetched.consumers@[cg].start,
                    forall|i: int|
                        (#[trigger] self.consumers@[cg].count_at(i)) == s_fetched.consumers@[cg].count_at(i),
                    forall|i: int|
                        (#[trigger] self.consumers@[cg].acked_at(i)) == (s_fetched.consumers@[cg].acked_at(i)
                            || seqs_of(batch@).take(j as int).contains(i)),
                decreases batch@.len() - j,
            {
                let ghost before = *self;
                let seqi = batch[j].seq;
                self.ack(c, seqi);
                proof {
                    let tj = seqs_of(batch@).take(j + 1);
                    let tj0 = seqs_of(batch@).take(j as int);
                    assert forall|x: int| #[trigger] tj.contains(x) <==> (tj0.contains(x) || x
                        == seqi as int) by {
                        if tj.contains(x) {
                            let a = choose|a: int| 0 <= a < tj.len() && #[trigger] tj[a] == x;
                            if a < j {
                                assert(tj0[a] == x);
                            } else {
                                assert(tj[j as int] == seqs_of(batch@)[j as int]);
                            }
                        }
                        if tj0.contains(x) {
                            let a = choose|a: int| 0 <= a < tj0.len() && #[trigger] tj0[a] == x;
                            assert(tj[a] == x);
                        }
                        if x == seqi as int {
                            assert(tj[j as int] == seqs_of(batch@)[j as int]);
                            assert(tj[j as int] == x);
                        }
                    }
                    assert forall|i: int|
                        self.consumers@[cg].acked_at(i) == (s_fetched.consumers@[cg].acked_at(i)
                            || tj.contains(i)) by {
                        assert(self.consumers@[cg].acked_at(i) == (before.consumers@[cg].acked_at(
                            i,
                        ) || i == seqi as int));
                        assert(before.consumers@[cg].acked_at(i) == (s_fetched.consumers@[
                        cg].acked_at(i) || tj0.contains(i)));
                    }
                }
                j = j + 1;
            }
            proof {
                assert(seqs_of(batch@).take(batch@.len() as int) =~= seqs_of(batch@));
                assert(seqs_of(batch@) == pend_pre.take(k as int));
                assert(pend_pre == s_pre.pending(cg));
                assert forall|i: int|
                    self.consumers@[cg].acked_at(i) == (s_pre.consumers@[cg].acked_at(i)
                        || s_pre.pending(cg).take(k as int).contains(i)) by {
                    assert(self.consumers@[cg].acked_at(i) == (s_fetched.consumers@[cg].acked_at(i)
                        || seqs_of(batch@).take(batch@.len() as int).contains(i)));
                    assert(s_fetched.consumers@[cg].acked_at(i) == s_pre.consumers@[cg].acked_at(
                        i,
                    ));
                }
                assert forall|i: int|
                    self.consumers@[cg].count_at(i) == s_pre.consumers@[cg].count_at(i)
                        + if s_pre.pending(cg).take(k as int).contains(i) {
                        1int
                    } else {
                        0int
                    } by {
                    assert(self.consumers@[cg].count_at(i) == s_fetched.consumers@[cg].count_at(
                        i,
                    ));
                    assert(s_fetched.consumers@[cg].count_at(i) == s_pre.consumers@[cg].count_at(i)
                        + if seqs_of(batch@).contains(i) {
                        1int
                    } else {
                        0int
                    });
                }
                lemma_drain_step(&s_pre, self, cg, k as int);
                assert(self.pending(cg) == pend_pre.skip(k as int));
                assert(self.pending(cg) =~= p0.skip(total as int + k as int));
                assert(p0.take(total as int + k as int) =~= p0.take(total as int) + pend_pre.take(
                    k as int,
                ));
                assert forall|i: int|
                    self.consumers@[cg].acked_at(i) == (old(self).consumers@[cg].acked_at(i)
                        || p0.take(total as int + k as int).contains(i)) by {
                    let tall = p0.take(total as int + k as int);
                    let ta = p0.take(total as int);
                    let tb = pend_pre.take(k as int);
                    assert(self.consumers@[cg].acked_at(i) == (s_pre.consumers@[cg].acked_at(i)
                        || tb.contains(i)));
                    assert(s_pre.consumers@[cg].acked_at(i) == (old(self).consumers@[cg].acked_at(
                        i,
                    ) || ta.contains(i)));
                    assert forall|x: int| #[trigger] tall.contains(x) <==> (ta.contains(x)
                        || tb.contains(x)) by {
                        if tall.contains(x) {
                            let a = choose|a: int|
                                0 <= a < tall.len() && #[trigger] tall[a] == x;
                            if a < total {
                                assert(ta[a] == x);
                            } else {
                                assert(tb[a - total] == x);
                            }
                        }
                        if ta.contains(x) {
                            let a = choose|a: int| 0 <= a < ta.len() && #[trigger] ta[a] == x;
                            assert(tall[a] == x);
                        }
                        if tb.contains(x) {
                            let a = choose|a: int| 0 <= a < tb.len() && #[trigger] tb[a] == x;
                            assert(tall[a + total] == x);
                        }
                    }
                }
            }
            let mut j2: usize = 0;
            while j2 < batch.len()
                invariant
                    0 <= j2 <= batch@.len(),
                    out@.len() == total + j2,
                    total + batch@.len() <= p0.len() <= old(self).records@.len(),
                    seqs_of(out@) == p0.take(total as int + j2 as int),
                    seqs_of(batch@) == p0.skip(total as int).take(batch@.len() as int),
                    forall|a: int|
                        0 <= a < batch@.len() ==> {
                            let i = (#[trigger] batch@[a]).seq as int;
                            &&& 0 <= i < old(self).records@.len()
                            &&& batch@[a].subject == old(self).records@[i].subject
                            &&& batch@[a].payload == old(self).records@[i].payload
                        },
                    forall|j3: int|
                        0 <= j3 < out@.len() ==> {
                            let i = (#[trigger] out@[j3]).seq as int;
                            &&& 0 <= i < old(self).records@.len()
                            &&& out@[j3].subject == old(self).records@[i].subject
                            &&& out@[j3].payload == old(self).records@[i].payload
                        },
                decreases batch@.len() - j2,
            {
                let d = Delivery {
                    seq: batch[j2].seq,
                    subject: batch[j2].subject.clone(),
                    payload: batch[j2].payload.clone(),
                    deliveries: batch[j2].deliveries,
                };
                out.push(d);
                j2 = j2 + 1;
                proof {
                    assert(seqs_of(batch@)[j2 - 1] == p0.skip(total as int).take(
                        batch@.len() as int,
                    )[j2 - 1]);
                    assert(p0.skip(total as int)[j2 - 1] == p0[total + j2 - 1]);
                    assert(seqs_of(out@) =~= p0.take(total as int + j2 as int));
                }
            }
            proof {
                assert(ints_of(batches@.push(k)) =~= ints_of(batches@) + seq![k as int]);
                if k == batch_size {
                    assert(drain_batches(p0.len() - total, batch_size as int) == seq![
                        batch_size as int] + drain_batches(
                        p0.len() - total - batch_size,
                        batch_size as int,
                    ));
                    assert(ints_of(batches@) + seq![k as int] + drain_batches(
                        p0.len() - (total + k),
                        batch_size as int,
                    ) =~= ints_of(batches@) + drain_batches(p0.len() - total, batch_size as int));
                } else {
                    assert(k < batch_size);
                    assert(k == p0.skip(total as int).len());
                    assert(drain_batches(p0.len() - total, batch_size as int) == seq![k as int]);
                    assert(ints_of(batches@) + seq![k as int] =~= ints_of(batches@)
                        + drain_batches(p0.len() - total, batch_size as int));
                }
            }
            proof {
                assert(k <= pend_pre.len());
                assert(pend_pre.len() == p0.len() - total);
            }
            batches.push(k);
            total = total + k;
            if k < batch_size {
                proof {
                    assert(total == p0.len());
                    assert(p0.take(total as int) =~= p0);
                    assert(drain_batches(p0.len() - total, batch_size as int) == seq![0int]);
                }
                break ;
            }
        }
        proof {
            assert(p0.take(total as int) =~= p0);
        }
        (out, batches)
    }
}

/// Delivery is exactly once, in publish order, for a consumer that
/// acknowledges what it fetches: the pending sequence — which `drain`
/// hands out in full and `fetch` in prefixes — holds each matching
/// record once, at strictly increasing log positions.
pub proof fn lemma_delivery_in_publish_order(s: &EventStream, c: int)
    ensures
        forall|a: int, b: int|
            0 <= a < b < s.pending(c).len() ==> #[trigger] s.pending(c)[a] < #[trigger] s.pending(
                c,
            )[b],
        forall|a: int|
            0 <= a < s.pending(c).len() ==> s.is_pending(c, #[trigger] s.pending(c)[a]),
{
    lemma_pending_elems(s, c, 0, s.records@.len() as int);
}

/// A record a consumer has acknowledged is never pending for it
/// again: no fetch ever returns it, since every fetch hands out a
/// prefix of the pending sequence.
pub proof fn lemma_acked_never_redelivered(s: &EventStream, c: int, i: int)
    requires
        0 <= c < s.consumers@.len(),
        s.consumers@[c].acked_at(i),
    ensures
        !s.is_pending(c, i),
        !s.pending(c).contains(i),
{
    lemma_pending_contains(s, c, 0, s.records@.len() as int, i);
}

/// A record that has been delivered the maximum number of times
/// without acknowledgment is never delivered again: it is not
/// pending, and every fetch hands out only pending records.
pub proof fn lemma_redelivery_capped(s: &EventStream, c: int, i: int)
    requires
        0 <= c < s.consumers@.len(),
        s.consumers@[c].count_at(i) >= MAX_DELIVER,
    ensures
        !s.is_pending(c, i),
        !s.pending(c).contains(i),
{
    lemma_pending_contains(s, c, 0, s.records@.len() as int, i);
}

/// A matching record a consumer can see, has not acknowledged, and
/// has not exhausted its deliveries is pending, so a large enough
/// fetch returns it: delivery is at least once while redeliveries
/// remain.
pub proof fn lemma_unacked_still_pending(s: &EventStream, c: int, i: int)
    requires
        0 <= c < s.consumers@.len(),
        0 <= i < s.records@.len(),
        s.consumers@[c].start <= i,
        subject_matches(s.consumers@[c].filter@, s.records@[i].subject@),
        !s.consumers@[c].acked_at(i),
        s.consumers@[c].count_at(i) < MAX_DELIVER,
    ensures
        s.is_pending(c, i),
        s.pending(c).contains(i),
{
    lemma_pending_contains(s, c, 0, s.records@.len() as int, i);
}

impl EventStream {
    /// Serializes the payload onto the wire format and appends it
    /// under the envelope's subject.  Success and failure are exactly
    /// those of `publish_raw`: the record goes in, and becomes
    /// pending for matching consumers, precisely when the subject
    /// matches one of the stream's filters.
    pub fn publish(&mut self, message: EventMessage) -> (r: Result<(), OddbotError>)
        requires
            old(self).wf(),
        ensures
            final(self).wf(),
            (exists|k: int|
                0 <= k < old(self).subjects@.len() && subject_matches(
                    (#[trigger] old(self).subjects@[k])@,
                    message.subject@,
                )) ==> {
                &&& r is Ok
                &&& final(self).records@.len() == old(self).records@.len() + 1
                &&& final(self).records@.drop_last() == old(self).records@
                &&& final(self).records@.last().subject == message.subject
                &&& final(self).records@.last().payload@ == wire_of(message.payload@)
                &&& final(self).consumers == old(self).consumers
                &&& final(self).subjects == old(self).subjects
                &&& final(self).stream_name == old(self).stream_name
                &&& final(self).description == old(self).description
                &&& final(self).max_age_secs == old(self).max_age_secs
            },
            !(exists|k: int|
                0 <= k < old(self).subjects@.len() && subject_matches(
                    (#[trigger] old(self).subjects@[k])@,
                    message.subject@,
                )) ==> r == Err::<(), OddbotError>(OddbotError::StreamPublish) && *final(self)
                == *old(self),
    {
        let payload = encode_squeak(&message.payload);
        self.publish_raw(message.subject, payload)
    }
}

/// Compares two strings character for character.
fn filter_matches_eq(a: &String, b: &String) -> (r: bool)
    ensures
        r == (a@ == b@),
{
    a.eq(b)
}

/// Compares two deliver policies.
fn policy_eq(a: DeliverPolicy, b: DeliverPolicy) -> (r: bool)
    ensures
        r == (a == b),
{
    match (a, b) {
        (DeliverPolicy::All, DeliverPolicy::All) => true,
        (DeliverPolicy::New, DeliverPolicy::New) => true,
        _ => false,
    }
}

/// Every entry of a pending window lies inside the window, and the
/// window is strictly increasing.
pub proof fn lemma_pending_elems(s: &EventStream, c: int, lo: int, hi: int)
    ensures
        forall|k: int|
            0 <= k < s.pending_between(c, lo, hi).len() ==> lo <= #[trigger] s.pending_between(
                c,
                lo,
                hi,
            )[k] < hi && s.is_pending(c, s.pending_between(c, lo, hi)[k]),
        forall|k1: int, k2: int|
            0 <= k1 < k2 < s.pending_between(c, lo, hi).len() ==> #[trigger] s.pending_between(
                c,
                lo,
                hi,
            )[k1] < #[trigger] s.pending_between(c, lo, hi)[k2],
    decreases hi - lo,
{
    if lo < hi {
        lemma_pending_elems(s, c, lo, hi - 1);
        let w = s.pending_between(c, lo, hi);
        let w0 = s.pending_between(c, lo, hi - 1);
        if s.is_pending(c, hi - 1) {
            assert(w == w0.push(hi - 1));
            assert forall|k: int| 0 <= k < w.len() implies lo <= #[trigger] w[k] < hi
                && s.is_pending(c, w[k]) by {
                if k < w0.len() {
                    assert(w[k] == w0[k]);
                } else {
                    assert(w[k] == hi - 1);
                }
            }
            assert forall|k1: int, k2: int| 0 <= k1 < k2 < w.len() implies #[trigger] w[k1]
                < #[trigger] w[k2] by {
                if k2 < w0.len() {
                    assert(w[k1] == w0[k1] && w[k2] == w0[k2]);
                } else {
                    assert(w[k2] == hi - 1);
                    assert(w[k1] == w0[k1]);
                }
            }
        } else {
            assert(w == w0);
        }
    }
}

/// A pending window has no more entries than positions.
pub proof fn lemma_pending_len(s: &EventStream, c: int, lo: int, hi: int)
    ensures
        s.pending_between(c, lo, hi).len() <= if hi >= lo {
            hi - lo
        } else {
            0
        },
    decreases hi - lo,
{
    if lo < hi {
        lemma_pending_len(s, c, lo, hi - 1);
    }
}

/// A pending window splits at any midpoint.
pub proof fn lemma_pending_split(s: &EventStream, c: int, lo: int, mid: int, hi: int)
    requires
        lo <= mid <= hi,
    ensures
        s.pending_between(c, lo, hi) == s.pending_between(c, lo, mid) + s.pending_between(
            c,
            mid,
            hi,
        ),
    decreases hi - mid,
{
    if mid == hi {
        assert(s.pending_between(c, mid, hi) =~= Seq::empty());
        assert(s.pending_between(c, lo, hi) =~= s.pending_between(c, lo, mid) + s.pending_between(
            c,
            mid,
            hi,
        ));
    } else {
        lemma_pending_split(s, c, lo, mid, hi - 1);
        if s.is_pending(c, hi - 1) {
            assert(s.pending_between(c, lo, hi) =~= s.pending_between(c, lo, mid)
                + s.pending_between(c, mid, hi));
        } else {
            assert(s.pending_between(c, lo, hi) =~= s.pending_between(c, lo, mid)
                + s.pending_between(c, mid, hi));
        }
    }
}

/// Two stream states that agree pointwise on what is pending in a
/// window have the same pending window.
pub proof fn lemma_pending_pointwise(a: &EventStream, b: &EventStream, ca: int, cb: int, lo: int, hi: int)
    requires
        forall|i: int| lo <= i < hi ==> a.is_pending(ca, i) == b.is_pending(cb, i),
    ensures
        a.pending_between(ca, lo, hi) == b.pending_between(cb, lo, hi),
    decreases hi - lo,
{
    if lo < hi {
        lemma_pending_pointwise(a, b, ca, cb, lo, hi - 1);
    }
}

/// A window with nothing pending is empty.
pub proof fn lemma_pending_none(s: &EventStream, c: int, lo: int, hi: int)
    requires
        forall|i: int| lo <= i < hi ==> !s.is_pending(c, i),
    ensures
        s.pending_between(c, lo, hi) == Seq::<int>::empty(),
    decreases hi - lo,
{
    if lo < hi {
        lemma_pending_none(s, c, lo, hi - 1);
        assert(s.pending_between(c, lo, hi) =~= Seq::<int>::empty());
    }
}

/// A window contains exactly the positions inside it that are
/// pending.
pub proof fn lemma_pending_contains(s: &EventStream, c: int, lo: int, hi: int, i: int)
    ensures
        s.pending_between(c, lo, hi).contains(i) <==> (lo <= i < hi && s.is_pending(c, i)),
    decreases hi - lo,
{
    if lo < hi {
        lemma_pending_contains(s, c, lo, hi - 1, i);
        if s.is_pending(c, hi - 1) {
            let w = s.pending_between(c, lo, hi);
            assert(w == s.pending_between(c, lo, hi - 1).push(hi - 1));
            if lo <= i < hi && s.is_pending(c, i) {
                if i == hi - 1 {
                    assert(w[w.len() - 1] == i);
                    assert(w.contains(i));
                } else {
                    let k = choose|k: int|
                        0 <= k < s.pending_between(c, lo, hi - 1).len() && #[trigger] s.pending_between(
                            c,
                            lo,
                            hi - 1,
                        )[k] == i;
                    assert(w[k] == i);
                    assert(w.contains(i));
                }
            }
            if w.contains(i) {
                let k = choose|k: int| 0 <= k < w.len() && w[k] == i;
                if k < w.len() - 1 {
                    assert(s.pending_between(c, lo, hi - 1)[k] == i);
                    assert(s.pending_between(c, lo, hi - 1).contains(i));
                }
            }
        } else {
            assert(s.pending_between(c, lo, hi) == s.pending_between(c, lo, hi - 1));
        }
    }
}

/// The prefix of the pending sequence below a cut `m` is its take:
/// with `k` pending positions below `m` and none of them at or past
/// `m`, the first `k` entries are exactly those below `m`.
pub proof fn lemma_pending_take(s: &EventStream, c: int, m: int, k: int)
    requires
        0 <= m <= s.records@.len(),
        s.pending_between(c, 0, m).len() == k,
    ensures
        s.pending_between(c, 0, m) == s.pending(c).take(k),
        k <= s.pending(c).len(),
{
    lemma_pending_split(s, c, 0, m, s.records@.len() as int);
    assert(s.pending(c).take(k) =~= s.pending_between(c, 0, m));
}

} // verus!
