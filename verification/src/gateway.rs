//! Per-connection gateway logic, and the process-wide forwarding
//! step.
//!
//! A connection lives through at most three phases: an optional
//! replay of history through its own short-lived consumer, a live
//! phase subscribed to the broadcaster, and teardown, which is
//! terminal and reached as soon as either direction of the
//! connection ends.  The decisions — what each incoming event does to
//! the phase, and what goes out on the wire — live here as a pure
//! step function; the binary merely runs the loop, performs the
//! actions, and feeds the events back in.
//!
//! The forwarding step bridges the stream to the broadcaster: fetch a
//! batch, decode each record, hand the decoded events to the
//! broadcaster, and acknowledge every fetched record whether or not
//! anyone was listening — acknowledgment means the log-side work is
//! done, not that a live client got the event.

use crate::broadcast::bounded_push;
use crate::broadcast::views_of;
use crate::broadcast::Broadcaster;
use crate::error::OddbotError;
use crate::codec::decode_squeak;
use crate::codec::encode_squeak;
use crate::codec::parse_wire;
use crate::codec::wire_of;
use crate::squeak::Squeak;
use crate::squeak::SqueakView;
use crate::stream::lemma_drain_step;
use crate::stream::min_int;
use crate::stream::seqs_of;
use crate::stream::EventStream;
use vstd::prelude::*;

verus! {

/// Tuning for the replay phase: how many records per batch, how old
/// a record may be to still be replayed, and the pause between
/// batches.
#[derive(Clone, Copy, PartialEq, Eq, Structural, Debug)]
pub struct WebSocketConfig {
    pub historical_batch_size: usize,
    pub historical_max_age_secs: Option<u64>,
    pub historical_batch_delay_ms: u64,
}

impl Default for WebSocketConfig {
    /// The stock tuning: batches of 100, one day of history, fifty
    /// milliseconds between batches.
    fn default() -> (r: Self)
        ensures
            r.historical_batch_size == 100,
            r.historical_max_age_secs == Some(86400u64),
            r.historical_batch_delay_ms == 50,
    {
        WebSocketConfig {
            historical_batch_size: 100,
            historical_max_age_secs: Some(86400),
            historical_batch_delay_ms: 50,
        }
    }
}

/// Where a connection stands.
#[derive(Clone, Copy, PartialEq, Eq, Structural, Debug)]
pub enum GatewayPhase {
    /// Replaying history before going live.
    Replay,
    /// Subscribed to the broadcaster, relaying events as they come.
    Live,
    /// Torn down; terminal.
    Closed,
}

/// What can happen to a connection.
pub enum GatewayEvent {
    /// A replay batch of this many records was sent to the client.
    HistoryBatch(usize),
    /// A broadcast event arrived for this connection.
    LiveEvent(Squeak),
    /// The client sent a text frame; reserved for future control
    /// messages, a no-op today.
    ClientText(String),
    /// The client sent a close frame.
    ClientClose,
    /// Writing to the client failed.
    WriteFailed,
    /// The broadcast subscription ended.
    SubscriptionEnded,
}

/// What the connection does next.
pub enum GatewayAction {
    /// Nothing to do.
    DoNothing,
    /// Write this text frame to the client.
    SendFrame(String),
    /// Tear the connection down: cancel the other task too.
    Teardown,
}

/// One step of the per-connection state machine.  A short replay
/// batch means history is exhausted and the connection goes live; a
/// close frame, a failed write or a lost subscription tears the
/// connection down from any phase, and teardown is terminal; a live
/// event is encoded and sent; inbound text is accepted and ignored.
pub fn gateway_step(phase: GatewayPhase, event: GatewayEvent, batch_size: usize) -> (r: (
    GatewayPhase,
    GatewayAction,
))
    ensures
        phase is Closed ==> r.0 is Closed && r.1 is DoNothing,
        phase is Replay ==> match event {
            GatewayEvent::HistoryBatch(n) => r.0 == (if n < batch_size {
                GatewayPhase::Live
            } else {
                GatewayPhase::Replay
            }) && r.1 is DoNothing,
            GatewayEvent::LiveEvent(_) => r.0 is Replay && r.1 is DoNothing,
            GatewayEvent::ClientText(_) => r.0 is Replay && r.1 is DoNothing,
            GatewayEvent::ClientClose => r.0 is Closed && r.1 is Teardown,
            GatewayEvent::WriteFailed => r.0 is Closed && r.1 is Teardown,
            GatewayEvent::SubscriptionEnded => r.0 is Closed && r.1 is Teardown,
        },
        phase is Live ==> match event {
            GatewayEvent::HistoryBatch(_) => r.0 is Live && r.1 is DoNothing,
            GatewayEvent::LiveEvent(sq) => r.0 is Live && (r.1 matches GatewayAction::SendFrame(f)
                && f@ == wire_of(sq@)),
            GatewayEvent::ClientText(_) => r.0 is Live && r.1 is DoNothing,
            GatewayEvent::ClientClose => r.0 is Closed && r.1 is Teardown,
            GatewayEvent::WriteFailed => r.0 is Closed && r.1 is Teardown,
            GatewayEvent::SubscriptionEnded => r.0 is Closed && r.1 is Teardown,
        },
{
    match phase {
        GatewayPhase::Closed => (GatewayPhase::Closed, GatewayAction::DoNothing),
        GatewayPhase::Replay => match event {
            GatewayEvent::HistoryBatch(n) => {
                if n < batch_size {
                    (GatewayPhase::Live, GatewayAction::DoNothing)
                } else {
                    (GatewayPhase::Replay, GatewayAction::DoNothing)
                }
            },
            GatewayEvent::LiveEvent(_) => (GatewayPhase::Replay, GatewayAction::DoNothing),
            GatewayEvent::ClientText(_) => (GatewayPhase::Replay, GatewayAction::DoNothing),
            GatewayEvent::ClientClose => (GatewayPhase::Closed, GatewayAction::Teardown),
            GatewayEvent::WriteFailed => (GatewayPhase::Closed, GatewayAction::Teardown),
            GatewayEvent::SubscriptionEnded => (GatewayPhase::Closed, GatewayAction::Teardown),
        },
        GatewayPhase::Live => match event {
            GatewayEvent::HistoryBatch(_) => (GatewayPhase::Live, GatewayAction::DoNothing),
            GatewayEvent::LiveEvent(sq) => {
                let frame = encode_squeak(&sq);
                (GatewayPhase::Live, GatewayAction::SendFrame(frame))
            },
            GatewayEvent::ClientText(_) => (GatewayPhase::Live, GatewayAction::DoNothing),
            GatewayEvent::ClientClose => (GatewayPhase::Closed, GatewayAction::Teardown),
            GatewayEvent::WriteFailed => (GatewayPhase::Closed, GatewayAction::Teardown),
            GatewayEvent::SubscriptionEnded => (GatewayPhase::Closed, GatewayAction::Teardown),
        },
    }
}


/// The events one round of forwarding hands the broadcaster: the
/// squeaks of the first `k` pending records that decode, in stream
/// order.
pub open spec fn forwarded_events(s: &EventStream, c: int, k: int) -> Seq<SqueakView>
    decreases k,
{
    if k <= 0 {
        Seq::empty()
    } else {
        let prev = forwarded_events(s, c, k - 1);
        match parse_wire(s.records@[s.pending(c)[k - 1]].payload@) {
            Some(v) => prev.push(v),
            None => prev,
        }
    }
}

/// A subscriber's buffer after a run of events, each bounded-pushed
/// in turn: oldest events leave the front as newer ones crowd in.
pub open spec fn buffer_after_all(b: Seq<SqueakView>, evs: Seq<SqueakView>, cap: int) -> Seq<
    SqueakView,
>
    decreases evs.len(),
{
    if evs.len() == 0 {
        b
    } else {
        buffer_after_all(bounded_push(b, evs[0], cap), evs.skip(1), cap)
    }
}

/// Running one more event is one more bounded push at the end.
proof fn lemma_buffer_after_all_snoc(b: Seq<SqueakView>, evs: Seq<SqueakView>, v: SqueakView, cap: int)
    ensures
        buffer_after_all(b, evs.push(v), cap) == bounded_push(buffer_after_all(b, evs, cap), v, cap),
    decreases evs.len(),
{
    if evs.len() == 0 {
        assert(evs.push(v)[0] == v);
        assert(evs.push(v).skip(1) =~= Seq::<SqueakView>::empty());
        assert(buffer_after_all(bounded_push(b, v, cap), Seq::<SqueakView>::empty(), cap)
            == bounded_push(b, v, cap));
        assert(buffer_after_all(b, evs, cap) == b);
    } else {
        assert(evs.push(v)[0] == evs[0]);
        assert(evs.push(v).skip(1) =~= evs.skip(1).push(v));
        lemma_buffer_after_all_snoc(bounded_push(b, evs[0], cap), evs.skip(1), v, cap);
    }
}

/// One round of the forwarding loop: fetch up to `max_batch` pending
/// records for the forwarding consumer, hand each record that decodes
/// to the broadcaster, and acknowledge every fetched record — decoded
/// or not, listeners or none.  With zero live subscribers the
/// broadcaster is left exactly as it was and no error arises; the
/// records are acknowledged all the same.  Returns how many records
/// were fetched and acknowledged; fewer than `max_batch` means the
/// stream is drained for now.
pub fn forward_batch(
    stream: &mut EventStream,
    c: usize,
    bcast: &mut Broadcaster,
    max_batch: usize,
) -> (r: usize)
    requires
        old(stream).wf(),
        c < old(stream).consumers@.len(),
        old(bcast).well_formed(),
    ensures
        final(stream).wf(),
        final(bcast).well_formed(),
        r == min_int(max_batch as int, old(stream).pending(c as int).len() as int),
        final(stream).records == old(stream).records,
        final(stream).subjects == old(stream).subjects,
        final(stream).stream_name == old(stream).stream_name,
        final(stream).description == old(stream).description,
        final(stream).max_age_secs == old(stream).max_age_secs,
        final(stream).consumers@.len() == old(stream).consumers@.len(),
        forall|d: int|
            0 <= d < old(stream).consumers@.len() && d != c ==> final(stream).consumers@[d] == old(
                stream,
            ).consumers@[d],
        final(stream).consumers@[c as int].durable_name == old(
            stream,
        ).consumers@[c as int].durable_name,
        final(stream).consumers@[c as int].filter == old(stream).consumers@[c as int].filter,
        final(stream).consumers@[c as int].policy == old(stream).consumers@[c as int].policy,
        final(stream).consumers@[c as int].start == old(stream).consumers@[c as int].start,
        final(stream).pending(c as int) == old(stream).pending(c as int).skip(r as int),
        forall|i: int|
            final(stream).consumers@[c as int].acked_at(i) == (old(
                stream,
            ).consumers@[c as int].acked_at(i) || old(stream).pending(c as int).take(
                r as int,
            ).contains(i)),
        final(bcast).capacity == old(bcast).capacity,
        final(bcast).subscribers@.len() == old(bcast).subscribers@.len(),
        final(bcast).live_count() == old(bcast).live_count(),
        old(bcast).live_count() == 0 ==> *final(bcast) == *old(bcast),
        forall|m: int|
            0 <= m < old(bcast).subscribers@.len() && !(#[trigger] old(
                bcast,
            ).subscribers@[m]).open ==> final(bcast).subscribers@[m] == old(bcast).subscribers@[m],
        forall|m: int|
            0 <= m < old(bcast).subscribers@.len() && (#[trigger] old(
                bcast,
            ).subscribers@[m]).open ==> {
                &&& final(bcast).subscribers@[m].open
                &&& views_of(final(bcast).subscribers@[m].buffer@) == buffer_after_all(
                    views_of(old(bcast).subscribers@[m].buffer@),
                    forwarded_events(old(stream), c as int, r as int),
                    old(bcast).capacity as int,
                )
            },
{
    let ghost cg = c as int;
    let ghost s_pre = *old(stream);
    let ghost pend_pre = old(stream).pending(cg);
    let batch = stream.fetch(c, max_batch);
    let k = batch.len();
    let ghost s_fetched = *stream;
    proof {
        assert(seqs_of(batch@) == s_pre.pending(cg).take(k as int));
        assert forall|a: int|
            0 <= a < batch@.len() implies (#[trigger] batch@[a]).payload == s_pre.records@[
        s_pre.pending(cg)[a]].payload by {
            assert(seqs_of(batch@)[a] == batch@[a].seq as int);
            assert(s_pre.pending(cg).take(k as int)[a] == s_pre.pending(cg)[a]);
        }
    }
    let mut j: usize = 0;
    while j < batch.len()
        invariant
            0 <= j <= batch@.len(),
            stream.wf(),
            s_fetched.wf(),
            c < s_fetched.consumers@.len(),
            cg == c as int,
            old(bcast).well_formed(),
            bcast.well_formed(),
            bcast.capacity == old(bcast).capacity,
            bcast.subscribers@.len() == old(bcast).subscribers@.len(),
            bcast.live_count() == old(bcast).live_count(),
            old(bcast).live_count() == 0 ==> *bcast == *old(bcast),
            forall|m: int|
                0 <= m < old(bcast).subscribers@.len() && !(#[trigger] old(
                    bcast,
                ).subscribers@[m]).open ==> bcast.subscribers@[m] == old(bcast).subscribers@[m],
            forall|m: int|
                0 <= m < old(bcast).subscribers@.len() && (#[trigger] old(
                    bcast,
                ).subscribers@[m]).open ==> {
                    &&& bcast.subscribers@[m].open
                    &&& views_of(bcast.subscribers@[m].buffer@) == buffer_after_all(
                        views_of(old(bcast).subscribers@[m].buffer@),
                        forwarded_events(old(stream), cg, j as int),
                        old(bcast).capacity as int,
                    )
                },
            k == batch@.len(),
            seqs_of(batch@) == s_pre.pending(cg).take(k as int),
            batch@.len() <= s_pre.pending(cg).len(),
            forall|a: int|
                0 <= a < batch@.len() ==> (#[trigger] batch@[a]).payload == s_pre.records@[
                s_pre.pending(cg)[a]].payload,
            s_pre == *old(stream),
            forall|a: int|
                0 <= a < batch@.len() ==> 0 <= (#[trigger] batch@[a]).seq < stream.records@.len(),
            stream.records == s_fetched.records,
            stream.subjects == s_fetched.subjects,
            stream.stream_name == s_fetched.stream_name,
            stream.description == s_fetched.description,
            stream.max_age_secs == s_fetched.max_age_secs,
            stream.consumers@.len() == s_fetched.consumers@.len(),
            forall|d: int|
                0 <= d < s_fetched.consumers@.len() && d != cg ==> stream.consumers@[d]
                    == s_fetched.consumers@[d],
            stream.consumers@[cg].durable_name == s_fetched.consumers@[cg].durable_name,
            stream.consumers@[cg].filter == s_fetched.consumers@[cg].filter,
            stream.consumers@[cg].policy == s_fetched.consumers@[cg].policy,
            stream.consumers@[cg].start == s_fetched.consumers@[cg].start,
            forall|i: int|
                (#[trigger] stream.consumers@[cg].count_at(i)) == s_fetched.consumers@[cg].count_at(
                    i,
                ),
            forall|i: int|
                (#[trigger] stream.consumers@[cg].acked_at(i)) == (s_fetched.consumers@[
                cg].acked_at(i) || seqs_of(batch@).take(j as int).contains(i)),
        decreases batch@.len() - j,
    {
        let ghost before = *stream;
        let ghost bcast_pre = *bcast;
        proof {
            assert(seqs_of(batch@)[j as int] == s_pre.pending(cg)[j as int]);
            assert(batch@[j as int].payload == s_pre.records@[s_pre.pending(cg)[j as int]].payload);
        }
        let decoded = decode_squeak(batch[j].payload.as_str());
        let ghost pw = parse_wire(s_pre.records@[s_pre.pending(cg)[j as int]].payload@);
        if let Some(sq) = &decoded {
            bcast.send(sq);
            proof {
                assert(pw == Some(sq@));
                assert(forwarded_events(old(stream), cg, j + 1) == forwarded_events(
                    old(stream),
                    cg,
                    j as int,
                ).push(sq@));
                assert forall|m: int|
                    0 <= m < old(bcast).subscribers@.len() && (#[trigger] old(
                        bcast,
                    ).subscribers@[m]).open implies {
                    &&& bcast.subscribers@[m].open
                    &&& views_of(bcast.subscribers@[m].buffer@) == buffer_after_all(
                        views_of(old(bcast).subscribers@[m].buffer@),
                        forwarded_events(old(stream), cg, j + 1),
                        old(bcast).capacity as int,
                    )
                } by {
                    assert(bcast_pre.subscribers@[m].open);
                    assert(views_of(bcast.subscribers@[m].buffer@) == bounded_push(
                        views_of(bcast_pre.subscribers@[m].buffer@),
                        sq@,
                        bcast_pre.capacity as int,
                    ));
                    lemma_buffer_after_all_snoc(
                        views_of(old(bcast).subscribers@[m].buffer@),
                        forwarded_events(old(stream), cg, j as int),
                        sq@,
                        old(bcast).capacity as int,
                    );
                }
            }
        } else {
            proof {
                assert(pw is None);
                assert(forwarded_events(old(stream), cg, j + 1) == forwarded_events(
                    old(stream),
                    cg,
                    j as int,
                ));
            }
        }
        let seqi = batch[j].seq;
        stream.ack(c, seqi);
        proof {
            let tj = seqs_of(batch@).take(j + 1);
            let tj0 = seqs_of(batch@).take(j as int);
            assert forall|x: int| #[trigger] tj.contains(x) <==> (tj0.contains(x) || x
                == seqi as int) by {
                if tj.contains(x) {
                    let a = choose|a: int| 0 <= a < tj.len() && #[trigger] tj[a] == x;
                    if a < j {
                        assert(tj0[a] == x);
                    } else {
                        assert(tj[j as int] == seqs_of(batch@)[j as int]);
                    }
                }
                if tj0.contains(x) {
                    let a = choose|a: int| 0 <= a < tj0.len() && #[trigger] tj0[a] == x;
                    assert(tj[a] == x);
                }
                if x == seqi as int {
                    assert(tj[j as int] == seqs_of(batch@)[j as int]);
                    assert(tj[j as int] == x);
                }
            }
            assert forall|i: int|
                (#[trigger] stream.consumers@[cg].acked_at(i)) == (s_fetched.consumers@[
                cg].acked_at(i) || tj.contains(i)) by {
                assert(stream.consumers@[cg].acked_at(i) == (before.consumers@[cg].acked_at(i) || i
                    == seqi as int));
                assert(before.consumers@[cg].acked_at(i) == (s_fetched.consumers@[cg].acked_at(i)
                    || tj0.contains(i)));
            }
        }
        j = j + 1;
    }
    proof {
        assert(seqs_of(batch@).take(batch@.len() as int) =~= seqs_of(batch@));
        assert(seqs_of(batch@) == pend_pre.take(k as int));
        assert(pend_pre == s_pre.pending(cg));
        assert forall|i: int|
            (#[trigger] stream.consumers@[cg].acked_at(i)) == (s_pre.consumers@[cg].acked_at(i)
                || s_pre.pending(cg).take(k as int).contains(i)) by {
            assert(stream.consumers@[cg].acked_at(i) == (s_fetched.consumers@[cg].acked_at(i)
                || seqs_of(batch@).take(batch@.len() as int).contains(i)));
            assert(s_fetched.consumers@[cg].acked_at(i) == s_pre.consumers@[cg].acked_at(i));
        }
        assert forall|i: int|
            (#[trigger] stream.consumers@[cg].count_at(i)) == s_pre.consumers@[cg].count_at(i)
                + if s_pre.pending(cg).take(k as int).contains(i) {
                1int
            } else {
                0int
            } by {
            assert(stream.consumers@[cg].count_at(i) == s_fetched.consumers@[cg].count_at(i));
            assert(s_fetched.consumers@[cg].count_at(i) == s_pre.consumers@[cg].count_at(i)
                + if seqs_of(batch@).contains(i) {
                1int
            } else {
                0int
            });
        }
        lemma_drain_step(&s_pre, stream, cg, k as int);
    }
    k
}


/// The replay phase in full: drain everything the replay consumer can
/// see — the batch-drain idiom, a short batch being the stop signal —
/// and turn each record back into a wire frame, in original publish
/// order.  Replay succeeds exactly when every pending record decodes;
/// a record that does not ends the replay with a serialization
/// failure.  Every pending record is acknowledged either way, which
/// for an ephemeral replay consumer is mere bookkeeping: nothing ever
/// reattaches to its cursor.
pub fn replay_frames(stream: &mut EventStream, c: usize, batch_size: usize) -> (r: Result<
    Vec<String>,
    OddbotError,
>)
    requires
        old(stream).wf(),
        c < old(stream).consumers@.len(),
        batch_size >= 1,
    ensures
        final(stream).wf(),
        final(stream).records == old(stream).records,
        final(stream).subjects == old(stream).subjects,
        final(stream).stream_name == old(stream).stream_name,
        final(stream).consumers@.len() == old(stream).consumers@.len(),
        forall|d: int|
            0 <= d < old(stream).consumers@.len() && d != c ==> final(stream).consumers@[d] == old(
                stream,
            ).consumers@[d],
        final(stream).pending(c as int).len() == 0,
        (r is Ok) <==> (forall|j: int|
            0 <= j < old(stream).pending(c as int).len() ==> parse_wire(
                (#[trigger] old(stream).records@[old(stream).pending(c as int)[j]]).payload@,
            ) is Some),
        r matches Ok(frames) ==> {
            &&& frames@.len() == old(stream).pending(c as int).len()
            &&& forall|j: int|
                0 <= j < frames@.len() ==> (#[trigger] frames@[j])@ == wire_of(
                    parse_wire(
                        old(stream).records@[old(stream).pending(c as int)[j]].payload@,
                    ).unwrap(),
                )
        },
        r matches Err(e) ==> e is SerdeError,
{
    let ghost cg = c as int;
    let ghost p0 = old(stream).pending(cg);
    let (records, _batches) = stream.drain(c, batch_size);
    let mut frames: Vec<String> = Vec::new();
    let mut j: usize = 0;
    while j < records.len()
        invariant
            0 <= j <= records@.len(),
            frames@.len() == j,
            cg == c as int,
            c < old(stream).consumers@.len(),
            stream.wf(),
            stream.records == old(stream).records,
            stream.subjects == old(stream).subjects,
            stream.stream_name == old(stream).stream_name,
            stream.consumers@.len() == old(stream).consumers@.len(),
            forall|d: int|
                0 <= d < old(stream).consumers@.len() && d != cg ==> stream.consumers@[d] == old(
                    stream,
                ).consumers@[d],
            stream.pending(cg).len() == 0,
            p0 == old(stream).pending(cg),
            seqs_of(records@) == p0,
            forall|a: int|
                0 <= a < records@.len() ==> {
                    let i = (#[trigger] records@[a]).seq as int;
                    &&& 0 <= i < old(stream).records@.len()
                    &&& records@[a].payload == old(stream).records@[i].payload
                },
            forall|a: int|
                0 <= a < j ==> parse_wire(
                    (#[trigger] old(stream).records@[p0[a]]).payload@,
                ) is Some,
            forall|a: int|
                0 <= a < j ==> (#[trigger] frames@[a])@ == wire_of(
                    parse_wire(old(stream).records@[p0[a]].payload@).unwrap(),
                ),
        decreases records@.len() - j,
    {
        proof {
            assert(seqs_of(records@)[j as int] == p0[j as int]);
        }
        let sq = match decode_squeak(records[j].payload.as_str()) {
            Some(sq) => sq,
            None => {
                return Err(OddbotError::SerdeError);
            },
        };
        let frame = encode_squeak(&sq);
        frames.push(frame);
        j = j + 1;
    }
    proof {
        assert(records@.len() == p0.len());
    }
    Ok(frames)
}

} // verus!
