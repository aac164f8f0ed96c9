//! What holds of the delivery of edits over any number of steps.
use crate::ack::{connected, AckReceiver};
use crate::connections::{
    lemma_acknowledging_keeps_wf, lemma_adding_keeps_wf, lemma_connecting_keeps_wf,
    lemma_receiving_keeps_wf, lemma_removing_channel_keeps_wf,
};
use crate::connections::{ChannelView, ConnectionsView, StateView};
use crate::message::MsgPair;
use vstd::prelude::*;

verus! {

/// One step of the connections of all webviews.
pub enum Step<S> {
    /// The renderer sends a batch to a webview.
    Send { webview: u32, pair: MsgPair },
    /// A webview's connection takes over.
    Connect { webview: u32, generation: u64, socket: S },
    /// The worker of a channel takes its next batch.
    Receive { channel: u64 },
    /// The batch that a channel has on its way is acknowledged.
    Acknowledge { channel: u64 },
    /// The worker of a channel ends.
    Close { channel: u64 },
}

impl<S> Step<S> {
    /// Whether the step can be taken.
    pub open spec fn is_enabled(self, v: ConnectionsView<S>) -> bool {
        match self {
            Step::Send { .. } => true,
            Step::Connect { webview, generation, .. } => !v.is_superseded(webview, generation)
                && v.next_channel < u64::MAX,
            Step::Receive { .. } => true,
            Step::Acknowledge { channel } => v.has_queued(channel),
            Step::Close { .. } => true,
        }
    }

    /// What the connections hold after the step.
    pub open spec fn apply(self, v: ConnectionsView<S>) -> ConnectionsView<S> {
        match self {
            Step::Send { webview, pair } => v.adding(webview, pair),
            Step::Connect { webview, generation, socket } => v.connecting(
                webview,
                generation,
                socket,
            ),
            Step::Receive { channel } => v.receiving(channel),
            Step::Acknowledge { channel } => v.acknowledging(channel),
            Step::Close { channel } => v.closing(channel),
        }
    }

    /// Whether the step acknowledges this batch.
    pub open spec fn acknowledges(self, v: ConnectionsView<S>, pair: MsgPair) -> bool {
        match self {
            Step::Acknowledge { channel } => v.channels[channel].queued_message == Some(pair),
            _ => false,
        }
    }
}

/// What the connections hold after all of `steps`.
pub open spec fn run<S>(v: ConnectionsView<S>, steps: Seq<Step<S>>) -> ConnectionsView<S>
    decreases steps.len(),
{
    if steps.len() == 0 {
        v
    } else {
        run(steps.first().apply(v), steps.drop_first())
    }
}

/// Whether `steps` can be taken one after the other.
pub open spec fn can_run<S>(v: ConnectionsView<S>, steps: Seq<Step<S>>) -> bool
    decreases steps.len(),
{
    steps.len() > 0 ==> steps.first().is_enabled(v) && can_run(
        steps.first().apply(v),
        steps.drop_first(),
    )
}

/// Whether one of `steps` acknowledges this batch.
pub open spec fn run_acknowledges<S>(
    v: ConnectionsView<S>,
    steps: Seq<Step<S>>,
    pair: MsgPair,
) -> bool
    decreases steps.len(),
{
    steps.len() > 0 && (steps.first().acknowledges(v, pair) || run_acknowledges(
        steps.first().apply(v),
        steps.drop_first(),
        pair,
    ))
}

/// Whether a batch waits in a webview's state.
pub open spec fn waits_in_state<S>(v: ConnectionsView<S>, webview: u32, pair: MsgPair) -> bool {
    v.states.contains_key(webview) && match v.states[webview] {
        StateView::Pending { pending, .. } => pending.contains(pair),
        StateView::Connected { .. } => false,
    }
}

/// Whether a batch for a webview is in channel `id`.
pub open spec fn is_in_channel<S>(
    v: ConnectionsView<S>,
    webview: u32,
    id: u64,
    pair: MsgPair,
) -> bool {
    &&& v.channels.contains_key(id)
    &&& v.channels[id].webview_id == webview
    &&& v.channels[id].backlog().contains(pair)
}

/// Whether a batch for a webview is held anywhere: in its state or in one of its channels.
pub open spec fn holds<S>(v: ConnectionsView<S>, webview: u32, pair: MsgPair) -> bool {
    waits_in_state(v, webview, pair) || exists|id: u64| is_in_channel(v, webview, id, pair)
}

proof fn lemma_push_contains(s: Seq<MsgPair>, x: MsgPair, y: MsgPair)
    ensures
        s.push(x).contains(y) <==> s.contains(y) || x == y,
{
    if s.contains(y) {
        let i = s.index_of(y);
        assert(s.push(x)[i] == y);
    }
    assert(s.push(x)[s.len() as int] == x);
    if s.push(x).contains(y) && x != y {
        let i = s.push(x).index_of(y);
        assert(s[i] == y);
    }
}

proof fn lemma_backlog_contains(c: ChannelView, y: MsgPair)
    ensures
        c.backlog().contains(y) <==> c.queued_message == Some(y) || c.incoming.contains(y),
{
    match c.queued_message {
        Some(x) => {
            assert(c.backlog()[0] == x);
            if c.incoming.contains(y) {
                let i = c.incoming.index_of(y);
                assert(c.backlog()[i + 1] == y);
            }
            if c.backlog().contains(y) && x != y {
                let i = c.backlog().index_of(y);
                assert(c.incoming[i - 1] == y);
            }
        },
        None => {},
    }
}

/// Sending a batch adds it for its webview and touches no other: whatever was held is held
/// still, and nothing but that batch is new.
pub proof fn sending_adds_one_batch<S>(
    v: ConnectionsView<S>,
    webview: u32,
    pair: MsgPair,
    other: u32,
    held: MsgPair,
)
    requires
        v.wf(),
    ensures
        v.adding(webview, pair).wf(),
        holds(v.adding(webview, pair), other, held) <==> holds(v, other, held) || (other == webview
            && held == pair),
{
    let w = v.adding(webview, pair);
    lemma_adding_keeps_wf(v, webview, pair);
    let state = v.state_of(webview);
    match state {
        StateView::Pending { pending, .. } => {
            lemma_push_contains(pending, pair, held);
            assert(w.channels =~= v.channels);
            assert forall|id: u64|
                is_in_channel(w, other, id, held) == is_in_channel(v, other, id, held) by {}
            lemma_holds_by_parts(v, w, other, held);
        },
        StateView::Connected { edits_outgoing, .. } => {
            assert(v.sends_into(webview, edits_outgoing));
            if v.channels.contains_key(edits_outgoing) {
                let c = v.channels[edits_outgoing];
                let d = w.channels[edits_outgoing];
                lemma_push_contains(c.incoming, pair, held);
                lemma_backlog_contains(c, held);
                lemma_backlog_contains(d, held);
                assert(waits_in_state(w, other, held) == waits_in_state(v, other, held));
                assert forall|id: u64| id != edits_outgoing implies is_in_channel(
                    w,
                    other,
                    id,
                    held,
                ) == is_in_channel(v, other, id, held) by {}
                if holds(v, other, held) && !waits_in_state(v, other, held) {
                    let id = choose|id: u64| is_in_channel(v, other, id, held);
                    assert(is_in_channel(w, other, id, held));
                }
                if other == webview && held == pair {
                    assert(is_in_channel(w, other, edits_outgoing, held));
                }
                if holds(w, other, held) && !waits_in_state(w, other, held) {
                    let id = choose|id: u64| is_in_channel(w, other, id, held);
                    assert(is_in_channel(v, other, id, held) || held == pair);
                }
            } else {
                assert(w.channels =~= v.channels);
                assert forall|id: u64|
                    is_in_channel(w, other, id, held) == is_in_channel(v, other, id, held) by {}
                lemma_holds_by_parts(v, w, other, held);
                assert(seq![pair].contains(held) <==> held == pair) by {
                    assert(seq![pair][0] == pair);
                }
            }
        },
    }
}

/// Where the channels hold the same for a webview, what is held differs only by its state.
proof fn lemma_holds_by_parts<S>(
    v: ConnectionsView<S>,
    w: ConnectionsView<S>,
    other: u32,
    held: MsgPair,
)
    requires
        forall|id: u64|
            is_in_channel(w, other, id, held) == is_in_channel(v, other, id, held),
    ensures
        (exists|id: u64| is_in_channel(w, other, id, held)) == (exists|id: u64|
            is_in_channel(v, other, id, held)),
{
    if exists|id: u64| is_in_channel(w, other, id, held) {
        let id = choose|id: u64| is_in_channel(w, other, id, held);
        assert(is_in_channel(v, other, id, held));
    }
    if exists|id: u64| is_in_channel(v, other, id, held) {
        let id = choose|id: u64| is_in_channel(v, other, id, held);
        assert(is_in_channel(w, other, id, held));
    }
}

/// A connection that takes over loses no batch of any webview, and adds none.
pub proof fn connecting_keeps_batches<S>(
    v: ConnectionsView<S>,
    webview: u32,
    generation: u64,
    socket: S,
    other: u32,
    held: MsgPair,
)
    requires
        v.wf(),
        v.next_channel < u64::MAX,
    ensures
        v.connecting(webview, generation, socket).wf(),
        holds(v.connecting(webview, generation, socket), other, held) <==> holds(v, other, held),
{
    let w = v.connecting(webview, generation, socket);
    let id = v.next_channel;
    lemma_connecting_keeps_wf(v, webview, generation, socket);
    lemma_backlog_contains(w.channels[id], held);
    assert(!v.channels.contains_key(id));
    assert forall|c: u64| c != id implies is_in_channel(w, other, c, held) == is_in_channel(
        v,
        other,
        c,
        held,
    ) by {}
    assert(!Seq::<MsgPair>::empty().contains(held));
    if holds(v, other, held) {
        if waits_in_state(v, other, held) {
            if other == webview {
                assert(is_in_channel(w, other, id, held));
            } else {
                assert(waits_in_state(w, other, held));
            }
        } else {
            let c = choose|c: u64| is_in_channel(v, other, c, held);
            assert(is_in_channel(w, other, c, held));
        }
    }
    if holds(w, other, held) && !waits_in_state(w, other, held) {
        let c = choose|c: u64| is_in_channel(w, other, c, held);
        if c == id {
            assert(waits_in_state(v, other, held));
        } else {
            assert(is_in_channel(v, other, c, held));
        }
    }
}

/// Taking the next batch out of a channel loses no batch and adds none.
pub proof fn receiving_keeps_batches<S>(
    v: ConnectionsView<S>,
    channel: u64,
    other: u32,
    held: MsgPair,
)
    requires
        v.wf(),
    ensures
        v.receiving(channel).wf(),
        holds(v.receiving(channel), other, held) <==> holds(v, other, held),
{
    let w = v.receiving(channel);
    lemma_receiving_keeps_wf(v, channel);
    if w != v {
        let c = v.channels[channel];
        let d = w.channels[channel];
        assert(d.backlog() =~= c.backlog());
        assert forall|id: u64|
            is_in_channel(w, other, id, held) == is_in_channel(v, other, id, held) by {}
        lemma_holds_by_parts(v, w, other, held);
    }
}

/// An acknowledgment takes away the batch that it acknowledges and no other.
pub proof fn acknowledging_removes_one_batch<S>(
    v: ConnectionsView<S>,
    channel: u64,
    other: u32,
    held: MsgPair,
)
    requires
        v.wf(),
        v.has_queued(channel),
    ensures
        v.acknowledging(channel).wf(),
        holds(v.acknowledging(channel), other, held) ==> holds(v, other, held),
        holds(v, other, held) ==> holds(v.acknowledging(channel), other, held)
            || v.channels[channel].queued_message == Some(held),
{
    let w = v.acknowledging(channel);
    lemma_acknowledging_keeps_wf(v, channel);
    lemma_backlog_contains(v.channels[channel], held);
    lemma_backlog_contains(w.channels[channel], held);
    assert forall|id: u64| id != channel implies is_in_channel(w, other, id, held)
        == is_in_channel(v, other, id, held) by {}
    assert(waits_in_state(w, other, held) == waits_in_state(v, other, held));
    if holds(w, other, held) && !waits_in_state(w, other, held) {
        let id = choose|id: u64| is_in_channel(w, other, id, held);
        assert(is_in_channel(v, other, id, held));
    }
    if holds(v, other, held) && !waits_in_state(v, other, held) {
        let id = choose|id: u64| is_in_channel(v, other, id, held);
        assert(is_in_channel(w, other, id, held) || v.channels[channel].queued_message == Some(
            held,
        ));
    }
}

proof fn lemma_adding_all_holds<S>(
    v: ConnectionsView<S>,
    webview: u32,
    pairs: Seq<MsgPair>,
    other: u32,
    held: MsgPair,
)
    requires
        v.wf(),
    ensures
        v.adding_all(webview, pairs).wf(),
        holds(v.adding_all(webview, pairs), other, held) <==> holds(v, other, held) || (other
            == webview && pairs.contains(held)),
    decreases pairs.len(),
{
    if pairs.len() > 0 {
        let rest = pairs.drop_first();
        sending_adds_one_batch(v, webview, pairs.first(), other, held);
        lemma_adding_all_holds(v.adding(webview, pairs.first()), webview, rest, other, held);
        if rest.contains(held) {
            assert(pairs[rest.index_of(held) + 1] == held);
        }
        if pairs.contains(held) && pairs.first() != held {
            assert(rest[pairs.index_of(held) - 1] == held);
        }
    }
}

/// A worker that ends loses no batch of its webview or of another, and adds none.
pub proof fn closing_keeps_batches<S>(
    v: ConnectionsView<S>,
    channel: u64,
    other: u32,
    held: MsgPair,
)
    requires
        v.wf(),
    ensures
        v.closing(channel).wf(),
        holds(v.closing(channel), other, held) <==> holds(v, other, held),
{
    if v.channels.contains_key(channel) {
        let c = v.channels[channel];
        let u = ConnectionsView { channels: v.channels.remove(channel), ..v };
        lemma_removing_channel_keeps_wf(v, channel);
        lemma_adding_all_holds(u, c.webview_id, c.backlog(), other, held);
        assert forall|id: u64| id != channel implies is_in_channel(u, other, id, held)
            == is_in_channel(v, other, id, held) by {}
        assert(waits_in_state(u, other, held) == waits_in_state(v, other, held));
        if holds(u, other, held) && !waits_in_state(u, other, held) {
            let id = choose|id: u64| is_in_channel(u, other, id, held);
            assert(is_in_channel(v, other, id, held));
        }
        if holds(v, other, held) && !waits_in_state(v, other, held) {
            let id = choose|id: u64| is_in_channel(v, other, id, held);
            if id != channel {
                assert(is_in_channel(u, other, id, held));
            }
        }
        if other == c.webview_id && c.backlog().contains(held) {
            assert(is_in_channel(v, other, channel, held));
        }
    }
}

pub(crate) proof fn lemma_step_keeps_batch<S>(
    v: ConnectionsView<S>,
    step: Step<S>,
    webview: u32,
    pair: MsgPair,
)
    requires
        v.wf(),
        step.is_enabled(v),
    ensures
        step.apply(v).wf(),
        holds(v, webview, pair) && !step.acknowledges(v, pair) ==> holds(
            step.apply(v),
            webview,
            pair,
        ),
{
    match step {
        Step::Send { webview: to, pair: sent } => sending_adds_one_batch(
            v,
            to,
            sent,
            webview,
            pair,
        ),
        Step::Connect { webview: to, generation, socket } => connecting_keeps_batches(
            v,
            to,
            generation,
            socket,
            webview,
            pair,
        ),
        Step::Receive { channel } => receiving_keeps_batches(v, channel, webview, pair),
        Step::Acknowledge { channel } => acknowledging_removes_one_batch(v, channel, webview, pair),
        Step::Close { channel } => closing_keeps_batches(v, channel, webview, pair),
    }
}

/// Whatever happens, a batch is held for its webview until it is acknowledged: no lost
/// socket, no replacement and no other batch's acknowledgment makes it go away.
pub proof fn batch_is_held_until_acknowledged<S>(
    v: ConnectionsView<S>,
    steps: Seq<Step<S>>,
    webview: u32,
    pair: MsgPair,
)
    requires
        v.wf(),
        can_run(v, steps),
        holds(v, webview, pair),
        !run_acknowledges(v, steps, pair),
    ensures
        holds(run(v, steps), webview, pair),
    decreases steps.len(),
{
    if steps.len() > 0 {
        let step = steps.first();
        lemma_step_keeps_batch(v, step, webview, pair);
        batch_is_held_until_acknowledged(step.apply(v), steps.drop_first(), webview, pair);
    }
}

/// Whether one of `steps` sends this batch to this webview.
pub open spec fn run_sends<S>(steps: Seq<Step<S>>, webview: u32, pair: MsgPair) -> bool
    decreases steps.len(),
{
    steps.len() > 0 && (steps.first() == (Step::<S>::Send { webview, pair }) || run_sends(
        steps.drop_first(),
        webview,
        pair,
    ))
}

/// Whatever happens, a webview is only ever to get what was sent to it: a batch that is held
/// for it at the end was held for it at the start, or was sent to it in between.
pub proof fn held_batch_was_sent<S>(
    v: ConnectionsView<S>,
    steps: Seq<Step<S>>,
    webview: u32,
    pair: MsgPair,
)
    requires
        v.wf(),
        can_run(v, steps),
        holds(run(v, steps), webview, pair),
    ensures
        holds(v, webview, pair) || run_sends(steps, webview, pair),
    decreases steps.len(),
{
    if steps.len() > 0 {
        let step = steps.first();
        lemma_step_keeps_wf(v, step);
        held_batch_was_sent(step.apply(v), steps.drop_first(), webview, pair);
        match step {
            Step::Send { webview: to, pair: sent } => sending_adds_one_batch(
                v,
                to,
                sent,
                webview,
                pair,
            ),
            Step::Connect { webview: to, generation, socket } => connecting_keeps_batches(
                v,
                to,
                generation,
                socket,
                webview,
                pair,
            ),
            Step::Receive { channel } => receiving_keeps_batches(v, channel, webview, pair),
            Step::Acknowledge { channel } => acknowledging_removes_one_batch(
                v,
                channel,
                webview,
                pair,
            ),
            Step::Close { channel } => closing_keeps_batches(v, channel, webview, pair),
        }
    }
}

proof fn lemma_adding_all_generation<S>(
    v: ConnectionsView<S>,
    webview: u32,
    pairs: Seq<MsgPair>,
    other: u32,
)
    ensures
        v.adding_all(webview, pairs).state_of(other).generation() == v.state_of(
            other,
        ).generation(),
        v.states.contains_key(other) ==> v.adding_all(webview, pairs).states.contains_key(other),
    decreases pairs.len(),
{
    if pairs.len() > 0 {
        lemma_adding_all_generation(
            v.adding(webview, pairs.first()),
            webview,
            pairs.drop_first(),
            other,
        );
    }
}

/// The generation of a webview's connection never falls, whatever happens, so that a
/// handshake that comes too late once comes too late for ever.
pub proof fn late_connection_stays_superseded<S>(
    v: ConnectionsView<S>,
    steps: Seq<Step<S>>,
    webview: u32,
    generation: u64,
)
    requires
        v.wf(),
        can_run(v, steps),
        v.is_superseded(webview, generation),
    ensures
        run(v, steps).is_superseded(webview, generation),
    decreases steps.len(),
{
    if steps.len() > 0 {
        let step = steps.first();
        let w = step.apply(v);
        if let Step::Close { channel } = step {
            if v.channels.contains_key(channel) {
                let c = v.channels[channel];
                let u = ConnectionsView { channels: v.channels.remove(channel), ..v };
                lemma_adding_all_generation(u, c.webview_id, c.backlog(), webview);
            }
        }
        assert(w.is_superseded(webview, generation));
        lemma_step_keeps_wf(v, step);
        late_connection_stays_superseded(w, steps.drop_first(), webview, generation);
    }
}

pub(crate) proof fn lemma_step_keeps_wf<S>(v: ConnectionsView<S>, step: Step<S>)
    requires
        v.wf(),
        step.is_enabled(v),
    ensures
        step.apply(v).wf(),
{
    lemma_step_keeps_batch(v, step, 0, arbitrary());
}

/// Whatever happens, the numbers of channels stay in order, as `wf` says.
pub proof fn run_keeps_wf<S>(v: ConnectionsView<S>, steps: Seq<Step<S>>)
    requires
        v.wf(),
        can_run(v, steps),
    ensures
        run(v, steps).wf(),
    decreases steps.len(),
{
    if steps.len() > 0 {
        lemma_step_keeps_wf(v, steps.first());
        run_keeps_wf(steps.first().apply(v), steps.drop_first());
    }
}

/// Once a connection has taken over, no connection of its generation or an earlier one can,
/// whatever happens in between.
pub proof fn older_connection_cannot_take_over<S>(
    v: ConnectionsView<S>,
    webview: u32,
    generation: u64,
    socket: S,
    steps: Seq<Step<S>>,
    older: u64,
)
    requires
        v.wf(),
        v.next_channel < u64::MAX,
        can_run(v.connecting(webview, generation, socket), steps),
        older <= generation,
    ensures
        run(v.connecting(webview, generation, socket), steps).is_superseded(webview, older),
{
    let w = v.connecting(webview, generation, socket);
    lemma_connecting_keeps_wf(v, webview, generation, socket);
    late_connection_stays_superseded(w, steps, webview, older);
}

pub(crate) proof fn lemma_adding_all_pending<S>(
    v: ConnectionsView<S>,
    webview: u32,
    pairs: Seq<MsgPair>,
    generation: u64,
    pending: Seq<MsgPair>,
)
    requires
        v.states.contains_key(webview),
        v.states[webview] == (StateView::<S>::Pending { generation, pending }),
    ensures
        v.adding_all(webview, pairs) == (ConnectionsView {
            states: v.states.insert(
                webview,
                StateView::Pending { generation, pending: pending + pairs },
            ),
            ..v
        }),
    decreases pairs.len(),
{
    if pairs.len() == 0 {
        assert(pending + pairs =~= pending);
        assert(v.states =~= v.states.insert(
            webview,
            StateView::Pending { generation, pending: pending + pairs },
        ));
    } else {
        let w = v.adding(webview, pairs.first());
        lemma_adding_all_pending(
            w,
            webview,
            pairs.drop_first(),
            generation,
            pending.push(pairs.first()),
        );
        assert(pending.push(pairs.first()) + pairs.drop_first() =~= pending + pairs);
        assert(v.adding_all(webview, pairs) =~= ConnectionsView {
            states: v.states.insert(
                webview,
                StateView::Pending { generation, pending: pending + pairs },
            ),
            ..v
        });
    }
}

pub(crate) proof fn lemma_adding_all_connected<S>(v: ConnectionsView<S>, webview: u32, pairs: Seq<MsgPair>)
    requires
        v.states.contains_key(webview),
        v.states[webview] is Connected,
        v.channels.contains_key(v.states[webview]->edits_outgoing),
    ensures
        v.adding_all(webview, pairs) == (ConnectionsView {
            channels: v.channels.insert(
                v.states[webview]->edits_outgoing,
                ChannelView {
                    incoming: v.channels[v.states[webview]->edits_outgoing].incoming + pairs,
                    ..v.channels[v.states[webview]->edits_outgoing]
                },
            ),
            ..v
        }),
    decreases pairs.len(),
{
    let id = v.states[webview]->edits_outgoing;
    let channel = v.channels[id];
    let goal = ConnectionsView {
        channels: v.channels.insert(
            id,
            ChannelView { incoming: channel.incoming + pairs, ..channel },
        ),
        ..v
    };
    if pairs.len() == 0 {
        assert(channel.incoming + pairs =~= channel.incoming);
        assert(v =~= goal);
    } else {
        let w = v.adding(webview, pairs.first());
        assert(w.states =~= v.states);
        lemma_adding_all_connected(w, webview, pairs.drop_first());
        assert(channel.incoming.push(pairs.first()) + pairs.drop_first() =~= channel.incoming
            + pairs);
        assert(v.adding_all(webview, pairs) =~= goal);
    }
}

/// What a channel had not seen acknowledged when its worker ended waits in its webview's
/// state, in order, where that state still sent into the channel.
pub proof fn closing_requeues_in_order<S>(v: ConnectionsView<S>, webview: u32, channel: u64)
    requires
        v.wf(),
        v.sends_into(webview, channel),
        v.has_queued(channel),
    ensures
        v.closing(channel).states.contains_key(webview),
        v.closing(channel).states[webview] == (StateView::<S>::Pending {
            generation: v.states[webview].generation(),
            pending: v.channels[channel].backlog(),
        }),
{
    let c = v.channels[channel];
    let u = ConnectionsView { channels: v.channels.remove(channel), ..v };
    let pairs = c.backlog();
    let generation = v.states[webview].generation();
    let w = u.adding(webview, pairs.first());
    assert(w.states[webview] == (StateView::<S>::Pending {
        generation,
        pending: seq![pairs.first()],
    }));
    lemma_adding_all_pending(
        w,
        webview,
        pairs.drop_first(),
        generation,
        seq![pairs.first()],
    );
    assert(seq![pairs.first()] + pairs.drop_first() =~= pairs);
}

/// A batch whose acknowledgment was lost with its connection is the first that the next
/// connection sends, in the same frame, and what was behind it follows in order.
pub proof fn lost_batch_is_replayed_first<S>(
    v: ConnectionsView<S>,
    webview: u32,
    channel: u64,
    generation: u64,
    socket: S,
)
    requires
        v.wf(),
        v.next_channel < u64::MAX,
        v.sends_into(webview, channel),
        v.has_queued(channel),
        generation > v.states[webview].generation(),
    ensures
        !v.closing(channel).is_superseded(webview, generation),
        v.closing(channel).next_channel == v.next_channel,
        ({
            let replay = v.closing(channel).connecting(webview, generation, socket).receiving(
                v.next_channel,
            );
            &&& replay.has_queued(v.next_channel)
            &&& replay.channels[v.next_channel].queued_message
                == v.channels[channel].queued_message
            &&& replay.channels[v.next_channel].incoming == v.channels[channel].incoming
        }),
{
    let c = v.channels[channel];
    closing_requeues_in_order(v, webview, channel);
    lemma_adding_all_next_channel(
        ConnectionsView { channels: v.channels.remove(channel), ..v },
        c.webview_id,
        c.backlog(),
    );
    assert(c.backlog().drop_first() =~= c.incoming);
}

/// A batch whose acknowledgment was still awaited when another connection took over is the
/// first that the new connection sends, in the same frame, once the old worker has ended;
/// what was behind it follows in order.
pub proof fn replaced_connection_hands_over<S>(
    v: ConnectionsView<S>,
    webview: u32,
    channel: u64,
    generation: u64,
    socket: S,
)
    requires
        v.wf(),
        v.next_channel < u64::MAX,
        v.sends_into(webview, channel),
        v.has_queued(channel),
        generation > v.states[webview].generation(),
    ensures
        !v.is_superseded(webview, generation),
        ({
            let replay = v.connecting(webview, generation, socket).closing(channel).receiving(
                v.next_channel,
            );
            &&& replay.has_queued(v.next_channel)
            &&& replay.channels[v.next_channel].queued_message
                == v.channels[channel].queued_message
            &&& replay.channels[v.next_channel].incoming == v.channels[channel].incoming
        }),
{
    let c = v.channels[channel];
    let w = v.connecting(webview, generation, socket);
    let u = ConnectionsView { channels: w.channels.remove(channel), ..w };
    assert(channel != v.next_channel);
    lemma_adding_all_connected(u, webview, c.backlog());
    assert(Seq::<MsgPair>::empty() + c.backlog() =~= c.backlog());
    assert(c.backlog().drop_first() =~= c.incoming);
}

proof fn lemma_adding_all_next_channel<S>(
    v: ConnectionsView<S>,
    webview: u32,
    pairs: Seq<MsgPair>,
)
    ensures
        v.adding_all(webview, pairs).next_channel == v.next_channel,
    decreases pairs.len(),
{
    if pairs.len() > 0 {
        lemma_adding_all_next_channel(
            v.adding(webview, pairs.first()),
            webview,
            pairs.drop_first(),
        );
    }
}

/// A place where a batch can be held: at an index of a webview's pending batches, or at one
/// of what a channel holds.
pub enum Place {
    Pending { webview: u32, index: int },
    Channel { channel: u64, index: int },
}

/// The batch that is held at a place, if there is one.
pub open spec fn batch_at<S>(v: ConnectionsView<S>, place: Place) -> Option<MsgPair> {
    match place {
        Place::Pending { webview, index } => if v.states.contains_key(webview) {
            match v.states[webview] {
                StateView::Pending { pending, .. } => if 0 <= index < pending.len() {
                    Some(pending[index])
                } else {
                    None
                },
                StateView::Connected { .. } => None,
            }
        } else {
            None
        },
        Place::Channel { channel, index } => if v.channels.contains_key(channel) && 0 <= index
            < v.channels[channel].backlog().len() {
            Some(v.channels[channel].backlog()[index])
        } else {
            None
        },
    }
}

/// Whether the sender that a receiver is connected to is held, with the batch that it
/// belongs to.
pub open spec fn is_held<S>(v: ConnectionsView<S>, receiver: AckReceiver) -> bool {
    exists|place: Place|
        (#[trigger] batch_at(v, place)) is Some && connected(
            batch_at(v, place)->0.response,
            receiver@,
        )
}

/// Whether no batch is held at two places.
pub open spec fn holds_once<S>(v: ConnectionsView<S>) -> bool {
    forall|x: Place, y: Place|
        #![trigger batch_at(v, x), batch_at(v, y)]
        batch_at(v, x) is Some && batch_at(v, x) == batch_at(v, y) ==> x == y
}

/// Whether a batch is held nowhere, for no webview.
pub open spec fn is_new<S>(v: ConnectionsView<S>, pair: MsgPair) -> bool {
    forall|place: Place| #[trigger] batch_at(v, place) != Some(pair)
}

/// Whether each batch that `steps` send is new when it is sent.
pub open spec fn sends_new_batches<S>(v: ConnectionsView<S>, steps: Seq<Step<S>>) -> bool
    decreases steps.len(),
{
    steps.len() > 0 ==> {
        &&& steps.first() matches Step::Send { pair, .. } ==> is_new(v, pair)
        &&& sends_new_batches(steps.first().apply(v), steps.drop_first())
    }
}

/// The place at which a batch that is added for `webview` ends up.
pub(crate) open spec fn place_of_added<S>(v: ConnectionsView<S>, webview: u32) -> Place {
    match v.state_of(webview) {
        StateView::Pending { pending, .. } => Place::Pending {
            webview,
            index: pending.len() as int,
        },
        StateView::Connected { edits_outgoing, .. } => if v.channels.contains_key(edits_outgoing) {
            Place::Channel {
                channel: edits_outgoing,
                index: v.channels[edits_outgoing].backlog().len() as int,
            }
        } else {
            Place::Pending { webview, index: 0 }
        },
    }
}

pub(crate) proof fn lemma_batch_at_after_adding<S>(
    v: ConnectionsView<S>,
    webview: u32,
    pair: MsgPair,
    place: Place,
)
    requires
        v.wf(),
    ensures
        batch_at(v.adding(webview, pair), place) == (if place == place_of_added(v, webview) {
            Some(pair)
        } else {
            batch_at(v, place)
        }),
{
    let w = v.adding(webview, pair);
    match v.state_of(webview) {
        StateView::Pending { pending, .. } => {},
        StateView::Connected { edits_outgoing, .. } => {
            if v.channels.contains_key(edits_outgoing) {
                let c = v.channels[edits_outgoing];
                assert(w.channels[edits_outgoing].backlog() =~= c.backlog().push(pair));
            }
        },
    }
}

/// Adding a batch takes none away.
pub(crate) proof fn lemma_adding_keeps_held<S>(
    v: ConnectionsView<S>,
    webview: u32,
    pair: MsgPair,
    receiver: AckReceiver,
)
    requires
        v.wf(),
        is_held(v, receiver),
    ensures
        is_held(v.adding(webview, pair), receiver),
{
    let place = choose|place: Place|
        (#[trigger] batch_at(v, place)) is Some && connected(
            batch_at(v, place)->0.response,
            receiver@,
        );
    lemma_batch_at_after_adding(v, webview, pair, place);
    assert(batch_at(v.adding(webview, pair), place) == batch_at(v, place));
}

/// A batch that is held for a webview is held at some place.
pub(crate) proof fn lemma_held_batch_has_a_place<S>(
    v: ConnectionsView<S>,
    webview: u32,
    pair: MsgPair,
    receiver: AckReceiver,
)
    requires
        holds(v, webview, pair),
        connected(pair.response, receiver@),
    ensures
        is_held(v, receiver),
{
    if waits_in_state(v, webview, pair) {
        let index = v.states[webview]->pending.index_of(pair);
        assert(batch_at(v, Place::Pending { webview, index }) == Some(pair));
    } else {
        let channel = choose|id: u64| is_in_channel(v, webview, id, pair);
        let index = v.channels[channel].backlog().index_of(pair);
        assert(batch_at(v, Place::Channel { channel, index }) == Some(pair));
    }
}

proof fn lemma_adding_holds_once<S>(v: ConnectionsView<S>, webview: u32, pair: MsgPair)
    requires
        v.wf(),
        holds_once(v),
        is_new(v, pair),
    ensures
        holds_once(v.adding(webview, pair)),
{
    let w = v.adding(webview, pair);
    assert forall|x: Place, y: Place|
        #![trigger batch_at(w, x), batch_at(w, y)]
        batch_at(w, x) is Some && batch_at(w, x) == batch_at(w, y) implies x == y by {
        lemma_batch_at_after_adding(v, webview, pair, x);
        lemma_batch_at_after_adding(v, webview, pair, y);
        assert(batch_at(v, x) != Some(pair) && batch_at(v, y) != Some(pair));
    }
}

proof fn lemma_adding_all_holds_once<S>(v: ConnectionsView<S>, webview: u32, pairs: Seq<MsgPair>)
    requires
        v.wf(),
        holds_once(v),
        pairs.no_duplicates(),
        forall|i: int| 0 <= i < pairs.len() ==> is_new(v, #[trigger] pairs[i]),
    ensures
        holds_once(v.adding_all(webview, pairs)),
    decreases pairs.len(),
{
    if pairs.len() > 0 {
        let pair = pairs.first();
        let rest = pairs.drop_first();
        let w = v.adding(webview, pair);
        assert(is_new(v, pairs[0]));
        lemma_adding_keeps_wf(v, webview, pair);
        lemma_adding_holds_once(v, webview, pair);
        assert forall|i: int| 0 <= i < rest.len() implies is_new(w, #[trigger] rest[i]) by {
            assert(rest[i] == pairs[i + 1]);
            assert(is_new(v, pairs[i + 1]));
            assert forall|place: Place| #[trigger] batch_at(w, place) != Some(rest[i]) by {
                lemma_batch_at_after_adding(v, webview, pair, place);
                assert(batch_at(v, place) != Some(rest[i]));
            }
        }
        lemma_adding_all_holds_once(w, webview, rest);
    }
}

proof fn lemma_connecting_holds_once<S>(
    v: ConnectionsView<S>,
    webview: u32,
    generation: u64,
    socket: S,
)
    requires
        v.wf(),
        v.next_channel < u64::MAX,
        holds_once(v),
    ensures
        holds_once(v.connecting(webview, generation, socket)),
{
    let w = v.connecting(webview, generation, socket);
    let id = v.next_channel;
    let was = |place: Place|
        match place {
            Place::Channel { channel, index } => if channel == id {
                Place::Pending { webview, index }
            } else {
                place
            },
            Place::Pending { .. } => place,
        };
    assert(!v.channels.contains_key(id));
    assert forall|x: Place, y: Place|
        #![trigger batch_at(w, x), batch_at(w, y)]
        batch_at(w, x) is Some && batch_at(w, x) == batch_at(w, y) implies x == y by {
        assert(batch_at(v, was(x)) == batch_at(w, x));
        assert(batch_at(v, was(y)) == batch_at(w, y));
        assert(was(x) == was(y));
    }
}

proof fn lemma_closing_holds_once<S>(v: ConnectionsView<S>, channel: u64)
    requires
        v.wf(),
        holds_once(v),
    ensures
        holds_once(v.closing(channel)),
{
    if v.channels.contains_key(channel) {
        let c = v.channels[channel];
        let u = ConnectionsView { channels: v.channels.remove(channel), ..v };
        let pairs = c.backlog();
        lemma_removing_channel_keeps_wf(v, channel);
        assert forall|x: Place, y: Place|
            #![trigger batch_at(u, x), batch_at(u, y)]
            batch_at(u, x) is Some && batch_at(u, x) == batch_at(u, y) implies x == y by {
            assert(batch_at(v, x) == batch_at(u, x));
            assert(batch_at(v, y) == batch_at(u, y));
        }
        assert forall|i: int, j: int| 0 <= i < pairs.len() && 0 <= j < pairs.len() && i
            != j implies pairs[i] != pairs[j] by {
            let x = Place::Channel { channel, index: i };
            let y = Place::Channel { channel, index: j };
            assert(batch_at(v, x) == Some(pairs[i]));
            assert(batch_at(v, y) == Some(pairs[j]));
        }
        assert forall|i: int| 0 <= i < pairs.len() implies is_new(u, #[trigger] pairs[i]) by {
            let x = Place::Channel { channel, index: i };
            assert(batch_at(v, x) == Some(pairs[i]));
            assert forall|place: Place| #[trigger] batch_at(u, place) != Some(pairs[i]) by {
                if batch_at(u, place) == Some(pairs[i]) {
                    assert(batch_at(v, place) == batch_at(u, place));
                }
            }
        }
        lemma_adding_all_holds_once(u, c.webview_id, pairs);
    }
}

/// Whatever happens, no batch is ever held twice, so that none can be on its way over two
/// connections.
pub proof fn batch_is_held_once<S>(v: ConnectionsView<S>, steps: Seq<Step<S>>)
    requires
        v.wf(),
        holds_once(v),
        can_run(v, steps),
        sends_new_batches(v, steps),
    ensures
        holds_once(run(v, steps)),
    decreases steps.len(),
{
    if steps.len() > 0 {
        let step = steps.first();
        let w = step.apply(v);
        lemma_step_keeps_wf(v, step);
        match step {
            Step::Send { webview, pair } => lemma_adding_holds_once(v, webview, pair),
            Step::Connect { webview, generation, socket } => lemma_connecting_holds_once(
                v,
                webview,
                generation,
                socket,
            ),
            Step::Receive { channel } => {
                assert forall|place: Place| batch_at(w, place) == #[trigger] batch_at(
                    v,
                    place,
                ) by {
                    if w != v {
                        assert(w.channels[channel].backlog() =~= v.channels[channel].backlog());
                    }
                }
                assert forall|x: Place, y: Place|
                    #![trigger batch_at(w, x), batch_at(w, y)]
                    batch_at(w, x) is Some && batch_at(w, x) == batch_at(w, y) implies x == y by {
                    assert(batch_at(v, x) == batch_at(v, y));
                }
            },
            Step::Acknowledge { channel } => {
                let c = v.channels[channel];
                assert(w.channels[channel].backlog() =~= c.backlog().drop_first());
                let was = |place: Place|
                    match place {
                        Place::Channel { channel: id, index } => if id == channel {
                            Place::Channel { channel, index: index + 1 }
                        } else {
                            place
                        },
                        Place::Pending { .. } => place,
                    };
                assert forall|x: Place, y: Place|
                    #![trigger batch_at(w, x), batch_at(w, y)]
                    batch_at(w, x) is Some && batch_at(w, x) == batch_at(w, y) implies x == y by {
                    assert(batch_at(v, was(x)) == batch_at(w, x));
                    assert(batch_at(v, was(y)) == batch_at(w, y));
                    assert(was(x) == was(y));
                }
            },
            Step::Close { channel } => lemma_closing_holds_once(v, channel),
        }
        batch_is_held_once(w, steps.drop_first());
    }
}

} // verus!
