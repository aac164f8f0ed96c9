//! In which order the edits of a webview are delivered.
use crate::connections::{lemma_adding_keeps_wf, lemma_removing_channel_keeps_wf, ConnectionsView};
use crate::delivery::{can_run, lemma_adding_all_connected, lemma_step_keeps_wf, run, Step};
use crate::message::MsgPair;
use vstd::prelude::*;

verus! {

impl<S> Step<S> {
    /// What the step brings in for a webview, in order: a batch that is sent, or what a
    /// worker of the webview had not seen acknowledged when it ended.
    pub open spec fn brings(self, v: ConnectionsView<S>, webview: u32) -> Seq<MsgPair> {
        match self {
            Step::Send { webview: to, pair } => if to == webview {
                seq![pair]
            } else {
                Seq::empty()
            },
            Step::Close { channel } => if v.channels.contains_key(channel)
                && v.channels[channel].webview_id == webview {
                v.channels[channel].backlog()
            } else {
                Seq::empty()
            },
            _ => Seq::empty(),
        }
    }

    /// What the step acknowledges in a channel.
    pub open spec fn delivers(self, v: ConnectionsView<S>, channel: u64) -> Seq<MsgPair> {
        match self {
            Step::Acknowledge { channel: acknowledged } => if acknowledged == channel {
                seq![v.channels[channel].queued_message->0]
            } else {
                Seq::empty()
            },
            _ => Seq::empty(),
        }
    }

    /// Whether the step leaves a webview's connection as it is: no other takes over, and its
    /// worker does not end.
    pub open spec fn leaves_connection(self, webview: u32, channel: u64) -> bool {
        match self {
            Step::Connect { webview: to, .. } => to != webview,
            Step::Close { channel: closed } => closed != channel,
            _ => true,
        }
    }
}

/// What `steps` bring in for a webview, in order.
pub open spec fn run_brings<S>(
    v: ConnectionsView<S>,
    steps: Seq<Step<S>>,
    webview: u32,
) -> Seq<MsgPair>
    decreases steps.len(),
{
    if steps.len() == 0 {
        Seq::empty()
    } else {
        steps.first().brings(v, webview) + run_brings(
            steps.first().apply(v),
            steps.drop_first(),
            webview,
        )
    }
}

/// What `steps` acknowledge in a channel, in order.
pub open spec fn run_delivers<S>(
    v: ConnectionsView<S>,
    steps: Seq<Step<S>>,
    channel: u64,
) -> Seq<MsgPair>
    decreases steps.len(),
{
    if steps.len() == 0 {
        Seq::empty()
    } else {
        steps.first().delivers(v, channel) + run_delivers(
            steps.first().apply(v),
            steps.drop_first(),
            channel,
        )
    }
}

/// Whether a webview is served by channel `channel`.
pub open spec fn serves<S>(v: ConnectionsView<S>, webview: u32, channel: u64) -> bool {
    v.sends_into(webview, channel) && v.channels.contains_key(channel)
}

proof fn lemma_adding_elsewhere<S>(
    v: ConnectionsView<S>,
    other: u32,
    pairs: Seq<MsgPair>,
    webview: u32,
    channel: u64,
)
    requires
        v.wf(),
        serves(v, webview, channel),
        other != webview,
    ensures
        serves(v.adding_all(other, pairs), webview, channel),
        v.adding_all(other, pairs).channels[channel] == v.channels[channel],
    decreases pairs.len(),
{
    if pairs.len() > 0 {
        let w = v.adding(other, pairs.first());
        lemma_adding_keeps_wf(v, other, pairs.first());
        if v.states.contains_key(other) && v.states[other] is Connected {
            assert(v.sends_into(other, v.states[other]->edits_outgoing));
        }
        assert(w.channels[channel] == v.channels[channel]);
        lemma_adding_elsewhere(w, other, pairs.drop_first(), webview, channel);
    }
}

proof fn lemma_step_keeps_order<S>(
    v: ConnectionsView<S>,
    step: Step<S>,
    webview: u32,
    channel: u64,
)
    requires
        v.wf(),
        step.is_enabled(v),
        serves(v, webview, channel),
        step.leaves_connection(webview, channel),
    ensures
        serves(step.apply(v), webview, channel),
        step.delivers(v, channel) + step.apply(v).channels[channel].backlog()
            == v.channels[channel].backlog() + step.brings(v, webview),
{
    let w = step.apply(v);
    let before = v.channels[channel].backlog();
    let left = step.delivers(v, channel) + w.channels[channel].backlog();
    match step {
        Step::Send { webview: to, pair } => {
            if to == webview {
                assert(left =~= before + seq![pair]);
            } else {
                reveal_with_fuel(ConnectionsView::adding_all, 2);
                lemma_adding_elsewhere(v, to, seq![pair], webview, channel);
                assert(left =~= before + step.brings(v, webview));
            }
        },
        Step::Close { channel: closed } => {
            if v.channels.contains_key(closed) {
                let c = v.channels[closed];
                let u = ConnectionsView { channels: v.channels.remove(closed), ..v };
                lemma_removing_channel_keeps_wf(v, closed);
                if c.webview_id == webview {
                    lemma_adding_all_connected(u, webview, c.backlog());
                } else {
                    lemma_adding_elsewhere(u, c.webview_id, c.backlog(), webview, channel);
                }
            }
            assert(left =~= before + step.brings(v, webview));
        },
        _ => {
            assert(left =~= before + step.brings(v, webview));
        },
    }
}

/// While a connection lasts, its batches are acknowledged in the order in which they came
/// in, and none is passed over: what has been acknowledged, followed by what the channel
/// still holds, is what it held at the start, followed by what was brought in since.
pub proof fn batches_are_delivered_in_order<S>(
    v: ConnectionsView<S>,
    steps: Seq<Step<S>>,
    webview: u32,
    channel: u64,
)
    requires
        v.wf(),
        can_run(v, steps),
        serves(v, webview, channel),
        forall|k: int|
            0 <= k < steps.len() ==> (#[trigger] steps[k]).leaves_connection(webview, channel),
    ensures
        serves(run(v, steps), webview, channel),
        run_delivers(v, steps, channel) + run(v, steps).channels[channel].backlog()
            == v.channels[channel].backlog() + run_brings(v, steps, webview),
    decreases steps.len(),
{
    let before = v.channels[channel].backlog();
    if steps.len() == 0 {
        assert(run_delivers(v, steps, channel) + before =~= before + run_brings(v, steps, webview));
    } else {
        let step = steps.first();
        let rest = steps.drop_first();
        let w = step.apply(v);
        assert(steps[0].leaves_connection(webview, channel));
        assert forall|k: int| 0 <= k < rest.len() implies (#[trigger] rest[k]).leaves_connection(
            webview,
            channel,
        ) by {
            assert(rest[k] == steps[k + 1]);
        }
        lemma_step_keeps_wf(v, step);
        lemma_step_keeps_order(v, step, webview, channel);
        batches_are_delivered_in_order(w, rest, webview, channel);
        let delivered = step.delivers(v, channel);
        let later = run_delivers(w, rest, channel);
        let left = run(v, steps).channels[channel].backlog();
        let brought = step.brings(v, webview);
        let more = run_brings(w, rest, webview);
        assert((delivered + later) + left =~= delivered + (later + left));
        assert(delivered + (w.channels[channel].backlog() + more) =~= (delivered
            + w.channels[channel].backlog()) + more);
        assert((before + brought) + more =~= before + (brought + more));
    }
}

} // verus!
