pub mod filters;

use vstd::prelude::*;
use crate::channel::send_text;
use crate::user::{User, UserId};
use filters::{Filter, FilterMessage};

verus! {

/// The payload delivered to recipients: plain text, pre-framing.
pub type ChannelMessage = String;

/// The outbound conduit from the broker to one connection's egress side.
pub type BackChannel = flume::Sender<ChannelMessage>;

/// One registry entry: a user identity and its outbound delivery channel.
pub struct Connection {
    pub id: UserId,
    pub channel: BackChannel,
}

/// A record of one delivery handed to a recipient's channel.
pub struct Delivery {
    pub recipient: Seq<char>,
    pub channel: BackChannel,
    pub payload: Seq<char>,
}

/// An event consumed by the broker's control loop.
pub enum BrokerEvent {
    Sending { id: UserId, text: String },
    Connect(User, BackChannel),
    Disconnect(User),
    Stop,
}

/// The identities of the entries are pairwise distinct.
pub open spec fn unique_ids(conns: Seq<Connection>) -> bool {
    forall|i: int, j: int|
        0 <= i < j < conns.len() ==> conns[i].id@ != conns[j].id@
}

/// The mapping from user identity to delivery channel that a sequence of
/// registry entries represents (a later entry wins).
pub open spec fn registry_of(conns: Seq<Connection>) -> Map<Seq<char>, BackChannel>
    decreases conns.len(),
{
    if conns.len() == 0 {
        Map::empty()
    } else {
        registry_of(conns.drop_last()).insert(conns.last().id@, conns.last().channel)
    }
}

/// The registry's domain holds exactly the identities of the entries.
pub proof fn lemma_registry_dom(conns: Seq<Connection>)
    ensures
        forall|id: Seq<char>|
            #[trigger] registry_of(conns).dom().contains(id)
                <==> exists|i: int| 0 <= i < conns.len() && conns[i].id@ == id,
    decreases conns.len(),
{
    if conns.len() > 0 {
        lemma_registry_dom(conns.drop_last());
        assert forall|id: Seq<char>| #[trigger] registry_of(conns).dom().contains(id)
            implies exists|i: int| 0 <= i < conns.len() && conns[i].id@ == id by {
            if id == conns.last().id@ {
                assert(conns[conns.len() - 1].id@ == id);
            } else {
                assert(registry_of(conns.drop_last()).dom().contains(id));
                let i = choose|i: int|
                    0 <= i < conns.drop_last().len() && conns.drop_last()[i].id@ == id;
                assert(conns.drop_last()[i] == conns[i]);
                assert(conns[i].id@ == id);
            }
        }
        assert forall|id: Seq<char>|
            exists|i: int| 0 <= i < conns.len() && conns[i].id@ == id
            implies #[trigger] registry_of(conns).dom().contains(id) by {
            let i = choose|i: int| 0 <= i < conns.len() && conns[i].id@ == id;
            if i == conns.len() - 1 {
                assert(registry_of(conns).dom().contains(conns.last().id@));
            } else {
                assert(conns.drop_last()[i].id@ == id);
                assert(registry_of(conns.drop_last()).dom().contains(id));
                assert(registry_of(conns).dom().contains(id));
            }
        }
    }
}

/// Removing the entry at `i` removes exactly that entry's identity from the
/// registry, provided identities are pairwise distinct.
pub proof fn lemma_registry_remove(conns: Seq<Connection>, i: int)
    requires
        unique_ids(conns),
        0 <= i < conns.len(),
    ensures
        registry_of(conns.remove(i)) == registry_of(conns).remove(conns[i].id@),
    decreases conns.len(),
{
    let id = conns[i].id@;
    if i == conns.len() - 1 {
        assert(conns.remove(i) =~= conns.drop_last());
        lemma_registry_dom(conns.drop_last());
        assert(!registry_of(conns.drop_last()).dom().contains(id)) by {
            if registry_of(conns.drop_last()).dom().contains(id) {
                let j = choose|j: int|
                    0 <= j < conns.drop_last().len() && conns.drop_last()[j].id@ == id;
                assert(conns[j].id@ == conns[i].id@);
            }
        }
        assert(registry_of(conns).remove(id) =~= registry_of(conns.drop_last()));
    } else {
        assert(unique_ids(conns.drop_last()));
        assert(conns.remove(i).drop_last() =~= conns.drop_last().remove(i));
        assert(conns.remove(i).last() == conns.last());
        lemma_registry_remove(conns.drop_last(), i);
        assert(conns[i].id@ != conns.last().id@);
        assert(registry_of(conns.remove(i)) =~= registry_of(conns).remove(id));
    }
}

/// Removing an identity that no entry carries leaves the registry unchanged.
pub proof fn lemma_registry_absent(conns: Seq<Connection>, id: Seq<char>)
    requires
        forall|i: int| 0 <= i < conns.len() ==> conns[i].id@ != id,
    ensures
        registry_of(conns).remove(id) == registry_of(conns),
{
    lemma_registry_dom(conns);
    assert(!registry_of(conns).dom().contains(id));
    assert(registry_of(conns).remove(id) =~= registry_of(conns));
}

/// Appending an entry inserts its identity into the registry.
pub proof fn lemma_registry_push(conns: Seq<Connection>, c: Connection)
    ensures
        registry_of(conns.push(c)) == registry_of(conns).insert(c.id@, c.channel),
{
    assert(conns.push(c).drop_last() =~= conns);
    assert(conns.push(c).last() == c);
}

/// The deliveries that fanning `payload` out over `conns` produces: one per
/// entry whose identity differs from `sender`, in registry order.
pub open spec fn fan_out_batch(
    conns: Seq<Connection>,
    sender: Seq<char>,
    payload: Seq<char>,
) -> Seq<Delivery>
    decreases conns.len(),
{
    if conns.len() == 0 {
        Seq::empty()
    } else {
        fan_out_batch(conns.drop_last(), sender, payload) + (if conns.last().id@ != sender {
            seq![Delivery { recipient: conns.last().id@, channel: conns.last().channel, payload }]
        } else {
            Seq::empty()
        })
    }
}

/// Some filter in the chain blocks `text`. Filters are side-effect-free, so
/// first-blocker short-circuiting yields this same verdict.
pub open spec fn chain_blocks<F: Filter>(filters: Seq<F>, text: Seq<char>) -> bool {
    exists|i: int| 0 <= i < filters.len() && filters[i].spec_filter(text) == FilterMessage::Yes
}

/// The single-writer owner of the connection registry and the filter chain:
/// consumes one serialized stream of events and produces outbound
/// deliveries.
pub struct Broker<F: Filter> {
    /// The connection registry: at most one entry per user identity.
    pub connections: Vec<Connection>,
    /// The filter chain, in registration order; fixed before the loop runs.
    pub filters: Vec<F>,
    /// Every delivery handed to a recipient's channel so far, in order.
    pub deliveries: Ghost<Seq<Delivery>>,
}

impl<F: Filter> Broker<F> {
    /// Registry well-formedness: at most one entry per user identity.
    pub open spec fn wf(&self) -> bool {
        unique_ids(self.connections@)
    }

    /// The registry as a mapping from user identity to delivery channel.
    pub open spec fn registry(&self) -> Map<Seq<char>, BackChannel> {
        registry_of(self.connections@)
    }

    pub fn new() -> (broker: Broker<F>)
        ensures
            broker.wf(),
            broker.registry() == Map::<Seq<char>, BackChannel>::empty(),
            broker.connections@.len() == 0,
            broker.filters@.len() == 0,
            broker.deliveries@ == Seq::<Delivery>::empty(),
    {
        Broker { connections: Vec::new(), filters: Vec::new(), deliveries: Ghost(Seq::empty()) }
    }

    /// Appends a filter to the chain. Filters are installed before the
    /// control loop starts and stay fixed while it runs.
    pub fn add_filter(&mut self, filter: F)
        ensures
            final(self).filters@ == old(self).filters@.push(filter),
            final(self).connections@ == old(self).connections@,
            final(self).deliveries@ == old(self).deliveries@,
    {
        self.filters.push(filter);
    }

    /// Removes the registry entry for `id` if present; a no-op if absent.
    pub fn unregister(&mut self, id: &UserId)
        requires
            old(self).wf(),
        ensures
            final(self).wf(),
            final(self).registry() == old(self).registry().remove(id@),
            final(self).filters@ == old(self).filters@,
            final(self).deliveries@ == old(self).deliveries@,
            forall|j: int|
                0 <= j < final(self).connections@.len()
                    ==> final(self).connections@[j].id@ != id@,
    {
        let mut i: usize = 0;
        while i < self.connections.len()
            invariant
                old(self).wf(),
                self.connections@ == old(self).connections@,
                self.filters@ == old(self).filters@,
                self.deliveries@ == old(self).deliveries@,
                i <= self.connections@.len(),
                forall|j: int| 0 <= j < i ==> self.connections@[j].id@ != id@,
            decreases self.connections@.len() - i,
        {
            if self.connections[i].id == *id {
                proof {
                    lemma_registry_remove(self.connections@, i as int);
                }
                self.connections.remove(i);
                proof {
                    assert forall|j: int| 0 <= j < self.connections@.len()
                        implies self.connections@[j].id@ != id@ by {
                        if j < i {
                            assert(self.connections@[j] == old(self).connections@[j]);
                        } else {
                            assert(self.connections@[j] == old(self).connections@[j + 1]);
                        }
                    }
                    assert(unique_ids(self.connections@)) by {
                        assert forall|a: int, b: int|
                            0 <= a < b < self.connections@.len()
                            implies self.connections@[a].id@ != self.connections@[b].id@ by {
                            let oa = if a < i { a } else { a + 1 };
                            let ob = if b < i { b } else { b + 1 };
                            assert(self.connections@[a] == old(self).connections@[oa]);
                            assert(self.connections@[b] == old(self).connections@[ob]);
                        }
                    }
                }
                return;
            }
            i += 1;
        }
        proof {
            lemma_registry_absent(self.connections@, id@);
        }
    }

    /// Inserts or replaces the registry entry for `user`'s identity: the
    /// last writer wins, and any previous channel for that identity becomes
    /// unreferenced by the registry.
    pub fn register(&mut self, user: User, channel: BackChannel)
        requires
            old(self).wf(),
        ensures
            final(self).wf(),
            final(self).registry() == old(self).registry().insert(user.id@, channel),
            final(self).filters@ == old(self).filters@,
            final(self).deliveries@ == old(self).deliveries@,
    {
        let ghost uid = user.id@;
        let ghost ch = channel;
        self.unregister(&user.id);
        let ghost mid = self.connections@;
        self.connections.push(Connection { id: user.id, channel });
        proof {
            assert(self.connections@ == mid.push(self.connections@.last()));
            assert(self.connections@.last().id@ == uid);
            assert(self.connections@.last().channel == ch);
            lemma_registry_push(mid, self.connections@.last());
            assert(old(self).registry().remove(uid).insert(uid, ch) =~= old(
                self,
            ).registry().insert(uid, ch));
            assert(unique_ids(self.connections@)) by {
                assert forall|a: int, b: int|
                    0 <= a < b < self.connections@.len()
                    implies self.connections@[a].id@ != self.connections@[b].id@ by {
                    if b == self.connections@.len() - 1 {
                        assert(self.connections@[a] == mid[a]);
                        assert(mid[a].id@ != uid);
                    } else {
                        assert(self.connections@[a] == mid[a]);
                        assert(self.connections@[b] == mid[b]);
                    }
                }
            }
        }
    }

    /// Whether the filter chain blocks `text`: filters run in registration
    /// order, and the first one to answer `Yes` short-circuits evaluation.
    fn is_blocked(&self, text: &str) -> (blocked: bool)
        ensures
            blocked == chain_blocks(self.filters@, text@),
    {
        let mut i: usize = 0;
        while i < self.filters.len()
            invariant
                i <= self.filters@.len(),
                forall|j: int| 0 <= j < i ==> self.filters@[j].spec_filter(text@) != FilterMessage::Yes,
            decreases self.filters@.len() - i,
        {
            match self.filters[i].filter(text) {
                FilterMessage::Yes => {
                    assert(self.filters@[i as int].spec_filter(text@) == FilterMessage::Yes);
                    return true;
                },
                FilterMessage::No => {},
            }
            i += 1;
        }
        false
    }

    /// Delivers `payload` to every registered entry whose identity is not
    /// `sender`'s, exactly once each, fire-and-forget: a recipient whose
    /// consumer is gone is skipped over without aborting the remaining
    /// deliveries.
    pub fn broadcast_except(&mut self, sender: &UserId, payload: &str)
        requires
            old(self).wf(),
        ensures
            final(self).wf(),
            final(self).connections@ == old(self).connections@,
            final(self).filters@ == old(self).filters@,
            final(self).deliveries@ == old(self).deliveries@ + fan_out_batch(
                old(self).connections@,
                sender@,
                payload@,
            ),
    {
        let mut i: usize = 0;
        while i < self.connections.len()
            invariant
                old(self).wf(),
                self.connections@ == old(self).connections@,
                self.filters@ == old(self).filters@,
                i <= self.connections@.len(),
                self.deliveries@ == old(self).deliveries@ + fan_out_batch(
                    self.connections@.subrange(0, i as int),
                    sender@,
                    payload@,
                ),
            decreases self.connections@.len() - i,
        {
            proof {
                lemma_batch_step(self.connections@, i as int, sender@, payload@);
            }
            let ghost pre_log = self.deliveries@;
            let conn = &self.connections[i];
            if !(conn.id == *sender) {
                let _delivered = send_text(&conn.channel, payload);
                self.deliveries = Ghost(
                    self.deliveries@ + seq![
                        Delivery { recipient: conn.id@, channel: conn.channel, payload: payload@ },
                    ],
                );
            }
            i += 1;
            proof {
                assert(self.deliveries@ =~= old(self).deliveries@ + fan_out_batch(
                    self.connections@.subrange(0, i as int),
                    sender@,
                    payload@,
                ));
            }
        }
        proof {
            assert(self.connections@.subrange(0, self.connections@.len() as int) =~= self
                .connections@);
        }
    }

    /// What one dispatched event does to the broker's state: `Connect`
    /// registers (last writer wins), `Disconnect` unregisters, and `Sending`
    /// appends one delivery per other registered user unless some filter
    /// blocks the text, in which case it is dropped silently. `Stop` never
    /// reaches the dispatch path.
    pub open spec fn event_applied(pre: Broker<F>, post: Broker<F>, event: BrokerEvent) -> bool {
        match event {
            BrokerEvent::Connect(user, channel) => {
                &&& post.registry() == pre.registry().insert(user.id@, channel)
                &&& post.deliveries@ == pre.deliveries@
            },
            BrokerEvent::Disconnect(user) => {
                &&& post.registry() == pre.registry().remove(user.id@)
                &&& post.deliveries@ == pre.deliveries@
            },
            BrokerEvent::Sending { id, text } => {
                &&& post.connections@ == pre.connections@
                &&& post.registry() == pre.registry()
                &&& post.deliveries@ == (if chain_blocks(pre.filters@, text@) {
                    pre.deliveries@
                } else {
                    pre.deliveries@ + fan_out_batch(pre.connections@, id@, text@)
                })
            },
            BrokerEvent::Stop => false,
        }
    }

    /// Applies one event to the broker's state, as `event_applied` says.
    /// `Stop` is excluded: the control loop exits on it before dispatching.
    pub fn handle_message(&mut self, message: BrokerEvent)
        requires
            old(self).wf(),
            !(message matches BrokerEvent::Stop),
        ensures
            final(self).wf(),
            final(self).filters@ == old(self).filters@,
            Self::event_applied(*old(self), *final(self), message),
    {
        match message {
            BrokerEvent::Sending { id, text } => {
                if !self.is_blocked(text.as_str()) {
                    self.broadcast_except(&id, text.as_str());
                }
            },
            BrokerEvent::Connect(user, channel) => {
                self.register(user, channel);
            },
            BrokerEvent::Disconnect(user) => {
                self.unregister(&user.id);
            },
            BrokerEvent::Stop => {},
        }
    }

    /// The control loop's decision on one dequeued event: a `Stop` ends the
    /// loop at once, leaving the broker untouched — it never reaches the
    /// registry or filter logic; any other event is dispatched. Returns
    /// whether the loop keeps running.
    pub fn step(&mut self, event: BrokerEvent) -> (keep_running: bool)
        requires
            old(self).wf(),
        ensures
            final(self).wf(),
            final(self).filters@ == old(self).filters@,
            keep_running == !(event matches BrokerEvent::Stop),
            event matches BrokerEvent::Stop ==> *final(self) == *old(self),
            !(event matches BrokerEvent::Stop) ==> Self::event_applied(
                *old(self),
                *final(self),
                event,
            ),
    {
        match event {
            BrokerEvent::Stop => false,
            _ => {
                self.handle_message(event);
                true
            },
        }
    }
}

/// Extending the fanned-over prefix by one entry appends that entry's
/// delivery, or nothing when the entry is the sender's.
pub proof fn lemma_batch_step(conns: Seq<Connection>, i: int, sender: Seq<char>, payload: Seq<char>)
    requires
        0 <= i < conns.len(),
    ensures
        fan_out_batch(conns.subrange(0, i + 1), sender, payload) == fan_out_batch(
            conns.subrange(0, i),
            sender,
            payload,
        ) + (if conns[i].id@ != sender {
            seq![Delivery { recipient: conns[i].id@, channel: conns[i].channel, payload }]
        } else {
            Seq::<Delivery>::empty()
        }),
{
    let s = conns.subrange(0, i + 1);
    assert(s.drop_last() =~= conns.subrange(0, i));
    assert(s.last() == conns[i]);
}

/// Fan-out excludes the sender and reaches everyone else exactly once:
/// every delivery of a batch carries the broadcast payload to a registered
/// identity other than the sender, on the channel the registry maps that
/// identity to; every registered identity other than the sender receives
/// one such delivery; and no identity receives two.
pub proof fn lemma_fan_out_exact(conns: Seq<Connection>, sender: Seq<char>, payload: Seq<char>)
    requires
        unique_ids(conns),
    ensures
        forall|k: int|
            0 <= k < fan_out_batch(conns, sender, payload).len() ==> {
                let d = #[trigger] fan_out_batch(conns, sender, payload)[k];
                &&& d.recipient != sender
                &&& registry_of(conns).dom().contains(d.recipient)
                &&& d.channel == registry_of(conns)[d.recipient]
                &&& d.payload == payload
            },
        forall|id: Seq<char>|
            #[trigger] registry_of(conns).dom().contains(id) && id != sender ==> exists|k: int|
                0 <= k < fan_out_batch(conns, sender, payload).len() && #[trigger] fan_out_batch(
                    conns,
                    sender,
                    payload,
                )[k].recipient == id,
        forall|k1: int, k2: int|
            0 <= k1 < k2 < fan_out_batch(conns, sender, payload).len()
                ==> #[trigger] fan_out_batch(conns, sender, payload)[k1].recipient
                != #[trigger] fan_out_batch(conns, sender, payload)[k2].recipient,
    decreases conns.len(),
{
    if conns.len() == 0 {
    } else {
        let pre = conns.drop_last();
        let last = conns.last();
        let batch = fan_out_batch(conns, sender, payload);
        let pre_batch = fan_out_batch(pre, sender, payload);
        assert(unique_ids(pre));
        lemma_fan_out_exact(pre, sender, payload);
        lemma_registry_dom(pre);
        lemma_registry_dom(conns);
        assert(forall|j: int| 0 <= j < pre.len() ==> #[trigger] pre[j].id@ != last.id@);
        assert forall|id: Seq<char>|
            #[trigger] registry_of(pre).dom().contains(id) implies id != last.id@ by {
            let j = choose|j: int| 0 <= j < pre.len() && pre[j].id@ == id;
            assert(pre[j].id@ != last.id@);
        }
        assert forall|k: int| 0 <= k < batch.len() implies {
            let d = #[trigger] batch[k];
            &&& d.recipient != sender
            &&& registry_of(conns).dom().contains(d.recipient)
            &&& d.channel == registry_of(conns)[d.recipient]
            &&& d.payload == payload
        } by {
            if k < pre_batch.len() {
                assert(batch[k] == pre_batch[k]);
                assert(pre_batch[k].recipient != last.id@);
            } else {
                assert(last.id@ != sender);
                assert(batch[k] == Delivery {
                    recipient: last.id@,
                    channel: last.channel,
                    payload,
                });
            }
        }
        assert forall|id: Seq<char>|
            #[trigger] registry_of(conns).dom().contains(id) && id != sender implies exists|k: int|
            0 <= k < batch.len() && #[trigger] batch[k].recipient == id by {
            if id == last.id@ {
                let k = pre_batch.len() as int;
                assert(batch[k].recipient == id);
            } else {
                assert(registry_of(pre).dom().contains(id));
                let k = choose|k: int|
                    0 <= k < pre_batch.len() && #[trigger] pre_batch[k].recipient == id;
                assert(batch[k].recipient == id);
            }
        }
        assert forall|k1: int, k2: int| 0 <= k1 < k2 < batch.len() implies #[trigger] batch[k1].recipient
            != #[trigger] batch[k2].recipient by {
            if k2 < pre_batch.len() {
                assert(pre_batch[k1].recipient != pre_batch[k2].recipient);
            } else {
                assert(batch[k2].recipient == last.id@);
                assert(batch[k1] == pre_batch[k1]);
                assert(registry_of(pre).dom().contains(pre_batch[k1].recipient));
            }
        }
    }
}

/// Registry round-trip: a `Connect` for a user followed by a `Disconnect`
/// of the same user leaves no registry entry for that user's identity.
pub proof fn lemma_connect_then_disconnect<F: Filter>(
    before: Broker<F>,
    connected: Broker<F>,
    after: Broker<F>,
    user: User,
    channel: BackChannel,
)
    requires
        connected.registry() == before.registry().insert(user.id@, channel),
        after.registry() == connected.registry().remove(user.id@),
    ensures
        !after.registry().dom().contains(user.id@),
{
}

/// Re-registration is last-writer-wins: a second `Connect` for the same
/// user leaves the registry as if only the second had happened, so the
/// identity maps to the second channel, and any later fan-out that reaches
/// that identity hands the payload to the second channel.
pub proof fn lemma_re_registration<F: Filter>(
    before: Broker<F>,
    mid: Broker<F>,
    after: Broker<F>,
    user: User,
    first: BackChannel,
    second: BackChannel,
)
    requires
        after.wf(),
        mid.registry() == before.registry().insert(user.id@, first),
        after.registry() == mid.registry().insert(user.id@, second),
    ensures
        after.registry() == before.registry().insert(user.id@, second),
        after.registry()[user.id@] == second,
        forall|sender: Seq<char>, payload: Seq<char>, k: int|
            0 <= k < fan_out_batch(after.connections@, sender, payload).len() && #[trigger] fan_out_batch(
                after.connections@,
                sender,
                payload,
            )[k].recipient == user.id@ ==> fan_out_batch(
                after.connections@,
                sender,
                payload,
            )[k].channel == second,
{
    assert(before.registry().insert(user.id@, first).insert(user.id@, second) =~= before.registry()
        .insert(user.id@, second));
    assert forall|sender: Seq<char>, payload: Seq<char>, k: int|
        0 <= k < fan_out_batch(after.connections@, sender, payload).len() && #[trigger] fan_out_batch(
            after.connections@,
            sender,
            payload,
        )[k].recipient == user.id@ implies fan_out_batch(after.connections@, sender, payload)[k].channel
        == second by {
        lemma_fan_out_exact(after.connections@, sender, payload);
    }
}

} // verus!
