//! The Zenoh gateway's per-channel routing registry: channels keyed by
//! name and direction, walked in registration order by the dispatcher.

use vstd::prelude::*;
use vstd::string::StringExecFns;

use crate::connector_error::ConnectorError;

verus! {

/// Direction of a channel, from the plugin's side.
#[derive(PartialEq, Eq, Structural, Clone, Copy, Debug)]
pub enum ChannelDirection {
    /// Plugin to gateway to session: the gateway drains and publishes.
    Outbound,
    /// Session to gateway to plugin: the gateway republishes what arrives.
    Inbound,
}

/// The name under which a direction is shown in messages.
pub open spec fn direction_name(d: ChannelDirection) -> Seq<char> {
    match d {
        ChannelDirection::Outbound => "Outbound"@,
        ChannelDirection::Inbound => "Inbound"@,
    }
}

fn direction_str(d: ChannelDirection) -> (r: &'static str)
    ensures
        r@ == direction_name(d),
{
    proof {
        reveal_strlit("Outbound");
        reveal_strlit("Inbound");
    }
    match d {
        ChannelDirection::Outbound => "Outbound",
        ChannelDirection::Inbound => "Inbound",
    }
}

/// Gateway-side source of an outbound channel's bytes.
pub trait OutboundDrain: Send {
    /// Copy one pending envelope into `dest`: `Ok(Some(n))` with the number of
    /// bytes copied, `Ok(None)` when nothing is pending.
    fn drain_into(&self, dest: &mut [u8]) -> Result<Option<usize>, ConnectorError>;
}

/// Gateway-side sink of an inbound channel's bytes.
pub trait InboundPublish: Send + Sync {
    /// Republish `bytes` verbatim on the channel's inbound service.
    fn publish_bytes(&self, bytes: &[u8]) -> Result<(), ConnectorError>;
}

/// How a registered channel is wired to the gateway: the drain of an
/// outbound channel or the publisher of an inbound one.
pub enum ChannelBinding<O, I> {
    /// The gateway drains bytes from this source.
    Outbound(O),
    /// The gateway republishes bytes through this sink.
    Inbound(I),
}

/// One entry of the registry.
pub struct RegisteredChannel<R, O, I> {
    /// Name of the channel descriptor, copied at registration.
    pub descriptor_name: String,
    /// The key-expression routing of the channel.
    pub routing: R,
    /// Direction of the channel.
    pub direction: ChannelDirection,
    /// Source or sink of the channel's bytes.
    pub binding: ChannelBinding<O, I>,
}

/// Whether `entries` holds a channel named `name` with direction `direction`.
pub open spec fn has_channel<R, O, I>(
    entries: Seq<RegisteredChannel<R, O, I>>,
    name: Seq<char>,
    direction: ChannelDirection,
) -> bool {
    exists|i: int|
        0 <= i < entries.len() && #[trigger] entries[i].descriptor_name@ == name
            && entries[i].direction == direction
}

/// Once a channel is registered, its (name, direction) pair is taken: a
/// second registration of it is refused.
pub proof fn lemma_registered_pair_taken<R, O, I>(
    entries: Seq<RegisteredChannel<R, O, I>>,
    added: RegisteredChannel<R, O, I>,
)
    ensures
        has_channel(entries.push(added), added.descriptor_name@, added.direction),
{
    let all = entries.push(added);
    assert(all[entries.len() as int] == added);
}

/// No two entries share both name and direction.
pub open spec fn keys_unique<R, O, I>(entries: Seq<RegisteredChannel<R, O, I>>) -> bool {
    forall|i: int, j: int|
        0 <= i < j < entries.len() ==> !(#[trigger] entries[i].descriptor_name@
            == #[trigger] entries[j].descriptor_name@ && entries[i].direction
            == entries[j].direction)
}

/// The message of the error that refuses a second registration of a
/// (name, direction) pair.
pub open spec fn duplicate_message(name: Seq<char>, direction: ChannelDirection) -> Seq<char> {
    "channel '"@ + name + "' already registered with direction "@ + direction_name(direction)
}

/// Channels in registration order, at most one per (name, direction).
pub struct ChannelRegistry<R, O, I> {
    entries: Vec<RegisteredChannel<R, O, I>>,
}

impl<R, O, I> ChannelRegistry<R, O, I> {
    /// The registered channels, in registration order.
    pub closed spec fn entries(&self) -> Seq<RegisteredChannel<R, O, I>> {
        self.entries@
    }

    /// The registry's invariant: no (name, direction) pair occurs twice.
    #[verifier::type_invariant]
    spec fn wf(&self) -> bool {
        keys_unique(self.entries@)
    }

    /// An empty registry with room for `cap` channels.
    pub fn with_capacity(cap: usize) -> (r: Self)
        ensures
            r.entries() == Seq::<RegisteredChannel<R, O, I>>::empty(),
    {
        ChannelRegistry { entries: Vec::with_capacity(cap) }
    }

    /// Whether a channel named `name` with direction `direction` is registered.
    pub fn contains(&self, name: &String, direction: ChannelDirection) -> (r: bool)
        ensures
            r == has_channel(self.entries(), name@, direction),
    {
        let mut i: usize = 0;
        while i < self.entries.len()
            invariant
                i <= self.entries@.len(),
                forall|k: int|
                    0 <= k < i ==> !(#[trigger] self.entries@[k].descriptor_name@ == name@
                        && self.entries@[k].direction == direction),
            decreases self.entries@.len() - i,
        {
            let e = &self.entries[i];
            if e.descriptor_name == *name && e.direction == direction {
                return true;
            }
            i = i + 1;
        }
        false
    }

    /// Append a channel, unless one with the same name and direction is
    /// already registered; then the registry is unchanged and the error
    /// names the channel.
    pub fn register(
        &mut self,
        name: String,
        routing: R,
        direction: ChannelDirection,
        binding: ChannelBinding<O, I>,
    ) -> (r: Result<(), ConnectorError>)
        ensures
            keys_unique(final(self).entries()),
            r is Err <==> has_channel(old(self).entries(), name@, direction),
            r is Err ==> final(self).entries() == old(self).entries(),
            r matches Err(e) ==> (e matches ConnectorError::InvalidDescriptor(m) && m@
                == duplicate_message(name@, direction)),
            r is Ok ==> final(self).entries().len() == old(self).entries().len() + 1,
            r is Ok ==> final(self).entries().drop_last() == old(self).entries(),
            r is Ok ==> final(self).entries().last().descriptor_name@ == name@,
            r is Ok ==> final(self).entries().last().routing == routing,
            r is Ok ==> final(self).entries().last().direction == direction,
            r is Ok ==> final(self).entries().last().binding == binding,
    {
        proof {
            use_type_invariant(&*self);
        }
        if self.contains(&name, direction) {
            let mut m = String::from_str("channel '");
            m.append(name.as_str());
            m.append("' already registered with direction ");
            m.append(direction_str(direction));
            proof {
                reveal_strlit("channel '");
                reveal_strlit("' already registered with direction ");
            }
            return Err(ConnectorError::InvalidDescriptor(m));
        }
        let mut entries: Vec<RegisteredChannel<R, O, I>> = Vec::new();
        std::mem::swap(&mut entries, &mut self.entries);
        entries.push(RegisteredChannel { descriptor_name: name, routing, direction, binding });
        proof {
            assert(entries@.drop_last() =~= old(self).entries@);
            assert forall|i: int, j: int|
                0 <= i < j < entries@.len() implies !(#[trigger] entries@[i].descriptor_name@
                    == #[trigger] entries@[j].descriptor_name@ && entries@[i].direction
                    == entries@[j].direction) by {
                if j == entries@.len() - 1 {
                    assert(entries@[i] == old(self).entries@[i]);
                }
            }
        }
        self.entries = entries;
        Ok(())
    }

    /// Number of registered channels.
    pub fn len(&self) -> (r: usize)
        ensures
            r == self.entries().len(),
    {
        self.entries.len()
    }

    /// Whether no channel is registered.
    pub fn is_empty(&self) -> (r: bool)
        ensures
            r == (self.entries().len() == 0),
    {
        self.entries.len() == 0
    }

    /// The registered channels, in registration order.
    pub fn as_slice(&self) -> (r: &[RegisteredChannel<R, O, I>])
        ensures
            r@ == self.entries(),
            keys_unique(r@),
    {
        proof {
            use_type_invariant(self);
        }
        self.entries.as_slice()
    }
}

} // verus!
