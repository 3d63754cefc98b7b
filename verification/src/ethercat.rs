//! EtherCAT connector helpers: the gateway's per-channel routing registry
//! and the programmable bus driver used in place of real hardware.

use std::collections::VecDeque;

use vstd::prelude::*;
use vstd::string::StringExecFns;

use crate::connector_error::ConnectorError;
use crate::health::{ConnectorHealth, HealthMonitor};

verus! {

/// Direction of a channel's process data, from the plugin's side.
#[derive(PartialEq, Eq, Structural, Clone, Copy, Debug)]
pub enum PdoDirection {
    /// Plugin to gateway to SubDevice outputs (an RxPDO on the bus).
    Rx,
    /// SubDevice inputs to gateway to plugin (a TxPDO on the bus).
    Tx,
}

/// How a registered channel is wired to the gateway's dispatcher.
#[derive(PartialEq, Eq, Structural, Clone, Copy, Debug)]
#[non_exhaustive]
pub enum ChannelBinding {
    /// Not yet wired to any inter-process handle.
    Unbound,
}

/// One entry of the registry.
pub struct RegisteredChannel<R> {
    /// Name of the channel descriptor, copied at registration.
    pub descriptor_name: String,
    /// Where the channel's payload lands in the process data.
    pub routing: R,
    /// Direction of the channel's process data.
    pub direction: PdoDirection,
    /// Source or sink of the channel's bytes.
    pub binding: ChannelBinding,
}

/// Handle returned by `ChannelRegistry::register`: the entry's position.
#[derive(Clone, Copy, Debug, PartialEq, Eq, Structural, Hash)]
pub struct ChannelHandle(pub usize);

/// Channels in registration order; the gateway's cycle loop walks them in
/// that order.
pub struct ChannelRegistry<R> {
    channels: Vec<RegisteredChannel<R>>,
}

impl<R> ChannelRegistry<R> {
    /// The registered channels, in registration order.
    pub closed spec fn entries(&self) -> Seq<RegisteredChannel<R>> {
        self.channels@
    }

    /// An empty registry.
    pub fn new() -> (r: Self)
        ensures
            r.entries() == Seq::<RegisteredChannel<R>>::empty(),
    {
        ChannelRegistry { channels: Vec::new() }
    }

    /// An empty registry with room for `capacity` channels.
    pub fn with_capacity(capacity: usize) -> (r: Self)
        ensures
            r.entries() == Seq::<RegisteredChannel<R>>::empty(),
    {
        ChannelRegistry { channels: Vec::with_capacity(capacity) }
    }

    /// Append a channel; returns the handle that indexes it.
    pub fn register(
        &mut self,
        descriptor_name: &str,
        routing: R,
        direction: PdoDirection,
        binding: ChannelBinding,
    ) -> (h: ChannelHandle)
        ensures
            h.0 == old(self).entries().len(),
            final(self).entries().len() == old(self).entries().len() + 1,
            final(self).entries().drop_last() == old(self).entries(),
            final(self).entries().last().descriptor_name@ == descriptor_name@,
            final(self).entries().last().routing == routing,
            final(self).entries().last().direction == direction,
            final(self).entries().last().binding == binding,
    {
        let handle = ChannelHandle(self.channels.len());
        self.channels.push(
            RegisteredChannel {
                descriptor_name: String::from_str(descriptor_name),
                routing,
                direction,
                binding,
            },
        );
        proof {
            assert(self.channels@.drop_last() =~= old(self).channels@);
        }
        handle
    }

    /// Number of registered channels.
    pub fn len(&self) -> (r: usize)
        ensures
            r == self.entries().len(),
    {
        self.channels.len()
    }

    /// Whether no channel is registered.
    pub fn is_empty(&self) -> (r: bool)
        ensures
            r == (self.entries().len() == 0),
    {
        self.channels.len() == 0
    }

    /// The registered channels, in registration order.
    pub fn as_slice(&self) -> (r: &[RegisteredChannel<R>])
        ensures
            r@ == self.entries(),
    {
        self.channels.as_slice()
    }

    /// The channel a handle refers to, if the handle is in range.
    pub fn get(&self, handle: ChannelHandle) -> (r: Option<&RegisteredChannel<R>>)
        ensures
            handle.0 < self.entries().len() ==> r == Some(&self.entries()[handle.0 as int]),
            handle.0 >= self.entries().len() ==> r is None,
    {
        if handle.0 < self.channels.len() {
            Some(&self.channels[handle.0])
        } else {
            None
        }
    }
}

/// A handle returned by `register` finds the channel it registered, however
/// many channels are registered after it.
pub proof fn lemma_handle_stable<R>(before: Seq<RegisteredChannel<R>>, after: Seq<RegisteredChannel<R>>, h: ChannelHandle)
    requires
        h.0 < before.len(),
        before.len() <= after.len(),
        after.subrange(0, before.len() as int) == before,
    ensures
        after[h.0 as int] == before[h.0 as int],
{
    assert(after.subrange(0, before.len() as int)[h.0 as int] == after[h.0 as int]);
}

/// Result of bringing the bus up.
#[derive(PartialEq, Eq, Structural, Clone, Copy, Debug)]
pub struct BringUp {
    /// Working counter a healthy cycle reports.
    pub expected_wkc: u16,
    /// Number of SubDevices found on the bus.
    pub subdevice_count: u16,
}

/// Programmable bus driver for tests: records calls and replays preloaded
/// results.
pub struct MockBusDriver {
    bring_up_fails: Option<String>,
    bring_up_response: BringUp,
    bring_up_calls: u32,
    wkc_sequence: VecDeque<u16>,
    default_cycle_wkc: u16,
    cycle_calls: u32,
}

/// What a mock driver is programmed with and has recorded.
pub struct MockBusDriverView {
    pub bring_up_fails: Option<Seq<char>>,
    pub bring_up_response: BringUp,
    pub bring_up_calls: u32,
    pub wkc_sequence: Seq<u16>,
    pub default_cycle_wkc: u16,
    pub cycle_calls: u32,
}

impl View for MockBusDriver {
    type V = MockBusDriverView;

    closed spec fn view(&self) -> MockBusDriverView {
        MockBusDriverView {
            bring_up_fails: match self.bring_up_fails {
                Some(s) => Some(s@),
                None => None,
            },
            bring_up_response: self.bring_up_response,
            bring_up_calls: self.bring_up_calls,
            wkc_sequence: self.wkc_sequence@,
            default_cycle_wkc: self.default_cycle_wkc,
            cycle_calls: self.cycle_calls,
        }
    }
}

impl MockBusDriver {
    /// Sensible defaults: bring-up succeeds with an expected working
    /// counter of 3 and one SubDevice; every cycle returns 3.
    pub fn new() -> (r: Self)
        ensures
            r@.bring_up_fails is None,
            r@.bring_up_response == (BringUp { expected_wkc: 3, subdevice_count: 1 }),
            r@.bring_up_calls == 0,
            r@.wkc_sequence == Seq::<u16>::empty(),
            r@.default_cycle_wkc == 3,
            r@.cycle_calls == 0,
    {
        MockBusDriver {
            bring_up_fails: None,
            bring_up_response: BringUp { expected_wkc: 3, subdevice_count: 1 },
            bring_up_calls: 0,
            wkc_sequence: VecDeque::new(),
            default_cycle_wkc: 3,
            cycle_calls: 0,
        }
    }

    /// Configure the bring-up response.
    pub fn with_bring_up(self, response: BringUp) -> (r: Self)
        ensures
            r@ == (MockBusDriverView { bring_up_response: response, ..self@ }),
    {
        MockBusDriver { bring_up_response: response, ..self }
    }

    /// Make the next bring-up fail with `ConnectorError::Down` carrying
    /// `reason`.
    pub fn failing_bring_up(self, reason: &str) -> (r: Self)
        ensures
            r@ == (MockBusDriverView { bring_up_fails: Some(reason@), ..self@ }),
    {
        MockBusDriver { bring_up_fails: Some(String::from_str(reason)), ..self }
    }

    /// Override the working counter returned once the preloaded sequence is
    /// drained.
    pub fn with_default_cycle_wkc(self, wkc: u16) -> (r: Self)
        ensures
            r@ == (MockBusDriverView { default_cycle_wkc: wkc, ..self@ }),
    {
        MockBusDriver { default_cycle_wkc: wkc, ..self }
    }

    /// Preload working counters for successive cycles, first in first out.
    /// Replaces any sequence preloaded before.
    pub fn with_wkc_sequence(self, seq: Vec<u16>) -> (r: Self)
        ensures
            r@ == (MockBusDriverView { wkc_sequence: seq@, ..self@ }),
    {
        let mut q: VecDeque<u16> = VecDeque::new();
        let mut i: usize = 0;
        while i < seq.len()
            invariant
                i <= seq.len(),
                q@ == seq@.take(i as int),
            decreases seq.len() - i,
        {
            q.push_back(seq[i]);
            i = i + 1;
            assert(q@ =~= seq@.take(i as int));
        }
        assert(seq@.take(i as int) =~= seq@);
        MockBusDriver { wkc_sequence: q, ..self }
    }

    /// Number of bring-up calls completed since construction.
    pub fn bring_up_calls(&self) -> (r: u32)
        ensures
            r == self@.bring_up_calls,
    {
        self.bring_up_calls
    }

    /// Number of cycle calls completed since construction.
    pub fn cycle_calls(&self) -> (r: u32)
        ensures
            r == self@.cycle_calls,
    {
        self.cycle_calls
    }

    /// Bring the bus up: fails once, with the programmed reason, after
    /// `failing_bring_up`; otherwise returns the programmed response.
    pub fn bring_up(&mut self) -> (r: Result<BringUp, ConnectorError>)
        requires
            old(self)@.bring_up_calls < u32::MAX,
        ensures
            final(self)@.bring_up_calls == old(self)@.bring_up_calls + 1,
            final(self)@.bring_up_fails is None,
            final(self)@.bring_up_response == old(self)@.bring_up_response,
            final(self)@.wkc_sequence == old(self)@.wkc_sequence,
            final(self)@.default_cycle_wkc == old(self)@.default_cycle_wkc,
            final(self)@.cycle_calls == old(self)@.cycle_calls,
            match old(self)@.bring_up_fails {
                Some(reason) => r matches Err(ConnectorError::Down { reason: got }) && got@ == reason,
                None => r == Ok::<BringUp, ConnectorError>(old(self)@.bring_up_response),
            },
    {
        self.bring_up_calls = self.bring_up_calls + 1;
        match self.bring_up_fails.take() {
            Some(reason) => Err(ConnectorError::Down { reason }),
            None => Ok(self.bring_up_response),
        }
    }

    /// One bus cycle: returns the next preloaded working counter, or the
    /// default once the sequence is drained.
    pub fn cycle(&mut self) -> (r: Result<u16, ConnectorError>)
        requires
            old(self)@.cycle_calls < u32::MAX,
        ensures
            final(self)@.cycle_calls == old(self)@.cycle_calls + 1,
            final(self)@.bring_up_calls == old(self)@.bring_up_calls,
            final(self)@.bring_up_fails == old(self)@.bring_up_fails,
            final(self)@.bring_up_response == old(self)@.bring_up_response,
            final(self)@.default_cycle_wkc == old(self)@.default_cycle_wkc,
            old(self)@.wkc_sequence.len() > 0 ==> r == Ok::<u16, ConnectorError>(old(self)@.wkc_sequence[0])
                && final(self)@.wkc_sequence == old(self)@.wkc_sequence.drop_first(),
            old(self)@.wkc_sequence.len() == 0 ==> r == Ok::<u16, ConnectorError>(old(self)@.default_cycle_wkc)
                && final(self)@.wkc_sequence == old(self)@.wkc_sequence,
    {
        self.cycle_calls = self.cycle_calls + 1;
        let wkc = match self.wkc_sequence.pop_front() {
            Some(w) => w,
            None => self.default_cycle_wkc,
        };
        Ok(wkc)
    }
}

impl Default for MockBusDriver {
    /// Everything zero: bring-up succeeds with a zero response and cycles
    /// return zero.
    fn default() -> (r: Self)
        ensures
            r@.bring_up_fails is None,
            r@.bring_up_response == (BringUp { expected_wkc: 0, subdevice_count: 0 }),
            r@.bring_up_calls == 0,
            r@.wkc_sequence == Seq::<u16>::empty(),
            r@.default_cycle_wkc == 0,
            r@.cycle_calls == 0,
    {
        MockBusDriver {
            bring_up_fails: None,
            bring_up_response: BringUp { expected_wkc: 0, subdevice_count: 0 },
            bring_up_calls: 0,
            wkc_sequence: VecDeque::new(),
            default_cycle_wkc: 0,
            cycle_calls: 0,
        }
    }
}

/// Connector-side state shared by the plugin and the gateway: the health
/// monitor and the configured options.
#[derive(Debug)]
pub struct EthercatState<O> {
    health: HealthMonitor,
    options: O,
}

impl<O> EthercatState<O> {
    /// The shared health monitor.
    pub closed spec fn health_monitor(&self) -> HealthMonitor {
        self.health
    }

    /// The configured options.
    pub closed spec fn configured(&self) -> O {
        self.options
    }

    /// State for `options`, with health starting in `Connecting`.
    pub fn new(options: O) -> (r: Self)
        ensures
            r.configured() == options,
            r.health_monitor().health() == ConnectorHealth::Connecting,
    {
        EthercatState { health: HealthMonitor::new(), options }
    }

    /// The shared health monitor.
    pub fn health(&self) -> (r: &HealthMonitor)
        ensures
            *r == self.health_monitor(),
    {
        &self.health
    }

    /// The configured options.
    pub fn options(&self) -> (r: &O)
        ensures
            *r == self.configured(),
    {
        &self.options
    }
}

} // verus!
