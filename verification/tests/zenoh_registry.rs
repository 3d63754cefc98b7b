use std::sync::Mutex;

use sonic::connector_error::ConnectorError;
use sonic::zenoh_registry::{ChannelBinding, ChannelDirection, ChannelRegistry, InboundPublish, OutboundDrain};

/// The key expression a channel routes to.
fn routing(key: &str) -> String {
    key.to_string()
}

struct CountingDrain {
    calls: Mutex<usize>,
}
impl OutboundDrain for CountingDrain {
    fn drain_into(&self, _dest: &mut [u8]) -> Result<Option<usize>, ConnectorError> {
        *self.calls.lock().unwrap() += 1;
        Ok(None)
    }
}

struct RecordingPublish {
    seen: Mutex<Vec<Vec<u8>>>,
}
impl InboundPublish for RecordingPublish {
    fn publish_bytes(&self, bytes: &[u8]) -> Result<(), ConnectorError> {
        self.seen.lock().unwrap().push(bytes.to_vec());
        Ok(())
    }
}

type Registry = ChannelRegistry<String, Box<dyn OutboundDrain>, Box<dyn InboundPublish>>;

#[test]
fn empty_registry_iter_is_empty() {
    let registry = Registry::with_capacity(8);
    assert_eq!(registry.as_slice().iter().count(), 0);
    assert_eq!(registry.len(), 0);
}

#[test]
fn registry_records_outbound_channel() {
    let mut registry = Registry::with_capacity(4);
    let drain = Box::new(CountingDrain { calls: Mutex::new(0) });

    registry
        .register(
            "robot/arm/joint1".to_string(),
            routing("robot/arm/joint1"),
            ChannelDirection::Outbound,
            ChannelBinding::Outbound(drain),
        )
        .expect("registered");

    assert_eq!(registry.len(), 1);
    let entry = registry.as_slice().iter().next().expect("one entry");
    assert_eq!(entry.descriptor_name, "robot/arm/joint1");
    assert_eq!(entry.direction, ChannelDirection::Outbound);
    assert!(matches!(entry.binding, ChannelBinding::Outbound(_)));
}

#[test]
fn registry_records_inbound_channel() {
    let mut registry = Registry::with_capacity(4);
    let publish = Box::new(RecordingPublish { seen: Mutex::new(Vec::new()) });

    registry
        .register(
            "robot/sensor/temp".to_string(),
            routing("robot/sensor/temp"),
            ChannelDirection::Inbound,
            ChannelBinding::Inbound(publish),
        )
        .expect("registered");

    let entry = registry.as_slice().iter().next().expect("one entry");
    assert_eq!(entry.direction, ChannelDirection::Inbound);
    assert!(matches!(entry.binding, ChannelBinding::Inbound(_)));
}

#[test]
fn registry_iter_preserves_insertion_order() {
    let mut registry = Registry::with_capacity(4);
    for n in ["alpha", "beta", "gamma", "delta"] {
        let drain = Box::new(CountingDrain { calls: Mutex::new(0) });
        registry
            .register(
                n.to_string(),
                routing(&format!("robot/{n}")),
                ChannelDirection::Outbound,
                ChannelBinding::Outbound(drain),
            )
            .unwrap();
    }
    let names: Vec<_> = registry.as_slice().iter().map(|e| e.descriptor_name.as_str()).collect();
    assert_eq!(names, ["alpha", "beta", "gamma", "delta"]);
}

#[test]
fn duplicate_name_returns_error() {
    let mut registry = Registry::with_capacity(4);
    let drain1 = Box::new(CountingDrain { calls: Mutex::new(0) });
    let drain2 = Box::new(CountingDrain { calls: Mutex::new(0) });

    registry
        .register(
            "robot/arm".to_string(),
            routing("robot/arm"),
            ChannelDirection::Outbound,
            ChannelBinding::Outbound(drain1),
        )
        .unwrap();
    let err = registry
        .register(
            "robot/arm".to_string(),
            routing("robot/arm"),
            ChannelDirection::Outbound,
            ChannelBinding::Outbound(drain2),
        )
        .expect_err("dup rejected");
    let msg = err.to_string();
    assert!(msg.contains("robot/arm"), "error names the duplicate: {msg}");
}

#[test]
fn separate_outbound_and_inbound_with_same_name_is_allowed() {
    let mut registry = Registry::with_capacity(4);
    registry
        .register(
            "robot/arm".to_string(),
            routing("robot/arm"),
            ChannelDirection::Outbound,
            ChannelBinding::Outbound(Box::new(CountingDrain { calls: Mutex::new(0) })),
        )
        .unwrap();
    registry
        .register(
            "robot/arm".to_string(),
            routing("robot/arm"),
            ChannelDirection::Inbound,
            ChannelBinding::Inbound(Box::new(RecordingPublish { seen: Mutex::new(Vec::new()) })),
        )
        .expect("inbound + outbound on same name OK");
    assert_eq!(registry.len(), 2);
}

#[test]
fn duplicate_message_is_exact_and_registry_unchanged() {
    let mut registry: ChannelRegistry<String, (), ()> = ChannelRegistry::with_capacity(1);
    registry
        .register("a".to_string(), routing("a"), ChannelDirection::Inbound, ChannelBinding::Inbound(()))
        .unwrap();
    let err = registry
        .register("a".to_string(), routing("b"), ChannelDirection::Inbound, ChannelBinding::Inbound(()))
        .expect_err("dup");
    match err {
        ConnectorError::InvalidDescriptor(m) => {
            assert_eq!(m, "channel 'a' already registered with direction Inbound")
        }
        _ => panic!("wrong variant"),
    }
    assert_eq!(registry.len(), 1);
    assert_eq!(registry.as_slice()[0].routing, "a");
    assert!(registry.contains(&"a".to_string(), ChannelDirection::Inbound));
    assert!(!registry.contains(&"a".to_string(), ChannelDirection::Outbound));
    assert!(!registry.is_empty());
}

#[test]
fn drains_and_publishers_are_callable_through_the_registry() {
    let mut registry = Registry::with_capacity(2);
    registry
        .register(
            "x".to_string(),
            routing("x"),
            ChannelDirection::Inbound,
            ChannelBinding::Inbound(Box::new(RecordingPublish { seen: Mutex::new(Vec::new()) })),
        )
        .unwrap();
    if let ChannelBinding::Inbound(p) = &registry.as_slice()[0].binding {
        p.publish_bytes(b"hi").unwrap();
    }
    registry
        .register(
            "y".to_string(),
            routing("y"),
            ChannelDirection::Outbound,
            ChannelBinding::Outbound(Box::new(CountingDrain { calls: Mutex::new(0) })),
        )
        .unwrap();
    if let ChannelBinding::Outbound(d) = &registry.as_slice()[1].binding {
        let mut buf = [0u8; 4];
        assert_eq!(d.drain_into(&mut buf).unwrap(), None);
    }
}
