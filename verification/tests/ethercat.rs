use sonic::connector_error::ConnectorError;
use sonic::ethercat::{
    BringUp, ChannelBinding, ChannelHandle, ChannelRegistry, EthercatState, MockBusDriver, PdoDirection,
};
use sonic::health::ConnectorHealthKind;

/// Where a channel's bytes sit in the process image: SubDevice, direction,
/// offset and length.
#[derive(Debug, Clone, Copy, PartialEq)]
struct Routing(u16, PdoDirection, u32, u32);

fn make_registry_with(n: usize) -> ChannelRegistry<Routing> {
    let mut r = ChannelRegistry::with_capacity(n);
    for i in 0..n {
        let name = format!("ch_{i}");
        let routing = Routing(i as u16, PdoDirection::Tx, 0, 16);
        r.register(&name, routing, PdoDirection::Tx, ChannelBinding::Unbound);
    }
    r
}

#[test]
fn iteration_order_matches_insertion_order() {
    let r = make_registry_with(8);
    let names: Vec<&str> = r.as_slice().iter().map(|c| c.descriptor_name.as_str()).collect();
    let expected: Vec<String> = (0..8).map(|i| format!("ch_{i}")).collect();
    assert_eq!(names, expected);
}

#[test]
fn handle_indexes_into_registry() {
    let mut r = ChannelRegistry::with_capacity(4);
    let h0 = r.register("first", Routing(1, PdoDirection::Tx, 0, 8), PdoDirection::Tx, ChannelBinding::Unbound);
    let h1 = r.register("second", Routing(2, PdoDirection::Rx, 8, 8), PdoDirection::Rx, ChannelBinding::Unbound);
    assert_eq!(r.get(h0).unwrap().descriptor_name, "first");
    assert_eq!(r.get(h1).unwrap().descriptor_name, "second");
}

#[test]
fn handle_out_of_range_finds_nothing() {
    let r = make_registry_with(2);
    assert!(r.get(ChannelHandle(2)).is_none());
    assert_eq!(r.get(ChannelHandle(1)).unwrap().routing, Routing(1, PdoDirection::Tx, 0, 16));
    assert_eq!(r.len(), 2);
    assert!(!r.is_empty());
    assert!(ChannelRegistry::<Routing>::new().is_empty());
}

#[test]
fn mock_driver_defaults() {
    let mut d = MockBusDriver::new();
    let b = d.bring_up().unwrap();
    assert_eq!(b, BringUp { expected_wkc: 3, subdevice_count: 1 });
    assert_eq!(d.cycle().unwrap(), 3);
    assert_eq!(d.bring_up_calls(), 1);
    assert_eq!(d.cycle_calls(), 1);
}

#[test]
fn mock_driver_bring_up_fails_once() {
    let mut d = MockBusDriver::new().failing_bring_up("no link");
    match d.bring_up() {
        Err(ConnectorError::Down { reason }) => assert_eq!(reason, "no link"),
        other => panic!("unexpected {:?}", other.is_ok()),
    }
    assert!(d.bring_up().is_ok());
    assert_eq!(d.bring_up_calls(), 2);
}

#[test]
fn mock_driver_wkc_sequence_then_default() {
    let mut d = MockBusDriver::new()
        .with_bring_up(BringUp { expected_wkc: 7, subdevice_count: 2 })
        .with_wkc_sequence(vec![5, 6])
        .with_default_cycle_wkc(9);
    assert_eq!(d.bring_up().unwrap().expected_wkc, 7);
    assert_eq!(d.cycle().unwrap(), 5);
    assert_eq!(d.cycle().unwrap(), 6);
    assert_eq!(d.cycle().unwrap(), 9);
    assert_eq!(d.cycle_calls(), 3);
}

#[test]
fn mock_driver_default_is_all_zero() {
    let mut d = MockBusDriver::default();
    assert_eq!(d.bring_up().unwrap(), BringUp { expected_wkc: 0, subdevice_count: 0 });
    assert_eq!(d.cycle().unwrap(), 0);
}

#[test]
fn state_starts_connecting_and_keeps_options() {
    let s = EthercatState::new(("eth0", 1000u32));
    assert_eq!(s.health().current().kind(), ConnectorHealthKind::Connecting);
    assert_eq!(*s.options(), ("eth0", 1000u32));
}

#[test]
fn connector_error_texts() {
    assert_eq!(ConnectorError::Down { reason: "x".to_string() }.to_string(), "connector down: x");
    assert_eq!(ConnectorError::InvalidDescriptor("y".to_string()).to_string(), "invalid descriptor: y");
    assert_eq!(ConnectorError::Stack("z".to_string()).to_string(), "stack error: z");
}
