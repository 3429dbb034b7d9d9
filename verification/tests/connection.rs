use wolf_gang::connection::{
    network_plan, ConnectTo, Connection, ConnectionType, Endpoint, Ipv4, Scope, GAME_PORT, LOOPBACK_PACKET_SIZE,
    ONLINE_PORT,
};

#[test]
fn default_connection_hosts_on_this_machine() {
    let c: Connection<u32> = Connection::default();
    assert_eq!(c.get_type(), ConnectionType::Host);
    assert!(matches!(c.get_scope(), Scope::Loopback));
    let c = Connection::new(ConnectionType::Join, Scope::Online(7u32));
    assert_eq!(c.get_type(), ConnectionType::Join);
    assert!(matches!(c.get_scope(), Scope::Online(7)));
}

#[test]
fn hosting_on_this_machine() {
    let plan = network_plan(&Connection::<u32>::new(ConnectionType::Host, Scope::Loopback));
    assert_eq!(plan.packet_max_size, Some(LOOPBACK_PACKET_SIZE));
    assert_eq!(plan.listen, Some(Endpoint { ip: Ipv4(127, 0, 0, 1), port: GAME_PORT }));
    assert!(!plan.join_multicast);
    assert!(matches!(plan.connect, ConnectTo::Local(Endpoint { ip: Ipv4(127, 0, 0, 1), port: 12345 })));
}

#[test]
fn hosting_on_the_local_network() {
    let plan = network_plan(&Connection::<u32>::new(ConnectionType::Host, Scope::Multicast));
    assert_eq!(plan.packet_max_size, None);
    assert_eq!(plan.listen, Some(Endpoint { ip: Ipv4(0, 0, 0, 0), port: GAME_PORT }));
    assert!(plan.join_multicast);
    assert!(matches!(plan.connect, ConnectTo::Discover));
}

#[test]
fn joining_online() {
    let plan = network_plan(&Connection::new(ConnectionType::Join, Scope::Online(42u32)));
    assert_eq!(plan.listen, None);
    assert!(!plan.join_multicast);
    assert!(matches!(plan.connect, ConnectTo::Host(42)));
    let hosting = network_plan(&Connection::new(ConnectionType::Host, Scope::Online(42u32)));
    assert_eq!(hosting.listen, Some(Endpoint { ip: Ipv4(0, 0, 0, 0), port: ONLINE_PORT }));
}
