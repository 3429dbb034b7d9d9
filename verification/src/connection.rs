use vstd::prelude::*;

verus! {

/// Where the game is played: online with a host at an address, among the machines of the local
/// network found by multicast, or on this machine.
#[derive(Debug, Clone, Copy)]
pub enum Scope<A> {
    Online(A),
    Multicast,
    Loopback,
}

/// Whether this peer hosts the game or joins one.
#[derive(Debug, Clone, Copy, PartialEq, Eq, Structural)]
pub enum ConnectionType {
    Join,
    Host,
}

#[derive(Debug, Clone, Copy, PartialEq, Eq, Structural)]
pub enum ConnectionState {
    NotConnected,
    AttemptingConnection,
    Connected,
}

/// How this peer takes part in the game.
#[derive(Debug, Clone, Copy)]
pub struct Connection<A> {
    conn_type: ConnectionType,
    scope: Scope<A>,
    state: ConnectionState,
}

impl<A: Copy> Connection<A> {
    pub closed spec fn spec_type(&self) -> ConnectionType {
        self.conn_type
    }

    pub closed spec fn spec_scope(&self) -> Scope<A> {
        self.scope
    }

    pub closed spec fn spec_state(&self) -> ConnectionState {
        self.state
    }

    /// A connection of the given type and scope, not connected yet.
    pub fn new(conn_type: ConnectionType, scope: Scope<A>) -> (r: Connection<A>)
        ensures
            r.spec_type() == conn_type,
            r.spec_scope() == scope,
            r.spec_state() == ConnectionState::NotConnected,
    {
        Connection { conn_type, scope, state: ConnectionState::NotConnected }
    }

    pub fn get_type(&self) -> (r: ConnectionType)
        ensures
            r == self.spec_type(),
    {
        self.conn_type
    }

    pub fn get_scope(&self) -> (r: Scope<A>)
        ensures
            r == self.spec_scope(),
    {
        self.scope
    }
}

impl<A: Copy> Default for Connection<A> {
    /// Hosting a game on this machine, not connected yet.
    fn default() -> (r: Connection<A>)
        ensures
            r.spec_type() == ConnectionType::Host,
            r.spec_scope() is Loopback,
            r.spec_state() == ConnectionState::NotConnected,
    {
        Connection { conn_type: ConnectionType::Host, scope: Scope::Loopback, state: ConnectionState::NotConnected }
    }
}

/// The port of games on this machine and on the local network.
pub const GAME_PORT: u16 = 12345;

/// The port a host of an online game listens on.
pub const ONLINE_PORT: u16 = 3450;

/// The size of packets between peers on the same machine.
pub const LOOPBACK_PACKET_SIZE: usize = 6000;

/// An IPv4 address, by its four octets.
#[derive(Debug, Clone, Copy, PartialEq, Eq, Structural)]
pub struct Ipv4(pub u8, pub u8, pub u8, pub u8);

/// An IPv4 address and a port.
#[derive(Debug, Clone, Copy, PartialEq, Eq, Structural)]
pub struct Endpoint {
    pub ip: Ipv4,
    pub port: u16,
}

/// Whom the client connects to once the networking starts.
#[derive(Debug, Clone, Copy)]
pub enum ConnectTo<A> {
    /// The online host.
    Host(A),
    /// The server on this machine.
    Local(Endpoint),
    /// Nobody yet: the host is found on the local network first.
    Discover,
}

/// How the networking starts for a connection.
#[derive(Debug, Clone, Copy)]
pub struct NetworkPlan<A> {
    /// The packet size to use instead of the default one.
    pub packet_max_size: Option<usize>,
    /// Where the server listens, for a host.
    pub listen: Option<Endpoint>,
    /// Whether the server joins the multicast group.
    pub join_multicast: bool,
    pub connect: ConnectTo<A>,
}

/// How the networking starts: larger packets on this machine; a host listens on the loopback
/// address (this machine), on every interface at the game port (local network, where it also
/// joins the multicast group) or on every interface at the online port (online); the client
/// connects to this machine's server, to the online host, or first looks for a host on the
/// local network.
pub fn network_plan<A: Copy>(connection: &Connection<A>) -> (r: NetworkPlan<A>)
    ensures
        r.packet_max_size == (if connection.spec_scope() is Loopback {
            Some(LOOPBACK_PACKET_SIZE)
        } else {
            None::<usize>
        }),
        r.join_multicast == (connection.spec_type() == ConnectionType::Host && connection.spec_scope() is Multicast),
        r.listen == (if connection.spec_type() == ConnectionType::Host {
            Some(
                match connection.spec_scope() {
                    Scope::Loopback => Endpoint { ip: Ipv4(127, 0, 0, 1), port: GAME_PORT },
                    Scope::Multicast => Endpoint { ip: Ipv4(0, 0, 0, 0), port: GAME_PORT },
                    Scope::Online(_) => Endpoint { ip: Ipv4(0, 0, 0, 0), port: ONLINE_PORT },
                },
            )
        } else {
            None::<Endpoint>
        }),
        match connection.spec_scope() {
            Scope::Loopback => r.connect == ConnectTo::<A>::Local(Endpoint { ip: Ipv4(127, 0, 0, 1), port: GAME_PORT }),
            Scope::Multicast => r.connect is Discover,
            Scope::Online(host) => r.connect == ConnectTo::<A>::Host(host),
        },
{
    let scope = connection.get_scope();
    let hosting = match connection.get_type() {
        ConnectionType::Host => true,
        ConnectionType::Join => false,
    };
    let packet_max_size = match scope {
        Scope::Loopback => Some(LOOPBACK_PACKET_SIZE),
        _ => None,
    };
    let server = match scope {
        Scope::Loopback => Endpoint { ip: Ipv4(127, 0, 0, 1), port: GAME_PORT },
        Scope::Multicast => Endpoint { ip: Ipv4(0, 0, 0, 0), port: GAME_PORT },
        Scope::Online(_) => Endpoint { ip: Ipv4(0, 0, 0, 0), port: ONLINE_PORT },
    };
    let listen = if hosting { Some(server) } else { None };
    let join_multicast = match scope {
        Scope::Multicast => hosting,
        _ => false,
    };
    let connect = match scope {
        Scope::Loopback => ConnectTo::Local(Endpoint { ip: Ipv4(127, 0, 0, 1), port: GAME_PORT }),
        Scope::Multicast => ConnectTo::Discover,
        Scope::Online(host) => ConnectTo::Host(host),
    };
    NetworkPlan { packet_max_size, listen, join_multicast, connect }
}

} // verus!
