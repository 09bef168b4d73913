//! Forwarding of connections: its limits, its targets, and the SOCKS5 side
//! that programs connect to.
use crate::outside::read_utf8;
use crate::ssh::{bad_forward, is_bad_forward, SshError};
use crate::text::utf8;
use vstd::prelude::*;
use vstd::utf8::valid_utf8;

verus! {

/// A length of time.
#[derive(Clone, Copy, Debug, PartialEq, Eq, Structural)]
pub struct Timeout {
    pub seconds: u64,
    pub nanoseconds: u32,
}

impl Timeout {
    pub open spec fn zero(self) -> bool {
        self.seconds == 0 && self.nanoseconds == 0
    }

    pub fn is_zero(self) -> (yes: bool)
        ensures
            yes == self.zero(),
    {
        self.seconds == 0 && self.nanoseconds == 0
    }
}

#[derive(Clone, Copy, Debug, PartialEq, Eq, Structural)]
pub struct ForwardLimits {
    pub max_connections: usize,
    pub pending_remote_channels: usize,
    pub socks_handshake_timeout: Timeout,
}

impl Default for ForwardLimits {
    fn default() -> (limits: Self)
        ensures
            limits == (ForwardLimits {
                max_connections: 128,
                pending_remote_channels: 128,
                socks_handshake_timeout: Timeout { seconds: 10, nanoseconds: 0 },
            }),
    {
        ForwardLimits {
            max_connections: 128,
            pending_remote_channels: 128,
            socks_handshake_timeout: Timeout { seconds: 10, nanoseconds: 0 },
        }
    }
}

impl ForwardLimits {
    /// Something is allowed by every limit.
    pub open spec fn allow_something(self) -> bool {
        self.max_connections > 0 && self.pending_remote_channels > 0
            && !self.socks_handshake_timeout.zero()
    }

    /// Limits that are not zero.
    pub fn validate(self) -> (checked: Result<Self, SshError>)
        ensures
            match checked {
                Ok(limits) => limits == self && self.max_connections > 0
                    && self.pending_remote_channels > 0 && !self.socks_handshake_timeout.zero(),
                Err(error) => if self.max_connections == 0 || self.pending_remote_channels == 0 {
                    is_bad_forward(
                        error,
                        "connection and queue limits must be greater than zero"@,
                    )
                } else {
                    self.socks_handshake_timeout.zero() && is_bad_forward(
                        error,
                        "SOCKS5 handshake timeout must be greater than zero"@,
                    )
                },
            },
            checked is Ok <==> self.allow_something(),
    {
        if self.max_connections == 0 || self.pending_remote_channels == 0 {
            return Err(bad_forward("connection and queue limits must be greater than zero"));
        }
        if self.socks_handshake_timeout.is_zero() {
            return Err(bad_forward("SOCKS5 handshake timeout must be greater than zero"));
        }
        Ok(self)
    }
}

#[derive(Clone, Debug, PartialEq, Eq)]
pub struct RemoteForwardTarget {
    pub host: String,
    pub port: u16,
}

pub fn validate_target(host: &str, port: u16) -> (checked: Result<(), SshError>)
    ensures
        match checked {
            Ok(()) => host@.len() > 0 && port != 0,
            Err(error) => if host@.len() == 0 {
                is_bad_forward(error, "forward target host must not be empty"@)
            } else {
                port == 0 && is_bad_forward(error, "forward target port must not be zero"@)
            },
        },
{
    if host.is_empty() {
        return Err(bad_forward("forward target host must not be empty"));
    }
    if port == 0 {
        return Err(bad_forward("forward target port must not be zero"));
    }
    Ok(())
}

/// The port that a server listens at; none where none was asked for and the
/// server says none that there is.
pub open spec fn port_listened_at(requested: u16, assigned: u32) -> Option<u16> {
    if requested != 0 {
        Some(requested)
    } else if 0 < assigned <= 65535 {
        Some(assigned as u16)
    } else {
        None
    }
}

/// The port that a server listens at: the one asked for, or where none was
/// asked for the one that the server says.
pub fn assigned_port(requested: u16, assigned: u32) -> (port: Result<u16, SshError>)
    ensures
        match port {
            Ok(port) => port != 0 && port == if requested == 0 {
                assigned
            } else {
                requested as u32
            },
            Err(error) => requested == 0 && if assigned > u16::MAX {
                is_bad_forward(error, "server returned an invalid remote port"@)
            } else {
                assigned == 0 && is_bad_forward(error, "server did not allocate a remote port"@)
            },
        },
        match port {
            Ok(port) => port_listened_at(requested, assigned) == Some(port),
            Err(_) => port_listened_at(requested, assigned) is None,
        },
{
    if requested != 0 {
        return Ok(requested);
    }
    if assigned > 65535 {
        return Err(bad_forward("server returned an invalid remote port"));
    }
    if assigned == 0 {
        return Err(bad_forward("server did not allocate a remote port"));
    }
    Ok(assigned as u16)
}

// ---------------------------------------------------------------------------
// SOCKS5.

/// A host in a SOCKS5 message.
#[derive(Clone, Debug, PartialEq, Eq)]
pub enum SocksHost {
    V4([u8; 4]),
    Name(String),
    V6([u8; 16]),
}

/// A host by what it is made of.
pub enum HostModel {
    V4(Seq<u8>),
    Name(Seq<char>),
    V6(Seq<u8>),
}

impl View for SocksHost {
    type V = HostModel;

    open spec fn view(&self) -> HostModel {
        match self {
            SocksHost::V4(octets) => HostModel::V4(octets@),
            SocksHost::Name(name) => HostModel::Name(name@),
            SocksHost::V6(octets) => HostModel::V6(octets@),
        }
    }
}

/// What a handshake waits for.
pub enum SocksState {
    Greeting,
    Methods { count: u8 },
    Request,
    V4,
    NameLength,
    Name { length: u8 },
    V6,
    Port { host: SocksHost },
}

/// Where a handshake stands, by what it is made of.
pub enum SocksModel {
    Greeting,
    Methods { count: u8 },
    Request,
    V4,
    NameLength,
    Name { length: u8 },
    V6,
    Port { host: HostModel },
}

impl View for SocksState {
    type V = SocksModel;

    open spec fn view(&self) -> SocksModel {
        match self {
            SocksState::Greeting => SocksModel::Greeting,
            SocksState::Methods { count } => SocksModel::Methods { count: *count },
            SocksState::Request => SocksModel::Request,
            SocksState::V4 => SocksModel::V4,
            SocksState::NameLength => SocksModel::NameLength,
            SocksState::Name { length } => SocksModel::Name { length: *length },
            SocksState::V6 => SocksModel::V6,
            SocksState::Port { host } => SocksModel::Port { host: host@ },
        }
    }
}

/// Why a handshake fails.
#[derive(Clone, Copy, Debug, PartialEq, Eq, Structural)]
pub enum SocksFault {
    InvalidGreeting,
    NoSupportedMethod,
    NotConnect,
    EmptyName,
    NameNotUtf8,
    UnsupportedAddress,
    ZeroPort,
}

/// The words of a failure.
pub open spec fn socks_words(fault: SocksFault) -> Seq<char> {
    match fault {
        SocksFault::InvalidGreeting => "invalid greeting"@,
        SocksFault::NoSupportedMethod => "no supported authentication method"@,
        SocksFault::NotConnect => "only CONNECT is supported"@,
        SocksFault::EmptyName => "empty domain name"@,
        SocksFault::NameNotUtf8 => "domain name is not UTF-8"@,
        SocksFault::UnsupportedAddress => "unsupported address type"@,
        SocksFault::ZeroPort => "destination port must not be zero"@,
    }
}

pub fn socks_error(fault: SocksFault) -> (error: SshError)
    ensures
        error matches SshError::Socks5(text) && text@ == socks_words(fault),
{
    let words = match fault {
        SocksFault::InvalidGreeting => "invalid greeting",
        SocksFault::NoSupportedMethod => "no supported authentication method",
        SocksFault::NotConnect => "only CONNECT is supported",
        SocksFault::EmptyName => "empty domain name",
        SocksFault::NameNotUtf8 => "domain name is not UTF-8",
        SocksFault::UnsupportedAddress => "unsupported address type",
        SocksFault::ZeroPort => "destination port must not be zero",
    };
    SshError::Socks5(words.to_owned())
}

/// The bytes that a handshake waits for.
pub open spec fn socks_needs(state: SocksModel) -> int {
    match state {
        SocksModel::Greeting => 2,
        SocksModel::Methods { count } => count as int,
        SocksModel::Request => 4,
        SocksModel::V4 => 4,
        SocksModel::NameLength => 1,
        SocksModel::Name { length } => length as int,
        SocksModel::V6 => 16,
        SocksModel::Port { host: _ } => 2,
    }
}

/// What a handshake makes of the bytes that it waited for.
pub enum SocksTurn {
    /// It goes on.
    Next(SocksModel),
    /// The program wants to be connected.
    Connect(HostModel, u16),
    Refuse(SocksFault),
}

/// An answer to a program: its version, the status, and an address that means
/// nothing.
pub open spec fn socks_reply(status: u8) -> Seq<u8> {
    seq![5u8, status, 0, 1, 0, 0, 0, 0, 0, 0]
}

/// What a handshake makes of the bytes that it waited for, and what it
/// answers.
pub open spec fn socks_next(state: SocksModel, bytes: Seq<u8>) -> (SocksTurn, Seq<u8>) {
    match state {
        SocksModel::Greeting => if bytes[0] != 5 || bytes[1] == 0 {
            (SocksTurn::Refuse(SocksFault::InvalidGreeting), Seq::empty())
        } else {
            (SocksTurn::Next(SocksModel::Methods { count: bytes[1] }), Seq::empty())
        },
        SocksModel::Methods { count: _ } => if bytes.contains(0) {
            (SocksTurn::Next(SocksModel::Request), seq![5u8, 0])
        } else {
            (SocksTurn::Refuse(SocksFault::NoSupportedMethod), seq![5u8, 0xff])
        },
        SocksModel::Request => if bytes[0] != 5 || bytes[1] != 1 || bytes[2] != 0 {
            (SocksTurn::Refuse(SocksFault::NotConnect), socks_reply(7))
        } else if bytes[3] == 1 {
            (SocksTurn::Next(SocksModel::V4), Seq::empty())
        } else if bytes[3] == 3 {
            (SocksTurn::Next(SocksModel::NameLength), Seq::empty())
        } else if bytes[3] == 4 {
            (SocksTurn::Next(SocksModel::V6), Seq::empty())
        } else {
            (SocksTurn::Refuse(SocksFault::UnsupportedAddress), socks_reply(8))
        },
        SocksModel::V4 => (
            SocksTurn::Next(SocksModel::Port { host: HostModel::V4(bytes) }),
            Seq::empty(),
        ),
        SocksModel::NameLength => if bytes[0] == 0 {
            (SocksTurn::Refuse(SocksFault::EmptyName), Seq::empty())
        } else {
            (SocksTurn::Next(SocksModel::Name { length: bytes[0] }), Seq::empty())
        },
        SocksModel::Name { length: _ } => if valid_utf8(bytes) {
            (
                SocksTurn::Next(
                    SocksModel::Port { host: HostModel::Name(vstd::utf8::decode_utf8(bytes)) },
                ),
                Seq::empty(),
            )
        } else {
            (SocksTurn::Refuse(SocksFault::NameNotUtf8), Seq::empty())
        },
        SocksModel::V6 => (
            SocksTurn::Next(SocksModel::Port { host: HostModel::V6(bytes) }),
            Seq::empty(),
        ),
        SocksModel::Port { host } => {
            let port = be_port(bytes);
            if port == 0 {
                (SocksTurn::Refuse(SocksFault::ZeroPort), Seq::empty())
            } else {
                (SocksTurn::Connect(host, port), Seq::empty())
            }
        },
    }
}

/// A port from its two bytes.
pub open spec fn be_port(bytes: Seq<u8>) -> u16 {
    (bytes[0] * 256 + bytes[1]) as u16
}

/// What comes next in a handshake.
pub enum SocksStep {
    Next(SocksState),
    Connect(SocksHost, u16),
    Refuse(SocksFault),
}

impl SocksStep {
    pub open spec fn turn(self) -> SocksTurn {
        match self {
            SocksStep::Next(state) => SocksTurn::Next(state@),
            SocksStep::Connect(host, port) => SocksTurn::Connect(host@, port),
            SocksStep::Refuse(fault) => SocksTurn::Refuse(fault),
        }
    }
}

/// The answer with a status.
pub fn socks5_reply(status: u8) -> (reply: Vec<u8>)
    ensures
        reply@ == socks_reply(status),
{
    let reply: Vec<u8> = vec![5, status, 0, 1, 0, 0, 0, 0, 0, 0];
    assert(reply@ =~= socks_reply(status));
    reply
}

fn holds_zero(bytes: &[u8]) -> (yes: bool)
    ensures
        yes == bytes@.contains(0),
{
    let mut index: usize = 0;
    while index < bytes.len()
        invariant
            index <= bytes@.len(),
            forall|i: int| 0 <= i < index ==> bytes@[i] != 0,
        decreases bytes@.len() - index,
    {
        if bytes[index] == 0 {
            assert(bytes@[index as int] == 0);
            return true;
        }
        index += 1;
    }
    false
}

impl SocksState {
    /// How many bytes are to be read next.
    pub fn needs(&self) -> (count: usize)
        ensures
            count == socks_needs(self@),
    {
        match self {
            SocksState::Greeting => 2,
            SocksState::Methods { count } => *count as usize,
            SocksState::Request => 4,
            SocksState::V4 => 4,
            SocksState::NameLength => 1,
            SocksState::Name { length } => *length as usize,
            SocksState::V6 => 16,
            SocksState::Port { host: _ } => 2,
        }
    }

    /// Takes the bytes that were read. Says what comes next and what is to be
    /// sent to the program first.
    pub fn take(self, bytes: &[u8]) -> (step: (SocksStep, Vec<u8>))
        requires
            bytes@.len() == socks_needs(self@),
        ensures
            (step.0.turn(), step.1@) == socks_next(self@, bytes@),
    {
        let mut reply: Vec<u8> = Vec::new();
        let step = match self {
            SocksState::Greeting => if bytes[0] != 5 || bytes[1] == 0 {
                SocksStep::Refuse(SocksFault::InvalidGreeting)
            } else {
                SocksStep::Next(SocksState::Methods { count: bytes[1] })
            },
            SocksState::Methods { count: _ } => {
                reply.push(5);
                if holds_zero(bytes) {
                    reply.push(0);
                    SocksStep::Next(SocksState::Request)
                } else {
                    reply.push(0xff);
                    SocksStep::Refuse(SocksFault::NoSupportedMethod)
                }
            },
            SocksState::Request => {
                if bytes[0] != 5 || bytes[1] != 1 || bytes[2] != 0 {
                    reply = socks5_reply(7);
                    SocksStep::Refuse(SocksFault::NotConnect)
                } else if bytes[3] == 1 {
                    SocksStep::Next(SocksState::V4)
                } else if bytes[3] == 3 {
                    SocksStep::Next(SocksState::NameLength)
                } else if bytes[3] == 4 {
                    SocksStep::Next(SocksState::V6)
                } else {
                    reply = socks5_reply(8);
                    SocksStep::Refuse(SocksFault::UnsupportedAddress)
                }
            },
            SocksState::V4 => {
                let octets: [u8; 4] = [bytes[0], bytes[1], bytes[2], bytes[3]];
                assert(octets@ =~= bytes@);
                SocksStep::Next(SocksState::Port { host: SocksHost::V4(octets) })
            },
            SocksState::NameLength => if bytes[0] == 0 {
                SocksStep::Refuse(SocksFault::EmptyName)
            } else {
                SocksStep::Next(SocksState::Name { length: bytes[0] })
            },
            SocksState::Name { length: _ } => match read_utf8(bytes) {
                Some(name) => {
                    proof {
                        crate::text::lemma_utf8_valid(name@);
                    }
                    SocksStep::Next(SocksState::Port { host: SocksHost::Name(name) })
                },
                None => SocksStep::Refuse(SocksFault::NameNotUtf8),
            },
            SocksState::V6 => {
                let octets: [u8; 16] = [
                    bytes[0],
                    bytes[1],
                    bytes[2],
                    bytes[3],
                    bytes[4],
                    bytes[5],
                    bytes[6],
                    bytes[7],
                    bytes[8],
                    bytes[9],
                    bytes[10],
                    bytes[11],
                    bytes[12],
                    bytes[13],
                    bytes[14],
                    bytes[15],
                ];
                assert(octets@ =~= bytes@);
                SocksStep::Next(SocksState::Port { host: SocksHost::V6(octets) })
            },
            SocksState::Port { host } => {
                let port: u16 = bytes[0] as u16 * 256 + bytes[1] as u16;
                if port == 0 {
                    SocksStep::Refuse(SocksFault::ZeroPort)
                } else {
                    SocksStep::Connect(host, port)
                }
            },
        };
        assert(reply@ =~= socks_next(self@, bytes@).1);
        (step, reply)
    }
}

/// What a handshake makes of the bytes that a program sends, however they come
/// in; none where more bytes are waited for.
pub open spec fn socks_run(state: SocksModel, bytes: Seq<u8>) -> Option<SocksTurn>
    decreases bytes.len(),
{
    let count = socks_needs(state);
    if count == 0 || bytes.len() < count {
        None
    } else {
        match socks_next(state, bytes.take(count)).0 {
            SocksTurn::Next(next) => socks_run(next, bytes.skip(count)),
            turn => Some(turn),
        }
    }
}

} // verus!
