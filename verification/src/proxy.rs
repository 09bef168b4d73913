//! Connections through proxies: what is sent to a SOCKS5 or HTTP proxy, and
//! what its answers mean. Each answer is read up to its end and no further, so
//! that what follows is left for SSH.
use crate::forwarding::{be_port, socks_run, HostModel, SocksHost, SocksModel, SocksTurn};
use crate::ssh::SshError;
use crate::text::{decimal_text, u64_text, utf8};
use vstd::prelude::*;
use vstd::string::StringExecFns;

verus! {

#[derive(Clone, Copy, Debug, PartialEq, Eq, Structural)]
pub enum ProxyProtocol {
    Socks5,
    HttpConnect,
}

/// The proxy was turned down, in these words.
pub open spec fn is_rejected(error: SshError, words: Seq<char>) -> bool {
    error matches SshError::ProxyRejected(text) && text@ == words
}

fn rejected(words: &str) -> (error: SshError)
    ensures
        is_rejected(error, words@),
{
    SshError::ProxyRejected(words.to_owned())
}

/// Whether a connection can be opened to an endpoint at all.
pub fn check_endpoint(host: &str, port: u16) -> (checked: Result<(), SshError>)
    ensures
        checked is Ok <==> host@.len() > 0 && port != 0,
        checked matches Err(error) ==> is_rejected(error, "invalid transport endpoint"@),
{
    if host.is_empty() || port == 0 {
        return Err(rejected("invalid transport endpoint"));
    }
    Ok(())
}

// ---------------------------------------------------------------------------
// SOCKS5.

/// A visible ASCII character.
pub open spec fn is_visible(byte: u8) -> bool {
    0x21 <= byte <= 0x7e
}

/// A target that a SOCKS5 proxy is asked for.
pub open spec fn socks_target(host: Seq<char>, port: u16) -> bool {
    &&& port != 0
    &&& host.len() > 0
    &&& forall|i: int| 0 <= i < utf8(host).len() ==> is_visible(#[trigger] utf8(host)[i])
}

pub fn check_socks_target(host: &str, port: u16) -> (checked: Result<(), SshError>)
    ensures
        checked is Ok <==> socks_target(host@, port),
        checked matches Err(error) ==> is_rejected(error, "invalid SOCKS5 target"@),
{
    if port == 0 || host.is_empty() {
        return Err(rejected("invalid SOCKS5 target"));
    }
    let bytes = host.as_bytes();
    let mut index: usize = 0;
    while index < bytes.len()
        invariant
            index <= bytes@.len(),
            bytes@ == utf8(host@),
            forall|i: int| 0 <= i < index ==> is_visible(#[trigger] bytes@[i]),
        decreases bytes@.len() - index,
    {
        let byte: u8 = bytes[index];
        if byte < 0x21 || byte > 0x7e {
            assert(!is_visible(utf8(host@)[index as int]));
            return Err(rejected("invalid SOCKS5 target"));
        }
        index += 1;
    }
    Ok(())
}

/// A port as two bytes.
pub open spec fn port_bytes(port: u16) -> Seq<u8> {
    seq![(port / 256) as u8, (port % 256) as u8]
}

/// The bytes by which a SOCKS5 proxy is asked for a host.
pub open spec fn socks_host_bytes(host: HostModel) -> Seq<u8> {
    match host {
        HostModel::V4(octets) => seq![1u8] + octets,
        HostModel::V6(octets) => seq![4u8] + octets,
        HostModel::Name(name) => seq![3u8, utf8(name).len() as u8] + utf8(name),
    }
}

/// The bytes by which a SOCKS5 proxy is asked for a connection.
pub open spec fn socks_request(host: HostModel, port: u16) -> Seq<u8> {
    seq![5u8, 1, 0] + socks_host_bytes(host) + port_bytes(port)
}

/// What is sent to a proxy first: the version, and that no authentication is
/// the only method.
pub fn socks5_greeting() -> (bytes: Vec<u8>)
    ensures
        bytes@ == seq![5u8, 1, 0],
{
    let bytes: Vec<u8> = vec![5, 1, 0];
    assert(bytes@ =~= seq![5u8, 1, 0]);
    bytes
}

/// The bytes by which a proxy is asked for a connection. A name has to fit into
/// one byte of length.
pub fn socks5_request(host: &SocksHost, port: u16) -> (request: Result<Vec<u8>, SshError>)
    ensures
        match request {
            Ok(request) => request@ == socks_request(host@, port) && (host matches SocksHost::Name(
                name,
            ) ==> utf8(name@).len() <= 255),
            Err(error) => (host matches SocksHost::Name(name) && utf8(name@).len() > 255)
                && is_rejected(error, "SOCKS5 hostname exceeds 255 bytes"@),
        },
{
    let mut request: Vec<u8> = vec![5, 1, 0];
    assert(request@ =~= seq![5u8, 1, 0]);
    match host {
        SocksHost::V4(octets) => {
            request.push(1);
            let mut index: usize = 0;
            while index < 4
                invariant
                    index <= 4,
                    octets@.len() == 4,
                    request@ == seq![5u8, 1, 0] + seq![1u8] + octets@.take(index as int),
                decreases 4 - index,
            {
                request.push(octets[index]);
                index += 1;
                assert(request@ =~= seq![5u8, 1, 0] + seq![1u8] + octets@.take(index as int));
            }
            assert(octets@.take(4) =~= octets@);
        },
        SocksHost::V6(octets) => {
            request.push(4);
            let mut index: usize = 0;
            while index < 16
                invariant
                    index <= 16,
                    octets@.len() == 16,
                    request@ == seq![5u8, 1, 0] + seq![4u8] + octets@.take(index as int),
                decreases 16 - index,
            {
                request.push(octets[index]);
                index += 1;
                assert(request@ =~= seq![5u8, 1, 0] + seq![4u8] + octets@.take(index as int));
            }
            assert(octets@.take(16) =~= octets@);
        },
        SocksHost::Name(name) => {
            let bytes = name.as_str().as_bytes();
            let length: usize = bytes.len();
            if length > 255 {
                return Err(rejected("SOCKS5 hostname exceeds 255 bytes"));
            }
            request.push(3);
            request.push(length as u8);
            let ghost head = seq![5u8, 1, 0] + seq![3u8, length as u8];
            let mut index: usize = 0;
            assert(request@ =~= head + bytes@.take(0));
            while index < length
                invariant
                    index <= length == bytes@.len(),
                    request@ == head + bytes@.take(index as int),
                decreases length - index,
            {
                request.push(bytes[index]);
                index += 1;
                assert(request@ =~= head + bytes@.take(index as int));
            }
            assert(bytes@.take(length as int) =~= bytes@);
        },
    }
    let ghost asked = request@;
    assert(asked =~= seq![5u8, 1, 0] + socks_host_bytes(host@));
    request.push((port / 256) as u8);
    request.push((port % 256) as u8);
    assert(request@ =~= socks_request(host@, port));
    Ok(request)
}

/// What the answers of a proxy are waited for.
#[derive(Clone, Copy, Debug, PartialEq, Eq, Structural)]
pub enum ProxyState {
    /// The method that it has chosen.
    Method,
    /// The beginning of its answer to the request.
    Header,
    /// The length of the name in it.
    NameLength,
    /// The rest of it.
    Tail { count: usize },
}

#[derive(Clone, Copy, Debug, PartialEq, Eq, Structural)]
pub enum ProxyFault {
    AuthenticationRequired,
    Refused,
    InvalidAddress,
    EmptyAddress,
}

#[derive(Clone, Copy, Debug, PartialEq, Eq, Structural)]
pub enum ProxyStep {
    Next(ProxyState),
    /// The connection stands.
    Connected,
    Reject(ProxyFault),
}

pub open spec fn proxy_words(fault: ProxyFault) -> Seq<char> {
    match fault {
        ProxyFault::AuthenticationRequired => "SOCKS5 proxy requires unsupported authentication"@,
        ProxyFault::Refused => "SOCKS5 CONNECT was refused or malformed"@,
        ProxyFault::InvalidAddress => "invalid SOCKS5 reply address"@,
        ProxyFault::EmptyAddress => "empty SOCKS5 reply address"@,
    }
}

pub fn proxy_error(fault: ProxyFault) -> (error: SshError)
    ensures
        is_rejected(error, proxy_words(fault)),
{
    match fault {
        ProxyFault::AuthenticationRequired => rejected(
            "SOCKS5 proxy requires unsupported authentication",
        ),
        ProxyFault::Refused => rejected("SOCKS5 CONNECT was refused or malformed"),
        ProxyFault::InvalidAddress => rejected("invalid SOCKS5 reply address"),
        ProxyFault::EmptyAddress => rejected("empty SOCKS5 reply address"),
    }
}

/// The bytes that are waited for.
pub open spec fn proxy_needs(state: ProxyState) -> int {
    match state {
        ProxyState::Method => 2,
        ProxyState::Header => 4,
        ProxyState::NameLength => 1,
        ProxyState::Tail { count } => count as int,
    }
}

/// What the bytes that were waited for mean.
pub open spec fn proxy_next(state: ProxyState, bytes: Seq<u8>) -> ProxyStep {
    match state {
        ProxyState::Method => if bytes == seq![5u8, 0] {
            ProxyStep::Next(ProxyState::Header)
        } else {
            ProxyStep::Reject(ProxyFault::AuthenticationRequired)
        },
        ProxyState::Header => if bytes.take(3) != seq![5u8, 0, 0] {
            ProxyStep::Reject(ProxyFault::Refused)
        } else if bytes[3] == 1 {
            ProxyStep::Next(ProxyState::Tail { count: 6 })
        } else if bytes[3] == 4 {
            ProxyStep::Next(ProxyState::Tail { count: 18 })
        } else if bytes[3] == 3 {
            ProxyStep::Next(ProxyState::NameLength)
        } else {
            ProxyStep::Reject(ProxyFault::InvalidAddress)
        },
        ProxyState::NameLength => if bytes[0] == 0 {
            ProxyStep::Reject(ProxyFault::EmptyAddress)
        } else {
            ProxyStep::Next(ProxyState::Tail { count: (bytes[0] + 2) as usize })
        },
        ProxyState::Tail { count: _ } => ProxyStep::Connected,
    }
}

impl ProxyState {
    /// How many bytes are to be read next.
    pub fn needs(&self) -> (count: usize)
        ensures
            count == proxy_needs(*self),
    {
        match self {
            ProxyState::Method => 2,
            ProxyState::Header => 4,
            ProxyState::NameLength => 1,
            ProxyState::Tail { count } => *count,
        }
    }

    /// Takes the bytes that were read.
    pub fn take(self, bytes: &[u8]) -> (step: ProxyStep)
        requires
            bytes@.len() == proxy_needs(self),
        ensures
            step == proxy_next(self, bytes@),
    {
        match self {
            ProxyState::Method => {
                proof {
                    if bytes@[0] == 5 && bytes@[1] == 0 {
                        assert(bytes@ =~= seq![5u8, 0]);
                    }
                }
                if bytes[0] == 5 && bytes[1] == 0 {
                    ProxyStep::Next(ProxyState::Header)
                } else {
                    ProxyStep::Reject(ProxyFault::AuthenticationRequired)
                }
            },
            ProxyState::Header => {
                proof {
                    let start = bytes@.take(3);
                    if bytes@[0] == 5 && bytes@[1] == 0 && bytes@[2] == 0 {
                        assert(start =~= seq![5u8, 0, 0]);
                    } else {
                        assert(start[0] == bytes@[0] && start[1] == bytes@[1] && start[2]
                            == bytes@[2]);
                    }
                }
                if bytes[0] != 5 || bytes[1] != 0 || bytes[2] != 0 {
                    ProxyStep::Reject(ProxyFault::Refused)
                } else if bytes[3] == 1 {
                    ProxyStep::Next(ProxyState::Tail { count: 6 })
                } else if bytes[3] == 4 {
                    ProxyStep::Next(ProxyState::Tail { count: 18 })
                } else if bytes[3] == 3 {
                    ProxyStep::Next(ProxyState::NameLength)
                } else {
                    ProxyStep::Reject(ProxyFault::InvalidAddress)
                }
            },
            ProxyState::NameLength => if bytes[0] == 0 {
                ProxyStep::Reject(ProxyFault::EmptyAddress)
            } else {
                ProxyStep::Next(ProxyState::Tail { count: bytes[0] as usize + 2 })
            },
            ProxyState::Tail { count: _ } => ProxyStep::Connected,
        }
    }
}

/// What a program asks of a SOCKS5 proxy is what a SOCKS5 proxy understands:
/// the same host and port come out at the other end.
pub proof fn law_socks_request_is_understood(host: HostModel, port: u16)
    requires
        port != 0,
        match host {
            HostModel::V4(octets) => octets.len() == 4,
            HostModel::V6(octets) => octets.len() == 16,
            HostModel::Name(name) => 0 < utf8(name).len() <= 255,
        },
    ensures
        socks_run(SocksModel::Request, socks_request(host, port)) == Some(
            SocksTurn::Connect(host, port),
        ),
{
    reveal_with_fuel(socks_run, 5);
    let request = socks_request(host, port);
    let rest = request.skip(4);
    let port_part = port_bytes(port);
    assert(be_port(port_part) == port);
    assert(port_part.take(2) =~= port_part);
    assert(request.take(4)[0] == 5);
    match host {
        HostModel::V4(octets) => {
            assert(rest =~= octets + port_part);
            assert(rest.take(4) =~= octets);
            assert(rest.skip(4) =~= port_part);
        },
        HostModel::V6(octets) => {
            assert(rest =~= octets + port_part);
            assert(rest.take(16) =~= octets);
            assert(rest.skip(16) =~= port_part);
        },
        HostModel::Name(name) => {
            let bytes = utf8(name);
            crate::text::lemma_utf8_valid(name);
            assert(rest =~= seq![bytes.len() as u8] + bytes + port_part);
            let after = rest.skip(1);
            assert(after =~= bytes + port_part);
            assert(after.take(bytes.len() as int) =~= bytes);
            assert(after.skip(bytes.len() as int) =~= port_part);
            assert(rest.take(1)[0] == bytes.len());
        },
    }
}

/// What a SOCKS5 proxy answers that has made the connection and names the
/// address it made it from.
pub open spec fn socks_reply(host: HostModel, port: u16) -> Seq<u8> {
    seq![5u8, 0] + socks_request(host, port).update(1, 0)
}

/// What is made of what a proxy sends, and what it has sent beyond that; none
/// where more bytes are waited for.
pub open spec fn proxy_run(state: ProxyState, bytes: Seq<u8>, turns: nat) -> Option<
    (ProxyStep, Seq<u8>),
>
    decreases turns,
{
    let count = proxy_needs(state);
    if turns == 0 || bytes.len() < count {
        None
    } else {
        match proxy_next(state, bytes.take(count)) {
            ProxyStep::Next(next) => proxy_run(next, bytes.skip(count), (turns - 1) as nat),
            step => Some((step, bytes.skip(count))),
        }
    }
}

/// Of what comes after the answer of a SOCKS5 proxy nothing is taken: it
/// belongs to the connection that the proxy has made. Four reads at most get
/// there.
pub proof fn law_socks_reply_is_taken_exactly(host: HostModel, port: u16, banner: Seq<u8>)
    requires
        match host {
            HostModel::V4(octets) => octets.len() == 4,
            HostModel::V6(octets) => octets.len() == 16,
            HostModel::Name(name) => 0 < utf8(name).len() <= 255,
        },
    ensures
        proxy_run(ProxyState::Method, socks_reply(host, port) + banner, 4) == Some(
            (ProxyStep::Connected, banner),
        ),
{
    reveal_with_fuel(proxy_run, 5);
    let request = socks_request(host, port);
    let all = socks_reply(host, port) + banner;
    assert(all.take(2) =~= seq![5u8, 0]);
    let rest = all.skip(2);
    assert(rest =~= request.update(1, 0) + banner);
    assert(rest.take(4).take(3) =~= seq![5u8, 0, 0]);
    let tail = rest.skip(4);
    let port_part = port_bytes(port);
    match host {
        HostModel::V4(octets) => {
            assert(tail =~= octets + port_part + banner);
            assert(tail.skip(6) =~= banner);
        },
        HostModel::V6(octets) => {
            assert(tail =~= octets + port_part + banner);
            assert(tail.skip(18) =~= banner);
        },
        HostModel::Name(name) => {
            let bytes = utf8(name);
            assert(tail =~= seq![bytes.len() as u8] + bytes + port_part + banner);
            assert(tail.take(1)[0] == bytes.len());
            let after = tail.skip(1);
            assert(after =~= bytes + port_part + banner);
            assert(after.skip((bytes.len() + 2) as int) =~= banner);
        },
    }
}

// ---------------------------------------------------------------------------
// HTTP CONNECT.

/// A byte that a host in a request line can hold.
pub open spec fn is_host_byte(byte: u8) -> bool {
    32 < byte < 127 && byte != 0x2f && byte != 0x3f && byte != 0x23 && byte != 0x40 && byte != 0x5b
        && byte != 0x5d
}

/// A target that an HTTP proxy is asked for.
pub open spec fn http_target(host: Seq<char>, port: u16) -> bool {
    &&& port != 0
    &&& 0 < utf8(host).len() <= 253
    &&& forall|i: int| 0 <= i < utf8(host).len() ==> is_host_byte(#[trigger] utf8(host)[i])
}

/// The target as it is written into a request.
pub open spec fn authority_of(host: Seq<char>, port: u16, is_v6: bool) -> Seq<char> {
    if is_v6 {
        seq!['['] + host + seq![']', ':'] + decimal_text(port as nat)
    } else {
        host + seq![':'] + decimal_text(port as nat)
    }
}

pub open spec fn connect_request(authority: Seq<char>) -> Seq<char> {
    "CONNECT "@ + authority + " HTTP/1.1\r\nHost: "@ + authority + "\r\n\r\n"@
}

/// The text by which an HTTP proxy is asked for a connection. `is_v6` says
/// whether the host is the address of an IPv6 interface; no other host has a
/// colon.
pub fn http_connect_request(host: &str, port: u16, is_v6: bool) -> (request: Result<
    String,
    SshError,
>)
    ensures
        match request {
            Ok(request) => {
                &&& http_target(host@, port)
                &&& is_v6 || !utf8(host@).contains(0x3a)
                &&& request@ == connect_request(authority_of(host@, port, is_v6))
            },
            Err(error) => if !http_target(host@, port) {
                is_rejected(error, "invalid HTTP CONNECT target"@)
            } else {
                &&& !is_v6
                &&& utf8(host@).contains(0x3a)
                &&& is_rejected(error, "invalid HTTP CONNECT hostname"@)
            },
        },
{
    let bytes = host.as_bytes();
    let length: usize = bytes.len();
    if port == 0 || length == 0 || length > 253 {
        return Err(rejected("invalid HTTP CONNECT target"));
    }
    let mut colon = false;
    let mut index: usize = 0;
    while index < length
        invariant
            index <= length == bytes@.len(),
            bytes@ == utf8(host@),
            forall|i: int| 0 <= i < index ==> is_host_byte(#[trigger] bytes@[i]),
            colon == exists|i: int| 0 <= i < index && #[trigger] bytes@[i] == 0x3a,
        decreases length - index,
    {
        let byte: u8 = bytes[index];
        if byte <= 32 || byte >= 127 || byte == 0x2f || byte == 0x3f || byte == 0x23 || byte == 0x40
            || byte == 0x5b || byte == 0x5d {
            assert(!is_host_byte(utf8(host@)[index as int]));
            return Err(rejected("invalid HTTP CONNECT target"));
        }
        if byte == 0x3a {
            assert(bytes@[index as int] == 0x3a);
            colon = true;
        }
        index += 1;
    }
    proof {
        if colon {
            let i = choose|i: int| 0 <= i < index && #[trigger] bytes@[i] == 0x3a;
            assert(utf8(host@)[i] == 0x3a);
        }
    }
    if !is_v6 && colon {
        return Err(rejected("invalid HTTP CONNECT hostname"));
    }
    let mut authority = String::new();
    if is_v6 {
        authority.push('[');
    }
    authority.append(host);
    if is_v6 {
        authority.push(']');
    }
    authority.push(':');
    let number = u64_text(port as u64);
    authority.append(number.as_str());
    assert(authority@ =~= authority_of(host@, port, is_v6));
    let mut request = "CONNECT ".to_owned();
    request.append(authority.as_str());
    request.append(" HTTP/1.1\r\nHost: ");
    request.append(authority.as_str());
    request.append("\r\n\r\n");
    Ok(request)
}

/// What a sequence holds before the first `mark`; all of it where there is
/// none.
pub open spec fn before(bytes: Seq<u8>, mark: u8) -> Seq<u8>
    decreases bytes.len(),
{
    if bytes.len() == 0 || bytes[0] == mark {
        Seq::empty()
    } else {
        seq![bytes[0]] + before(bytes.drop_first(), mark)
    }
}

/// What a sequence holds behind the first `mark`; nothing where there is none.
pub open spec fn behind(bytes: Seq<u8>, mark: u8) -> Seq<u8> {
    if before(bytes, mark).len() < bytes.len() {
        bytes.skip((before(bytes, mark).len() + 1) as int)
    } else {
        Seq::empty()
    }
}

proof fn lemma_before(bytes: Seq<u8>, mark: u8, at: int)
    requires
        0 <= at <= bytes.len(),
        forall|i: int| 0 <= i < at ==> bytes[i] != mark,
        at < bytes.len() ==> bytes[at] == mark,
    ensures
        before(bytes, mark) == bytes.take(at),
    decreases bytes.len(),
{
    if at == 0 {
        assert(bytes.take(0) =~= Seq::empty());
    } else {
        let rest = bytes.drop_first();
        assert forall|i: int| 0 <= i < at - 1 implies rest[i] != mark by {
            assert(bytes[i + 1] != mark);
        }
        lemma_before(rest, mark, at - 1);
        assert(bytes.take(at) =~= seq![bytes[0]] + rest.take(at - 1));
    }
}

/// The end of the header of an answer.
pub open spec fn header_ends(response: Seq<u8>) -> bool {
    response.len() >= 4 && response.skip(response.len() - 4) == seq![13u8, 10, 13, 10]
}

/// The first line of an answer says that the proxy has made the connection.
pub open spec fn says_connected(response: Seq<u8>) -> bool {
    let status = before(response, 10);
    let version = before(status, 32);
    let code = before(behind(status, 32), 32);
    &&& version == seq![0x48u8, 0x54, 0x54, 0x50, 0x2f, 0x31, 0x2e, 0x31] || version == seq![
        0x48u8,
        0x54,
        0x54,
        0x50,
        0x2f,
        0x31,
        0x2e,
        0x30,
    ]
    &&& code.len() == 3
    &&& code[0] == 0x32
    &&& 0x30 <= code[1] <= 0x39
    &&& 0x30 <= code[2] <= 0x39
}

/// An answer that is being read.
#[derive(Debug)]
pub struct HttpResponse {
    bytes: Vec<u8>,
}

pub const MAX_HTTP_RESPONSE_BYTES: usize = 16384;

impl View for HttpResponse {
    type V = Seq<u8>;

    closed spec fn view(&self) -> Seq<u8> {
        self.bytes@
    }
}

fn cut(bytes: &[u8], mark: u8) -> (parts: (&[u8], &[u8]))
    ensures
        parts.0@ == before(bytes@, mark),
        parts.1@ == behind(bytes@, mark),
{
    let length: usize = bytes.len();
    match memchr::memchr(mark, bytes) {
        Some(at) => {
            proof {
                lemma_before(bytes@, mark, at as int);
            }
            let head = vstd::slice::slice_subrange(bytes, 0, at);
            let tail = vstd::slice::slice_subrange(bytes, at + 1, length);
            assert(head@ =~= bytes@.take(at as int));
            assert(tail@ =~= bytes@.skip(at + 1));
            (head, tail)
        },
        None => {
            proof {
                lemma_before(bytes@, mark, length as int);
                assert(bytes@.take(length as int) =~= bytes@);
            }
            let tail = vstd::slice::slice_subrange(bytes, length, length);
            assert(tail@ =~= Seq::empty());
            (bytes, tail)
        },
    }
}

impl HttpResponse {
    pub fn new() -> (response: Self)
        ensures
            response@.len() == 0,
    {
        HttpResponse { bytes: Vec::new() }
    }

    /// Whether another byte is to be read. An answer whose header does not end
    /// in time is turned down.
    pub fn wants_more(&self) -> (more: Result<bool, SshError>)
        ensures
            match more {
                Ok(more) => more == !header_ends(self@) && (more ==> self@.len()
                    < MAX_HTTP_RESPONSE_BYTES),
                Err(error) => !header_ends(self@) && self@.len() >= MAX_HTTP_RESPONSE_BYTES
                    && is_rejected(error, "HTTP CONNECT response headers exceed 16 KiB"@),
            },
    {
        let length: usize = self.bytes.len();
        if length >= 4 {
            let ended = self.bytes[length - 4] == 13 && self.bytes[length - 3] == 10
                && self.bytes[length - 2] == 13 && self.bytes[length - 1] == 10;
            proof {
                let end = self@.skip(length - 4);
                assert(end[0] == self@[length - 4] && end[1] == self@[length - 3] && end[2]
                    == self@[length - 2] && end[3] == self@[length - 1]);
                if ended {
                    assert(end =~= seq![13u8, 10, 13, 10]);
                }
            }
            if ended {
                return Ok(false);
            }
        }
        if length >= MAX_HTTP_RESPONSE_BYTES {
            return Err(rejected("HTTP CONNECT response headers exceed 16 KiB"));
        }
        Ok(true)
    }

    pub fn push(&mut self, byte: u8)
        ensures
            final(self)@ == old(self)@.push(byte),
    {
        self.bytes.push(byte);
    }

    /// Whether the proxy has made the connection.
    pub fn check(&self) -> (checked: Result<(), SshError>)
        ensures
            checked is Ok <==> says_connected(self@),
            checked matches Err(error) ==> is_rejected(
                error,
                "HTTP CONNECT refused or requires unsupported authentication"@,
            ),
    {
        let (status, _) = cut(self.bytes.as_slice(), 10);
        let (version, rest) = cut(status, 32);
        let (code, _) = cut(rest, 32);
        let known = version.len() == 8 && version[0] == 0x48 && version[1] == 0x54 && version[2]
            == 0x54 && version[3] == 0x50 && version[4] == 0x2f && version[5] == 0x31 && version[6]
            == 0x2e && (version[7] == 0x31 || version[7] == 0x30);
        proof {
            let one = seq![0x48u8, 0x54, 0x54, 0x50, 0x2f, 0x31, 0x2e, 0x31];
            let zero = seq![0x48u8, 0x54, 0x54, 0x50, 0x2f, 0x31, 0x2e, 0x30];
            if known {
                assert(version@ =~= one || version@ =~= zero);
            }
        }
        let fits = code.len() == 3 && code[0] == 0x32 && 0x30 <= code[1] && code[1] <= 0x39 && 0x30
            <= code[2] && code[2] <= 0x39;
        if known && fits {
            Ok(())
        } else {
            Err(rejected("HTTP CONNECT refused or requires unsupported authentication"))
        }
    }
}

/// How much of what a proxy sends is read, `read` bytes of it having been read.
pub open spec fn response_length(stream: Seq<u8>, read: nat) -> nat
    decreases stream.len() - read,
{
    if read >= stream.len() || read >= MAX_HTTP_RESPONSE_BYTES || header_ends(
        stream.take(read as int),
    ) {
        read
    } else {
        response_length(stream, read + 1)
    }
}

/// Of what comes after the header of an answer nothing is read: it belongs to
/// the connection that the proxy has made.
pub proof fn law_http_response_is_read_exactly(header: Seq<u8>, banner: Seq<u8>)
    requires
        header.len() <= MAX_HTTP_RESPONSE_BYTES,
        header_ends(header),
        forall|n: int| 0 <= n < header.len() ==> !header_ends(#[trigger] header.take(n)),
    ensures
        response_length(header + banner, 0) == header.len(),
{
    lemma_response_length(header, banner, 0);
}

proof fn lemma_response_length(header: Seq<u8>, banner: Seq<u8>, read: nat)
    requires
        read <= header.len() <= MAX_HTTP_RESPONSE_BYTES,
        header_ends(header),
        forall|n: int| 0 <= n < header.len() ==> !header_ends(#[trigger] header.take(n)),
    ensures
        response_length(header + banner, read) == header.len(),
    decreases header.len() - read,
{
    let stream = header + banner;
    assert(stream.take(read as int) =~= header.take(read as int));
    if read < header.len() {
        lemma_response_length(header, banner, read + 1);
    } else {
        assert(header.take(read as int) =~= header);
    }
}

} // verus!
