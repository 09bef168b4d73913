//! What is said between programs, proxies and this side, byte by byte.
use crate::forwarding::{
    port_listened_at, socks_needs, socks_next, ForwardLimits, HostModel, SocksFault, SocksModel, SocksTurn,
};
use crate::proxy::{
    authority_of, before, behind, http_target, proxy_run, says_connected, socks_target, ProxyFault,
    ProxyState, ProxyStep,
};
use crate::text::utf8;
use vstd::prelude::*;
use vstd::utf8::{decode_utf8, valid_utf8};

verus! {

// ---------------------------------------------------------------------------
// Programs that ask for a connection.

/// What a program that sends `bytes` is answered, and what comes of it; nothing
/// yet where more bytes are waited for.
pub open spec fn conversation(state: SocksModel, bytes: Seq<u8>, turns: nat) -> (
    Seq<u8>,
    Option<SocksTurn>,
)
    decreases turns,
{
    let count = socks_needs(state);
    if turns == 0 || bytes.len() < count {
        (Seq::empty(), None)
    } else {
        let (turn, reply) = socks_next(state, bytes.take(count));
        match turn {
            SocksTurn::Next(next) => {
                let (rest, end) = conversation(next, bytes.skip(count), (turns - 1) as nat);
                (reply + rest, end)
            },
            turn => (reply, Some(turn)),
        }
    }
}

/// The port that two bytes write, the higher one first.
pub open spec fn port_of(high: u8, low: u8) -> int {
    256 * high + low
}

/// A program whose greeting offers no authentication among its methods is
/// answered that none is needed, and what it asks for is read on from there.
pub proof fn law_greeting_is_answered(methods: Seq<u8>, request: Seq<u8>, turns: nat)
    requires
        0 < methods.len() <= 255,
        methods.contains(0),
    ensures
        ({
            let told = conversation(
                SocksModel::Greeting,
                seq![5u8, methods.len() as u8] + methods + request,
                turns + 2,
            );
            let asked = conversation(SocksModel::Request, request, turns);
            told == (seq![5u8, 0u8] + asked.0, asked.1)
        }),
{
    let all = seq![5u8, methods.len() as u8] + methods + request;
    let rest = all.skip(2);
    assert(all.take(2) =~= seq![5u8, methods.len() as u8]);
    assert(rest =~= methods + request);
    assert(rest.take(methods.len() as int) =~= methods);
    assert(rest.skip(methods.len() as int) =~= request);
    reveal_with_fuel(conversation, 3);
    let asked = conversation(SocksModel::Request, request, turns);
    assert(Seq::<u8>::empty() + (seq![5u8, 0u8] + asked.0) =~= seq![5u8, 0u8] + asked.0);
}

/// A program that offers no method without authentication is told so and
/// refused.
pub proof fn law_other_methods_are_refused(methods: Seq<u8>, rest: Seq<u8>, turns: nat)
    requires
        0 < methods.len() <= 255,
        !methods.contains(0),
        turns >= 2,
    ensures
        conversation(
            SocksModel::Greeting,
            seq![5u8, methods.len() as u8] + methods + rest,
            turns,
        ) == (seq![5u8, 0xffu8], Some(SocksTurn::Refuse(SocksFault::NoSupportedMethod))),
{
    let all = seq![5u8, methods.len() as u8] + methods + rest;
    let behind_greeting = all.skip(2);
    assert(all.take(2) =~= seq![5u8, methods.len() as u8]);
    assert(behind_greeting =~= methods + rest);
    assert(behind_greeting.take(methods.len() as int) =~= methods);
    reveal_with_fuel(conversation, 3);
    assert(Seq::<u8>::empty() + seq![5u8, 0xffu8] =~= seq![5u8, 0xffu8]);
}

/// A greeting of another version, or without a method, is refused without an
/// answer.
pub proof fn law_bad_greetings_are_refused(version: u8, count: u8, rest: Seq<u8>, turns: nat)
    requires
        version != 5 || count == 0,
        turns >= 1,
    ensures
        conversation(SocksModel::Greeting, seq![version, count] + rest, turns) == (
            Seq::<u8>::empty(),
            Some(SocksTurn::Refuse(SocksFault::InvalidGreeting)),
        ),
{
    let all = seq![version, count] + rest;
    assert(all.take(2) =~= seq![version, count]);
}

/// A request to connect to an IPv4 address.
pub proof fn law_request_for_an_ipv4_address(
    a: u8,
    b: u8,
    c: u8,
    d: u8,
    high: u8,
    low: u8,
    turns: nat,
)
    requires
        turns >= 3,
    ensures
        conversation(SocksModel::Request, seq![5u8, 1, 0, 1, a, b, c, d, high, low], turns) == (
            Seq::<u8>::empty(),
            Some(
                if port_of(high, low) == 0 {
                    SocksTurn::Refuse(SocksFault::ZeroPort)
                } else {
                    SocksTurn::Connect(
                        HostModel::V4(seq![a, b, c, d]),
                        port_of(high, low) as u16,
                    )
                },
            ),
        ),
{
    let all = seq![5u8, 1, 0, 1, a, b, c, d, high, low];
    assert(all.take(4) =~= seq![5u8, 1, 0, 1]);
    let rest = all.skip(4);
    assert(rest =~= seq![a, b, c, d, high, low]);
    assert(rest.take(4) =~= seq![a, b, c, d]);
    let end = rest.skip(4);
    assert(end =~= seq![high, low]);
    assert(end.take(2) =~= seq![high, low]);
    reveal_with_fuel(conversation, 4);
    assert(Seq::<u8>::empty() + Seq::<u8>::empty() =~= Seq::<u8>::empty());
}

/// A request to connect to an IPv6 address.
pub proof fn law_request_for_an_ipv6_address(octets: Seq<u8>, high: u8, low: u8, turns: nat)
    requires
        octets.len() == 16,
        turns >= 3,
    ensures
        conversation(
            SocksModel::Request,
            seq![5u8, 1, 0, 4] + octets + seq![high, low],
            turns,
        ) == (
            Seq::<u8>::empty(),
            Some(
                if port_of(high, low) == 0 {
                    SocksTurn::Refuse(SocksFault::ZeroPort)
                } else {
                    SocksTurn::Connect(HostModel::V6(octets), port_of(high, low) as u16)
                },
            ),
        ),
{
    let all = seq![5u8, 1, 0, 4] + octets + seq![high, low];
    assert(all.take(4) =~= seq![5u8, 1, 0, 4]);
    let rest = all.skip(4);
    assert(rest =~= octets + seq![high, low]);
    assert(rest.take(16) =~= octets);
    let end = rest.skip(16);
    assert(end =~= seq![high, low]);
    assert(end.take(2) =~= seq![high, low]);
    reveal_with_fuel(conversation, 4);
    assert(Seq::<u8>::empty() + Seq::<u8>::empty() =~= Seq::<u8>::empty());
}

/// A request to connect to a name, whose length stands before it; a name that
/// is empty or no UTF-8 is refused.
pub proof fn law_request_for_a_name(name: Seq<u8>, high: u8, low: u8, turns: nat)
    requires
        name.len() <= 255,
        turns >= 4,
    ensures
        conversation(
            SocksModel::Request,
            seq![5u8, 1, 0, 3, name.len() as u8] + name + seq![high, low],
            turns,
        ) == (
            Seq::<u8>::empty(),
            Some(
                if name.len() == 0 {
                    SocksTurn::Refuse(SocksFault::EmptyName)
                } else if !valid_utf8(name) {
                    SocksTurn::Refuse(SocksFault::NameNotUtf8)
                } else if port_of(high, low) == 0 {
                    SocksTurn::Refuse(SocksFault::ZeroPort)
                } else {
                    SocksTurn::Connect(
                        HostModel::Name(decode_utf8(name)),
                        port_of(high, low) as u16,
                    )
                },
            ),
        ),
{
    let length = name.len() as u8;
    let all = seq![5u8, 1, 0, 3, length] + name + seq![high, low];
    assert(all.take(4) =~= seq![5u8, 1, 0, 3]);
    let counted = all.skip(4);
    assert(counted =~= seq![length] + name + seq![high, low]);
    assert(counted.take(1) =~= seq![length]);
    let rest = counted.skip(1);
    assert(rest =~= name + seq![high, low]);
    assert(rest.take(name.len() as int) =~= name);
    let end = rest.skip(name.len() as int);
    assert(end =~= seq![high, low]);
    assert(end.take(2) =~= seq![high, low]);
    reveal_with_fuel(conversation, 5);
    assert(Seq::<u8>::empty() + Seq::<u8>::empty() =~= Seq::<u8>::empty());
}

/// A request that asks for anything but a connection, and one for an address
/// that is none of the three kinds, is answered with its status and refused.
pub proof fn law_other_requests_are_refused(
    version: u8,
    command: u8,
    reserved: u8,
    kind: u8,
    rest: Seq<u8>,
    turns: nat,
)
    requires
        turns >= 1,
        version != 5 || command != 1 || reserved != 0 || kind != 1 && kind != 3 && kind != 4,
    ensures
        conversation(
            SocksModel::Request,
            seq![version, command, reserved, kind] + rest,
            turns,
        ) == if version == 5 && command == 1 && reserved == 0 {
            (
                seq![5u8, 8, 0, 1, 0, 0, 0, 0, 0, 0],
                Some(SocksTurn::Refuse(SocksFault::UnsupportedAddress)),
            )
        } else {
            (
                seq![5u8, 7, 0, 1, 0, 0, 0, 0, 0, 0],
                Some(SocksTurn::Refuse(SocksFault::NotConnect)),
            )
        },
{
    let all = seq![version, command, reserved, kind] + rest;
    assert(all.take(4) =~= seq![version, command, reserved, kind]);
}

// ---------------------------------------------------------------------------
// Proxies that are asked for a connection.

/// A proxy that chooses any method but none at all is turned down.
pub proof fn law_proxy_must_choose_no_authentication(
    version: u8,
    method: u8,
    rest: Seq<u8>,
    turns: nat,
)
    requires
        version != 5 || method != 0,
        turns >= 1,
    ensures
        proxy_run(ProxyState::Method, seq![version, method] + rest, turns) == Some(
            (ProxyStep::Reject(ProxyFault::AuthenticationRequired), rest),
        ),
{
    let all = seq![version, method] + rest;
    assert(all.take(2) =~= seq![version, method]);
    assert(all.skip(2) =~= rest);
    if all.take(2) == seq![5u8, 0u8] {
        assert(all.take(2)[0] == 5 && all.take(2)[1] == 0);
    }
}

/// A proxy that answers with any status but success is turned down, and so is
/// one whose address is none of the three kinds or has no length.
pub proof fn law_proxy_must_connect(
    version: u8,
    status: u8,
    reserved: u8,
    kind: u8,
    length: u8,
    rest: Seq<u8>,
    turns: nat,
)
    requires
        turns >= 3,
        version != 5 || status != 0 || reserved != 0 || kind != 1 && kind != 4 && (kind != 3
            || length == 0),
    ensures
        ({
            let came = proxy_run(
                ProxyState::Method,
                seq![5u8, 0, version, status, reserved, kind, length] + rest,
                turns + 1,
            );
            came matches Some((ProxyStep::Reject(fault), _)) && fault == if version != 5 || status
                != 0 || reserved != 0 {
                ProxyFault::Refused
            } else if kind == 3 {
                ProxyFault::EmptyAddress
            } else {
                ProxyFault::InvalidAddress
            }
        }),
{
    let all = seq![5u8, 0, version, status, reserved, kind, length] + rest;
    assert(all.take(2) =~= seq![5u8, 0]);
    let header = all.skip(2);
    assert(header.take(4) =~= seq![version, status, reserved, kind]);
    let start = header.take(4).take(3);
    assert(start =~= seq![version, status, reserved]);
    if start == seq![5u8, 0, 0] {
        assert(start[0] == 5 && start[1] == 0 && start[2] == 0);
    }
    let counted = header.skip(4);
    assert(counted.take(1) =~= seq![length]);
    reveal_with_fuel(proxy_run, 4);
}

proof fn lemma_before_mark(bytes: Seq<u8>, mark: u8, at: int)
    requires
        0 <= at < bytes.len(),
        bytes[at] == mark,
        forall|i: int| 0 <= i < at ==> #[trigger] bytes[i] != mark,
    ensures
        before(bytes, mark) == bytes.take(at),
    decreases at,
{
    if at == 0 {
        assert(bytes.take(0) =~= Seq::empty());
    } else {
        let rest = bytes.drop_first();
        assert forall|i: int| 0 <= i < at - 1 implies #[trigger] rest[i] != mark by {
            assert(bytes[i + 1] != mark);
        }
        lemma_before_mark(rest, mark, at - 1);
        assert(seq![bytes[0]] + rest.take(at - 1) =~= bytes.take(at));
    }
}

/// The status line decides: a version of HTTP/1 and a status of three digits
/// that begins with a 2 say that the connection stands, and any other status
/// says that it does not.
pub proof fn law_status_line_decides(
    minor: u8,
    a: u8,
    b: u8,
    c: u8,
    reason: Seq<u8>,
    rest: Seq<u8>,
)
    requires
        0x30 <= minor <= 0x39,
        0x30 <= a <= 0x39,
        0x30 <= b <= 0x39,
        0x30 <= c <= 0x39,
        !reason.contains(10),
    ensures
        says_connected(
            seq![0x48u8, 0x54, 0x54, 0x50, 0x2f, 0x31, 0x2e, minor, 0x20, a, b, c, 0x20] + reason
                + seq![10u8] + rest,
        ) <==> (minor == 0x30 || minor == 0x31) && a == 0x32,
{
    let head = seq![0x48u8, 0x54, 0x54, 0x50, 0x2f, 0x31, 0x2e, minor, 0x20, a, b, c, 0x20];
    let all = head + reason + seq![10u8] + rest;
    let line = head + reason;
    let end = line.len() as int;
    assert(all[end] == 10);
    assert forall|i: int| 0 <= i < end implies #[trigger] all[i] != 10 by {
        if i >= 13 {
            assert(all[i] == reason[i - 13]);
            assert(reason.contains(reason[i - 13]));
        } else {
            assert(all[i] == head[i]);
        }
    }
    lemma_before_mark(all, 10, end);
    assert(all.take(end) =~= line);
    lemma_before_mark(line, 0x20, 8);
    let version = line.take(8);
    assert(version =~= seq![0x48u8, 0x54, 0x54, 0x50, 0x2f, 0x31, 0x2e, minor]);
    assert(version[7] == minor);
    let code_on = behind(line, 0x20);
    assert(code_on =~= seq![a, b, c, 0x20u8] + reason);
    lemma_before_mark(code_on, 0x20, 3);
    assert(code_on.take(3) =~= seq![a, b, c]);
}

// ---------------------------------------------------------------------------
// Targets.

/// The port that was asked for is the one that is listened at, whatever the
/// server says; only where none was asked for does the server choose, and then
/// only among the ports that there are.
pub proof fn law_port_that_is_listened_at(requested: u16, assigned: u32)
    ensures
        requested > 0 ==> port_listened_at(requested, assigned) == Some(requested),
        port_listened_at(0, assigned) matches Some(port) ==> port == assigned && port > 0,
        port_listened_at(0, assigned) is None <==> assigned == 0 || assigned >= 65536,
{
}

/// A SOCKS5 proxy is asked for a host of visible ASCII characters and a port,
/// and for nothing else.
pub proof fn law_socks_targets(host: Seq<char>, port: u16, index: int)
    ensures
        socks_target(host, 0) == false,
        !socks_target(Seq::empty(), port),
        0 <= index < utf8(host).len() && (utf8(host)[index] <= 32 || utf8(host)[index] >= 127)
            ==> !socks_target(host, port),
        port > 0 && host.len() > 0 && (forall|i: int|
            0 <= i < utf8(host).len() ==> 33 <= #[trigger] utf8(host)[i] <= 126) ==> socks_target(
            host,
            port,
        ),
{
    if 0 <= index < utf8(host).len() && (utf8(host)[index] <= 32 || utf8(host)[index] >= 127) {
        assert(!crate::proxy::is_visible(utf8(host)[index]));
    }
}

/// An HTTP proxy is asked for a host of at most 253 visible ASCII characters,
/// without a slash, a question mark, a number sign, an at sign or a bracket,
/// and for nothing else.
pub proof fn law_http_targets(host: Seq<char>, port: u16, index: int)
    ensures
        !http_target(host, 0),
        !http_target(Seq::empty(), port),
        utf8(host).len() > 253 ==> !http_target(host, port),
        0 <= index < utf8(host).len() && (utf8(host)[index] <= 32 || utf8(host)[index] >= 127
            || "/?#@[]"@.contains(utf8(host)[index] as char)) ==> !http_target(host, port),
        port > 0 && 0 < utf8(host).len() <= 253 && (forall|i: int|
            0 <= i < utf8(host).len() ==> 33 <= #[trigger] utf8(host)[i] <= 126
                && !"/?#@[]"@.contains(utf8(host)[i] as char)) ==> http_target(host, port),
{
    reveal_strlit("/?#@[]");
    let signs = "/?#@[]"@;
    assert(signs[0] == '/' && signs[1] == '?' && signs[2] == '#' && signs[3] == '@' && signs[4]
        == '[' && signs[5] == ']');
    assert(utf8(Seq::<char>::empty()).len() == 0);
    if 0 <= index < utf8(host).len() && (utf8(host)[index] <= 32 || utf8(host)[index] >= 127
        || signs.contains(utf8(host)[index] as char)) {
        assert(!crate::proxy::is_host_byte(utf8(host)[index]));
    }
    assert forall|byte: u8| 33 <= byte <= 126 && !(#[trigger] signs.contains(
        byte as char,
    )) implies crate::proxy::is_host_byte(byte) by {
        assert(signs.contains(signs[0]) && signs.contains(signs[1]) && signs.contains(signs[2])
            && signs.contains(signs[3]) && signs.contains(signs[4]) && signs.contains(signs[5]));
    }
}

/// The target in a request to an HTTP proxy: the host, with brackets around an
/// IPv6 address, a colon and the port in digits.
pub proof fn law_authority_names_host_and_port(host: Seq<char>, port: u16, is_v6: bool)
    ensures
        ({
            let authority = authority_of(host, port, is_v6);
            let (open, close) = if is_v6 {
                (1int, 1int)
            } else {
                (0int, 0int)
            };
            let colon = open + host.len() + close;
            &&& is_v6 ==> authority[0] == '[' && authority[colon - 1] == ']'
            &&& authority.subrange(open, open + host.len()) == host
            &&& authority[colon] == ':'
            &&& crate::host_laws::number_of(authority.skip(colon + 1)) == port
        }),
{
    let authority = authority_of(host, port, is_v6);
    let digits = crate::text::decimal_text(port as nat);
    crate::host_laws::law_number_is_written_in_digits(port as nat);
    if is_v6 {
        assert(authority.subrange(1, 1 + host.len() as int) =~= host);
        assert(authority.skip(host.len() as int + 3) =~= digits);
    } else {
        assert(authority.subrange(0, host.len() as int) =~= host);
        assert(authority.skip(host.len() as int + 1) =~= digits);
    }
}

/// Limits of forwarding allow something where none of them is zero.
pub proof fn law_limits_of_forwarding(limits: ForwardLimits)
    ensures
        limits.allow_something() <==> limits.max_connections >= 1
            && limits.pending_remote_channels >= 1 && (limits.socks_handshake_timeout.seconds >= 1
            || limits.socks_handshake_timeout.nanoseconds >= 1),
{
}

} // verus!
