//! Connections to other hosts, as `lsof` lists them.

use vstd::prelude::*;

use crate::events::{NetworkEvent, Protocol};
use crate::number::{
    decimal, format_u128, is_digit, lemma_decimal_round_trip, lemma_decimal_value, parse_u16,
    parse_u32, unsigned_value,
};
use crate::text::{
    chars_between, chars_of, find_from, first_position, has_infix, has_prefix, is_line, is_space,
    is_whole_lines, is_word, join, join_strings, last_position, lemma_filter_map_add,
    lemma_first_word, lemma_lines_add, lemma_one_line, lemma_split_at, lemma_split_whole, lines,
    lines_of, occurs_at, pieces, same_chars, split, split_on, starts_with, string_of, texts,
    to_uppercase, uppercase, without_cr, words, words_of,
};
use crate::time::{is_clock_time, Duration, Timestamp};

verus! {

/// What tells connections apart: process, remote host, remote port and protocol.
pub type Connection = (u32, Seq<char>, u16, Protocol);

/// What tells connections apart: process, remote host, remote port and protocol.
#[derive(Debug, Clone)]
pub struct ConnectionKey {
    pub pid: u32,
    pub remote_host: String,
    pub remote_port: u16,
    pub protocol: Protocol,
}

impl View for ConnectionKey {
    type V = Connection;

    open spec fn view(&self) -> Connection {
        (self.pid, self.remote_host@, self.remote_port, self.protocol)
    }
}

/// The connection that an event reports.
pub open spec fn connection(event: NetworkEvent) -> Connection {
    (event.pid, event.remote_host@, event.remote_port, event.protocol)
}

/// The connections that a list of events reports.
pub open spec fn connections(events: Seq<NetworkEvent>) -> Seq<Connection> {
    events.map_values(|e: NetworkEvent| connection(e))
}

/// Whether every event carries a moment that the clock can tell.
pub open spec fn all_clocked(events: Seq<NetworkEvent>) -> bool {
    forall|i: int| 0 <= i < events.len() ==> is_clock_time((#[trigger] events[i]).timestamp)
}

/// A set of connections.
pub struct ConnectionSet {
    keys: Vec<ConnectionKey>,
}

impl View for ConnectionSet {
    type V = Set<Connection>;

    closed spec fn view(&self) -> Set<Connection> {
        self.list().to_set()
    }
}

impl ConnectionSet {
    spec fn list(&self) -> Seq<Connection> {
        self.keys@.map_values(|k: ConnectionKey| k@)
    }

    #[verifier::type_invariant]
    spec fn distinct(&self) -> bool {
        self.list().no_duplicates()
    }

    /// An empty set.
    pub fn new() -> (r: ConnectionSet)
        ensures
            r@ == Set::<Connection>::empty(),
    {
        let r = ConnectionSet { keys: Vec::new() };
        assert(r@ =~= Set::<Connection>::empty());
        r
    }

    /// Tests whether the set holds a connection.
    pub fn contains(&self, key: &ConnectionKey) -> (r: bool)
        ensures
            r == self@.contains(key@),
    {
        let mut i: usize = 0;
        while i < self.keys.len()
            invariant
                i <= self.keys@.len(),
                forall|j: int| 0 <= j < i ==> #[trigger] self.list()[j] != key@,
            decreases self.keys@.len() - i,
        {
            let other = &self.keys[i];
            assert(self.list()[i as int] == other@);
            if other.pid == key.pid && other.remote_port == key.remote_port && other.protocol
                == key.protocol && other.remote_host == key.remote_host {
                assert(other@ == key@);
                assert(self@.contains(key@));
                return true;
            }
            assert(other@ != key@);
            i += 1;
        }
        assert(!self@.contains(key@)) by {
            if self@.contains(key@) {
                let j = choose|j: int| 0 <= j < self.list().len() && self.list()[j] == key@;
                assert(self.list()[j] != key@);
            }
        }
        false
    }

    /// Puts a connection into the set, and tells whether it was not in it before.
    pub fn insert(&mut self, key: ConnectionKey) -> (r: bool)
        ensures
            r == !old(self)@.contains(key@),
            final(self)@ == old(self)@.insert(key@),
    {
        if self.contains(&key) {
            assert(self@ =~= self@.insert(key@));
            return false;
        }
        proof {
            use_type_invariant(&*self);
        }
        let ghost before = self.list();
        let ghost added = key@;
        let mut keys: Vec<ConnectionKey> = Vec::new();
        std::mem::swap(&mut keys, &mut self.keys);
        keys.push(key);
        proof {
            let after = keys@.map_values(|k: ConnectionKey| k@);
            assert(after =~= before.push(added));
            assert(!before.contains(added));
            assert(after.no_duplicates());
            assert(after.to_set() =~= before.to_set().insert(added)) by {
                assert forall|c: Connection| after.to_set().contains(c) == before.to_set().insert(
                    added,
                ).contains(c) by {
                    if before.contains(c) {
                        let j = choose|j: int| 0 <= j < before.len() && before[j] == c;
                        assert(after[j] == c);
                    }
                    if c == added {
                        assert(after[before.len() as int] == c);
                    }
                }
            }
        }
        self.keys = keys;
        true
    }
}

/// Watches the connections of a process and of its descendants.
pub struct NetworkObserver {
    pub root_pid: u32,
    pub seen_connections: ConnectionSet,
    pub poll_interval: Duration,
}

/// The place where `needle` first stands in `text`.
pub open spec fn is_first_place(text: Seq<char>, needle: Seq<char>, at: int) -> bool {
    occurs_at(text, needle, at) && forall|j: int| 0 <= j < at ==> !occurs_at(text, needle, j)
}

/// `text` without any `c` at its end.
pub open spec fn trimmed_end(text: Seq<char>, c: char) -> Seq<char>
    decreases text.len(),
{
    if text.len() > 0 && text.last() == c {
        trimmed_end(text.drop_last(), c)
    } else {
        text
    }
}

/// The remote side of a connection in `lsof` notation: the first word after the first arrow,
/// without closing parentheses at its end, up to the first opening one.
pub open spec fn remote_side(name: Seq<char>) -> Option<Seq<char>> {
    if has_infix(name, "->"@) {
        let at = choose|at: int| is_first_place(name, "->"@, at);
        let after = name.skip(at + 2);
        let word = if words(after).len() > 0 {
            words(after)[0]
        } else {
            after
        };
        Some(split(trimmed_end(word, ')'), '(')[0])
    } else {
        None
    }
}

/// Whether the brackets of a remote side can be taken off: where it holds a closing bracket, one
/// ASCII character other than that stands at its start.
pub open spec fn brackets_fit(side: Seq<char>) -> bool {
    side.contains(']') ==> (side[0] as u32) < 128 && side[0] != ']'
}

/// Whether `at` is the first place of `c`.
pub open spec fn is_first_char(text: Seq<char>, c: char, at: int) -> bool {
    0 <= at < text.len() && text[at] == c && forall|j: int| 0 <= j < at ==> text[j] != c
}

/// Whether `at` is the last place of `c`.
pub open spec fn is_last_char(text: Seq<char>, c: char, at: int) -> bool {
    0 <= at < text.len() && text[at] == c && forall|j: int| at < j < text.len() ==> text[j] != c
}

/// The host and the notation of the port in a remote side. A host in brackets ends at the first
/// closing one, and one ASCII character stands between that and the port; any other host ends at
/// the last colon.
pub open spec fn host_and_port(side: Seq<char>) -> Option<(Seq<char>, Seq<char>)> {
    if side.contains(']') {
        let end = choose|end: int| is_first_char(side, ']', end);
        if end + 1 < side.len() && (side[end + 1] as u32) < 128 {
            Some((side.subrange(1, end), side.skip(end + 2)))
        } else {
            None
        }
    } else if side.contains(':') {
        let colon = choose|colon: int| is_last_char(side, ':', colon);
        Some((side.take(colon), side.skip(colon + 1)))
    } else {
        None
    }
}

/// Whether a host is this machine itself.
pub open spec fn loopback(host: Seq<char>) -> bool {
    ||| host == "127.0.0.1"@
    ||| host == "::1"@
    ||| host == "localhost"@
    ||| has_prefix(host, "127."@)
    ||| host == "::ffff:127.0.0.1"@
    ||| has_prefix(host, "::ffff:127."@)
}

/// The remote host and port of a connection in `lsof` notation, where there is one that is not
/// this machine itself.
pub open spec fn remote_address(name: Seq<char>) -> Option<(Seq<char>, u16)> {
    match remote_side(name) {
        None => None,
        Some(side) => match host_and_port(side) {
            None => None,
            Some((host, port)) => match unsigned_value(port, u16::MAX as nat) {
                Some(n) if !loopback(host) => Some((host, n as u16)),
                _ => None,
            },
        },
    }
}

/// Whether the remote side of a connection in `lsof` notation, where it has one, can be taken
/// apart.
pub open spec fn address_fits(name: Seq<char>) -> bool {
    remote_side(name) is Some ==> brackets_fit(remote_side(name)->0)
}

/// The protocol with this name, in upper case.
pub open spec fn protocol_named(name: Seq<char>) -> Option<Protocol> {
    if name == "TCP"@ {
        Some(Protocol::Tcp)
    } else if name == "UDP"@ {
        Some(Protocol::Udp)
    } else {
        None
    }
}

/// Whether a line of `lsof` output has the columns of a connection, up to the name of it: nine
/// columns or more, a process number in the second and a protocol in the eighth.
pub open spec fn is_connection_row(line: Seq<char>) -> bool {
    let parts = words(line);
    &&& parts.len() >= 9
    &&& unsigned_value(parts[1], u32::MAX as nat) is Some
    &&& protocol_named(uppercase(parts[7])) is Some
}

/// The connection to another host that a line of `lsof` output tells of, if any.
pub open spec fn row_connection(line: Seq<char>) -> Option<Connection> {
    let parts = words(line);
    if is_connection_row(line) && remote_address(parts[8]) is Some {
        let (host, port) = remote_address(parts[8])->0;
        Some(
            (
                unsigned_value(parts[1], u32::MAX as nat)->0 as u32,
                host,
                port,
                protocol_named(uppercase(parts[7]))->0,
            ),
        )
    } else {
        None
    }
}

/// The lines of `lsof` output below its heading.
pub open spec fn rows(output: Seq<char>) -> Seq<Seq<char>> {
    if lines(output).len() == 0 {
        Seq::empty()
    } else {
        lines(output).skip(1)
    }
}

/// The connections to other hosts that some lines of `lsof` output tell of, in their order.
pub open spec fn row_connections(list: Seq<Seq<char>>) -> Seq<Connection> {
    list.filter_map(|line: Seq<char>| row_connection(line))
}

/// The connections to other hosts that `lsof` output tells of, in its order.
pub open spec fn listed_connections(output: Seq<char>) -> Seq<Connection> {
    row_connections(rows(output))
}

/// Whether the remote side of every connection in some lines of `lsof` output can be taken apart.
pub open spec fn rows_fit(list: Seq<Seq<char>>) -> bool {
    forall|i: int|
        0 <= i < list.len() && is_connection_row(#[trigger] list[i]) ==> address_fits(
            words(list[i])[8],
        )
}

/// Whether the remote side of every connection in `lsof` output can be taken apart.
pub open spec fn output_fits(output: Seq<char>) -> bool {
    rows_fit(rows(output))
}

/// What `list` holds that is not in `seen`, each once, in the order of first appearance.
pub open spec fn unseen(seen: Set<Connection>, list: Seq<Connection>) -> Seq<Connection>
    decreases list.len(),
{
    if list.len() == 0 {
        Seq::empty()
    } else {
        let before = unseen(seen, list.drop_last());
        if seen.contains(list.last()) || list.drop_last().contains(list.last()) {
            before
        } else {
            before.push(list.last())
        }
    }
}

/// Tests whether a host is this machine itself.
pub fn is_loopback(host: &str) -> (r: bool)
    ensures
        r == loopback(host@),
{
    let chars = chars_of(host);
    same_chars(&chars, &chars_of("127.0.0.1")) || same_chars(&chars, &chars_of("::1"))
        || same_chars(&chars, &chars_of("localhost")) || starts_with(&chars, &chars_of("127."))
        || same_chars(&chars, &chars_of("::ffff:127.0.0.1")) || starts_with(
        &chars,
        &chars_of("::ffff:127."),
    )
}

fn without_end(text: &Vec<char>, c: char) -> (r: Vec<char>)
    ensures
        r@ == trimmed_end(text@, c),
{
    let mut n: usize = text.len();
    assert(text@.take(n as int) =~= text@);
    while n > 0 && text[n - 1] == c
        invariant
            n <= text@.len(),
            trimmed_end(text@, c) == trimmed_end(text@.take(n as int), c),
        decreases n,
    {
        assert(text@.take(n as int).drop_last() =~= text@.take(n - 1));
        n -= 1;
    }
    let r = chars_between(text, 0, n);
    assert(r@ =~= text@.take(n as int));
    r
}

/// The remote side of a connection in `lsof` notation.
fn remote_side_of(name: &Vec<char>) -> (r: Option<Vec<char>>)
    ensures
        match r {
            Some(side) => remote_side(name@) == Some(side@),
            None => remote_side(name@) is None,
        },
{
    let arrow = chars_of("->");
    proof {
        reveal_strlit("->");
    }
    match find_from(name, &arrow, 0) {
        None => None,
        Some(at) => {
            proof {
                assert(is_first_place(name@, "->"@, at as int));
                let chosen = choose|chosen: int| is_first_place(name@, "->"@, chosen);
                assert(is_first_place(name@, "->"@, chosen));
                assert(chosen == at);
            }
            assert(at + 2 <= name.len());
            let after = chars_between(name, at + 2, name.len());
            assert(after@ =~= name@.skip(at + 2));
            let found = words_of(&after);
            assert(pieces(found@).len() == found@.len());
            let word = if found.len() > 0 {
                assert(pieces(found@)[0] == found@[0]@);
                without_end(&found[0], ')')
            } else {
                without_end(&after, ')')
            };
            let mut cut = split_on(&word, '(');
            proof {
                crate::text::lemma_split(word@, '(');
                assert(pieces(cut@).len() == cut@.len());
                assert(pieces(cut@)[0] == cut@[0]@);
            }
            Some(cut.remove(0))
        },
    }
}

/// Tests whether the remote side of a connection in `lsof` notation can be taken apart.
pub fn can_parse_address(name: &str) -> (r: bool)
    ensures
        r == address_fits(name@),
{
    match remote_side_of(&chars_of(name)) {
        None => true,
        Some(side) => match first_position(&side, ']') {
            None => true,
            Some(_) => is_ascii(side[0]) && side[0] != ']',
        },
    }
}

fn is_ascii(c: char) -> (r: bool)
    ensures
        r == ((c as u32) < 128),
{
    (c as u32) < 128
}

/// Reads the remote host and port of a connection in `lsof` notation. There is none where nothing
/// is connected, where the port is no number up to 65535, and where the host is this machine
/// itself.
pub fn parse_remote_address(name: &str) -> (r: Option<(String, u16)>)
    requires
        address_fits(name@),
    ensures
        match r {
            Some((host, port)) => remote_address(name@) == Some((host@, port)),
            None => remote_address(name@) is None,
        },
{
    let side = match remote_side_of(&chars_of(name)) {
        None => {
            return None;
        },
        Some(side) => side,
    };
    let (host, port): (Vec<char>, Vec<char>) = match first_position(&side, ']') {
        Some(end) => {
            proof {
                assert(is_first_char(side@, ']', end as int));
                let chosen = choose|chosen: int| is_first_char(side@, ']', chosen);
                assert(is_first_char(side@, ']', chosen));
                assert(chosen == end);
                assert(end >= 1);
            }
            if end + 1 >= side.len() || !is_ascii(side[end + 1]) {
                return None;
            }
            let host = chars_between(&side, 1, end);
            let port = chars_between(&side, end + 2, side.len());
            assert(port@ =~= side@.skip(end + 2));
            (host, port)
        },
        None => match last_position(&side, ':') {
            None => {
                return None;
            },
            Some(colon) => {
                proof {
                    assert(is_last_char(side@, ':', colon as int));
                    let chosen = choose|chosen: int| is_last_char(side@, ':', chosen);
                    assert(is_last_char(side@, ':', chosen));
                    assert(chosen == colon);
                }
                assert(colon < side.len());
                let host = chars_between(&side, 0, colon);
                let port = chars_between(&side, colon + 1, side.len());
                assert(host@ =~= side@.take(colon as int));
                assert(port@ =~= side@.skip(colon + 1));
                (host, port)
            },
        },
    };
    match parse_u16(&port) {
        None => None,
        Some(n) => {
            let text = string_of(&host);
            if is_loopback(text.as_str()) {
                None
            } else {
                Some((text, n))
            }
        },
    }
}

fn protocol_of(node: &str) -> (r: Option<Protocol>)
    ensures
        r == protocol_named(uppercase(node@)),
{
    let name = to_uppercase(node);
    let chars = chars_of(name.as_str());
    if same_chars(&chars, &chars_of("TCP")) {
        Some(Protocol::Tcp)
    } else if same_chars(&chars, &chars_of("UDP")) {
        Some(Protocol::Udp)
    } else {
        None
    }
}

/// The process number, protocol and name in a line of `lsof` output.
fn row_columns(line: &Vec<char>) -> (r: Option<(u32, Protocol, String)>)
    ensures
        match r {
            Some((pid, protocol, name)) => {
                &&& is_connection_row(line@)
                &&& unsigned_value(words(line@)[1], u32::MAX as nat) == Some(pid as nat)
                &&& protocol_named(uppercase(words(line@)[7])) == Some(protocol)
                &&& name@ == words(line@)[8]
            },
            None => !is_connection_row(line@),
        },
{
    let parts = words_of(line);
    assert(pieces(parts@).len() == parts@.len());
    if parts.len() < 9 {
        return None;
    }
    proof {
        assert(pieces(parts@)[1] == parts@[1]@);
        assert(pieces(parts@)[7] == parts@[7]@);
        assert(pieces(parts@)[8] == parts@[8]@);
    }
    match parse_u32(&parts[1]) {
        None => None,
        Some(pid) => match protocol_of(string_of(&parts[7]).as_str()) {
            None => None,
            Some(protocol) => Some((pid, protocol, string_of(&parts[8]))),
        },
    }
}

/// Tests whether the remote side of every connection in `lsof` output can be taken apart.
pub fn can_parse_output(output: &str) -> (r: bool)
    ensures
        r == output_fits(output@),
{
    let all = lines_of(&chars_of(output));
    assert(pieces(all@).len() == all@.len());
    let mut i: usize = 1;
    while i < all.len()
        invariant
            1 <= i,
            pieces(all@) == lines(output@),
            pieces(all@).len() == all@.len(),
            i > 1 ==> i <= all@.len(),
            forall|j: int|
                0 <= j < i - 1 && is_connection_row(#[trigger] rows(output@)[j]) ==> address_fits(
                    words(rows(output@)[j])[8],
                ),
        decreases all@.len() - i,
    {
        assert(rows(output@)[i - 1] == pieces(all@)[i as int]);
        assert(pieces(all@)[i as int] == all@[i as int]@);
        match row_columns(&all[i]) {
            None => {},
            Some((_, _, name)) => {
                if !can_parse_address(name.as_str()) {
                    return false;
                }
            },
        }
        i += 1;
    }
    true
}

impl NetworkObserver {
    /// An observer that has seen nothing yet.
    pub fn new(root_pid: u32, poll_interval_ms: u64) -> (r: NetworkObserver)
        ensures
            r.root_pid == root_pid,
            r.poll_interval@ == poll_interval_ms as nat * 1_000_000,
            r.seen_connections@ == Set::<Connection>::empty(),
    {
        NetworkObserver {
            root_pid,
            seen_connections: ConnectionSet::new(),
            poll_interval: Duration::from_millis(poll_interval_ms),
        }
    }

    /// The time between two looks.
    pub fn poll_interval(&self) -> (r: Duration)
        ensures
            r == self.poll_interval,
    {
        self.poll_interval
    }

    /// The connections to other hosts that `lsof` output tells of, in its order. Each event
    /// carries the moment when its line was read.
    pub fn parse_lsof_output(&self, output: &str) -> (r: Vec<NetworkEvent>)
        requires
            output_fits(output@),
        ensures
            connections(r@) == listed_connections(output@),
            all_clocked(r@),
    {
        let all = lines_of(&chars_of(output));
        let ghost below = rows(output@);
        let ghost read = |line: Seq<char>| row_connection(line);
        assert(pieces(all@).len() == all@.len());
        let mut events: Vec<NetworkEvent> = Vec::new();
        let mut i: usize = 1;
        proof {
            assert(below.take(0) =~= Seq::empty());
            reveal(Seq::filter_map);
            assert(connections(events@) =~= below.take(0).filter_map(read));
        }
        while i < all.len()
            invariant
                1 <= i,
                pieces(all@) == lines(output@),
                pieces(all@).len() == all@.len(),
                i > 1 ==> i <= all@.len(),
                below == rows(output@),
                read == (|line: Seq<char>| row_connection(line)),
                output_fits(output@),
                connections(events@) == below.take(i - 1).filter_map(read),
                all_clocked(events@),
            decreases all@.len() - i,
        {
            let ghost line = below[i - 1];
            let ghost before = connections(events@);
            proof {
                assert(line == pieces(all@)[i as int]);
                assert(pieces(all@)[i as int] == all@[i as int]@);
                below.lemma_filter_map_take_succ(read, i - 1);
            }
            match row_columns(&all[i]) {
                None => {},
                Some((pid, protocol, name)) => {
                    assert(address_fits(words(below[i - 1])[8]));
                    match parse_remote_address(name.as_str()) {
                        None => {},
                        Some((remote_host, remote_port)) => {
                            events.push(
                                NetworkEvent {
                                    pid,
                                    remote_host,
                                    remote_port,
                                    protocol,
                                    timestamp: Timestamp::now(),
                                },
                            );
                            assert(connections(events@) =~= before.push(row_connection(line)->0));
                        },
                    }
                },
            }
            i += 1;
        }
        assert(below.take(below.len() as int) =~= below);
        events
    }

    /// Reports the connections in `lsof` output that were not seen before, each once, in the order
    /// of the output, and remembers them.
    pub fn poll(&mut self, output: &str) -> (r: Vec<NetworkEvent>)
        requires
            output_fits(output@),
        ensures
            connections(r@) == unseen(
                old(self).seen_connections@,
                listed_connections(output@),
            ),
            all_clocked(r@),
            final(self).seen_connections@ == old(self).seen_connections@.union(
                listed_connections(output@).to_set(),
            ),
            final(self).root_pid == old(self).root_pid,
            final(self).poll_interval == old(self).poll_interval,
    {
        let listed = self.parse_lsof_output(output);
        let ghost list = connections(listed@);
        let ghost seen = self.seen_connections@;
        let mut fresh: Vec<NetworkEvent> = Vec::new();
        let mut i: usize = 0;
        proof {
            assert(list.take(0).to_set() =~= Set::empty());
            assert(self.seen_connections@ =~= seen.union(list.take(0).to_set()));
            assert(connections(fresh@) =~= unseen(seen, list.take(0)));
        }
        while i < listed.len()
            invariant
                i <= listed@.len(),
                list == connections(listed@),
                all_clocked(listed@),
                all_clocked(fresh@),
                connections(fresh@) == unseen(seen, list.take(i as int)),
                self.seen_connections@ == seen.union(list.take(i as int).to_set()),
                self.root_pid == old(self).root_pid,
                self.poll_interval == old(self).poll_interval,
            decreases listed@.len() - i,
        {
            let event = &listed[i];
            let key = ConnectionKey {
                pid: event.pid,
                remote_host: event.remote_host.clone(),
                remote_port: event.remote_port,
                protocol: event.protocol,
            };
            let ghost added = key@;
            let ghost before = connections(fresh@);
            proof {
                assert(list[i as int] == added);
                assert(list.take(i + 1).drop_last() =~= list.take(i as int));
                assert(list.take(i + 1).last() == added);
                lemma_to_set_push(list.take(i as int), added);
                assert(list.take(i + 1) =~= list.take(i as int).push(added));
            }
            if self.seen_connections.insert(key) {
                let copy = NetworkEvent {
                    pid: event.pid,
                    remote_host: event.remote_host.clone(),
                    remote_port: event.remote_port,
                    protocol: event.protocol,
                    timestamp: event.timestamp,
                };
                fresh.push(copy);
                assert(connections(fresh@) =~= before.push(added));
            }
            i += 1;
            assert(self.seen_connections@ =~= seen.union(list.take(i as int).to_set()));
        }
        assert(list.take(i as int) =~= list);
        fresh
    }

    /// Does what `poll` does where every connection in the output can be taken apart. Otherwise it
    /// reports nothing, not even an empty list, and remembers nothing.
    pub fn try_poll(&mut self, output: &str) -> (r: Option<Vec<NetworkEvent>>)
        ensures
            r is Some <==> output_fits(output@),
            match r {
                Some(events) => {
                    &&& connections(events@) == unseen(
                        old(self).seen_connections@,
                        listed_connections(output@),
                    )
                    &&& all_clocked(events@)
                    &&& final(self).seen_connections@ == old(self).seen_connections@.union(
                        listed_connections(output@).to_set(),
                    )
                },
                None => final(self).seen_connections@ == old(self).seen_connections@,
            },
            final(self).root_pid == old(self).root_pid,
            final(self).poll_interval == old(self).poll_interval,
    {
        if can_parse_output(output) {
            Some(self.poll(output))
        } else {
            None
        }
    }
}

proof fn lemma_to_set_push(list: Seq<Connection>, added: Connection)
    ensures
        list.push(added).to_set() == list.to_set().insert(added),
{
    assert forall|c: Connection|
        list.push(added).to_set().contains(c) == list.to_set().insert(added).contains(c) by {
        if list.contains(c) {
            let j = choose|j: int| 0 <= j < list.len() && list[j] == c;
            assert(list.push(added)[j] == c);
        }
        if c == added {
            assert(list.push(added)[list.len() as int] == c);
        }
    }
    assert(list.push(added).to_set() =~= list.to_set().insert(added));
}

/// What is reported was not seen before, is in the list, and is reported once; and whatever is in
/// the list and was not seen before is reported.
pub proof fn lemma_unseen(seen: Set<Connection>, list: Seq<Connection>)
    ensures
        unseen(seen, list).no_duplicates(),
        forall|c: Connection| #[trigger]
            unseen(seen, list).contains(c) <==> list.contains(c) && !seen.contains(c),
    decreases list.len(),
{
    if list.len() > 0 {
        let front = list.drop_last();
        let before = unseen(seen, front);
        let all = unseen(seen, list);
        lemma_unseen(seen, front);
        assert(before.contains(list.last()) ==> front.contains(list.last()));
        assert(all.no_duplicates()) by {
            assert forall|i: int, j: int| 0 <= i < j < all.len() implies all[i] != all[j] by {
                assert(before.contains(all[i])) by {
                    assert(before[i] == all[i]);
                }
                if j < before.len() {
                    assert(before[j] == all[j]);
                }
            }
        }
        assert forall|c: Connection| #[trigger]
            all.contains(c) <==> list.contains(c) && !seen.contains(c) by {
            assert(before.contains(c) <==> front.contains(c) && !seen.contains(c));
            if front.contains(c) {
                let j = choose|j: int| 0 <= j < front.len() && front[j] == c;
                assert(list[j] == c);
            }
            if list.contains(c) {
                let j = choose|j: int| 0 <= j < list.len() && list[j] == c;
                if j < front.len() {
                    assert(front[j] == c);
                }
            }
            if before.contains(c) {
                let j = choose|j: int| 0 <= j < before.len() && before[j] == c;
                assert(all[j] == c);
            }
            if all.contains(c) {
                let j = choose|j: int| 0 <= j < all.len() && all[j] == c;
                if j < before.len() {
                    assert(before[j] == c);
                }
            }
            if c == list.last() && all.len() > before.len() {
                assert(all[before.len() as int] == c);
            }
            assert(c == list.last() ==> list.contains(c)) by {
                assert(list[list.len() - 1] == list.last());
            }
        }
    }
}

/// A connection that lasts through several looks is reported once: looking again at what was
/// listed before reports nothing.
pub proof fn lemma_reported_once(seen: Set<Connection>, list: Seq<Connection>, again: Seq<Connection>)
    requires
        forall|c: Connection| #[trigger] again.contains(c) ==> list.contains(c) || seen.contains(c),
    ensures
        unseen(seen.union(list.to_set()), again) == Seq::<Connection>::empty(),
{
    let known = seen.union(list.to_set());
    let fresh = unseen(known, again);
    lemma_unseen(known, again);
    if fresh.len() > 0 {
        let c = fresh[0];
        assert(fresh.contains(c));
        assert(again.contains(c));
        assert(list.contains(c) || seen.contains(c));
    }
}

/// No connection of a machine with itself is ever listed.
pub proof fn lemma_no_loopback(output: Seq<char>)
    ensures
        forall|i: int|
            0 <= i < listed_connections(output).len() ==> !loopback(
                (#[trigger] listed_connections(output)[i]).1,
            ),
{
    lemma_rows_no_loopback(rows(output));
}

proof fn lemma_rows_no_loopback(list: Seq<Seq<char>>)
    ensures
        forall|i: int|
            0 <= i < row_connections(list).len() ==> !loopback(
                (#[trigger] row_connections(list)[i]).1,
            ),
    decreases list.len(),
{
    let read = |line: Seq<char>| row_connection(line);
    reveal(Seq::filter_map);
    if list.len() > 0 {
        lemma_rows_no_loopback(list.drop_last());
        let n = list.len() - 1;
        assert(list.take(n) =~= list.drop_last());
        assert(list.take(n + 1) =~= list);
        list.lemma_filter_map_take_succ(read, n);
        let before = row_connections(list.drop_last());
        let all = row_connections(list);
        assert forall|i: int| 0 <= i < all.len() implies !loopback((#[trigger] all[i]).1) by {
            if i < before.len() {
                assert(all[i] == before[i]);
            } else {
                assert(Some(all[i]) == row_connection(list.last()));
            }
        }
    } else {
        assert(row_connections(list).len() == 0);
    }
}

/// `lsof` output is read line by line: behind whole lines, the heading among them, further lines add
/// the connections that they tell of and change nothing else.
pub proof fn lemma_read_line_by_line(before: Seq<char>, after: Seq<char>)
    requires
        is_whole_lines(before),
        before.len() > 0,
    ensures
        listed_connections(before + after) == listed_connections(before) + row_connections(
            lines(after),
        ),
        output_fits(before + after) <==> output_fits(before) && rows_fit(lines(after)),
{
    lemma_lines_add(before, after);
    lemma_has_lines(before);
    let a = rows(before);
    let b = lines(after);
    let all = rows(before + after);
    assert(all =~= a + b);
    lemma_filter_map_add(a, b, |line: Seq<char>| row_connection(line));
    if rows_fit(all) {
        assert forall|i: int| 0 <= i < a.len() && is_connection_row(
            #[trigger] a[i],
        ) implies address_fits(words(a[i])[8]) by {
            assert(all[i] == a[i]);
        }
        assert forall|i: int| 0 <= i < b.len() && is_connection_row(
            #[trigger] b[i],
        ) implies address_fits(words(b[i])[8]) by {
            assert(all[a.len() + i] == b[i]);
        }
    }
}

/// A line behind the others adds the connection that it tells of, if any.
pub proof fn lemma_read_one_line(before: Seq<char>, line: Seq<char>)
    requires
        is_whole_lines(before),
        before.len() > 0,
        is_line(line),
    ensures
        listed_connections(before + line.push('\n')) == (match row_connection(line) {
            Some(found) => listed_connections(before).push(found),
            None => listed_connections(before),
        }),
{
    let read = |line: Seq<char>| row_connection(line);
    lemma_read_line_by_line(before, line.push('\n'));
    lemma_one_line(line);
    assert(words(without_cr(line)) == words(line));
    Seq::lemma_filter_map_singleton(without_cr(line), read);
    let added = row_connections(seq![without_cr(line)]);
    match row_connection(line) {
        Some(found) => {
            assert(listed_connections(before) + added =~= listed_connections(before).push(found));
        },
        None => {
            assert(listed_connections(before) + added =~= listed_connections(before));
        },
    }
}

/// Whole lines, where there is something in them, are one line or more.
proof fn lemma_has_lines(text: Seq<char>)
    requires
        is_whole_lines(text),
        text.len() > 0,
    ensures
        lines(text).len() > 0,
{
    let front = text.drop_last();
    let none = Seq::<char>::empty();
    assert(text =~= front.push('\n') + none);
    lemma_split_at(front, '\n', none);
    lemma_split_whole(none, '\n');
    crate::text::lemma_split(front, '\n');
}

/// Whether what follows an address does not belong to it: nothing, a state in parentheses, or
/// further words.
pub open spec fn ends_address(rest: Seq<char>) -> bool {
    rest.len() == 0 || rest[0] == '(' || is_space(rest[0])
}

/// Whether `side` can stand as the remote side of a connection: a word without an opening
/// parenthesis and without a closing one at its end.
spec fn can_be_side(side: Seq<char>) -> bool {
    side.len() > 0 && is_word(side) && !side.contains('(') && side.last() != ')'
}

/// A text keeps everything up to a character that is not trimmed off.
proof fn lemma_trimmed_keeps(text: Seq<char>, c: char, at: int) -> (n: int)
    requires
        0 <= at < text.len(),
        text[at] != c,
    ensures
        at < n <= text.len(),
        trimmed_end(text, c) == text.take(n),
    decreases text.len(),
{
    if text.last() == c {
        let n = lemma_trimmed_keeps(text.drop_last(), c, at);
        assert(text.drop_last().take(n) =~= text.take(n));
        n
    } else {
        assert(text.take(text.len() as int) =~= text);
        text.len() as int
    }
}

proof fn lemma_side_read_back(local: Seq<char>, side: Seq<char>, rest: Seq<char>)
    requires
        !has_infix(local, "->"@),
        can_be_side(side),
        ends_address(rest),
    ensures
        remote_side(local + "->"@ + side + rest) == Some(side),
{
    reveal_strlit("->");
    let name = local + "->"@ + side + rest;
    let here = local.len() as int;
    assert(name.subrange(here, here + 2) =~= "->"@);
    assert(occurs_at(name, "->"@, here));
    assert forall|j: int| 0 <= j < here implies !occurs_at(name, "->"@, j) by {
        if occurs_at(name, "->"@, j) {
            let found = name.subrange(j, j + 2);
            assert(found[1] == '>');
            assert(name[j + 1] == '>');
            if j + 2 <= here {
                assert(local.subrange(j, j + 2) =~= found);
                assert(occurs_at(local, "->"@, j));
            } else {
                assert(name[here] == '-');
            }
        }
    }
    assert(is_first_place(name, "->"@, here));
    let at = choose|at: int| is_first_place(name, "->"@, at);
    assert(at == here);
    let after = name.skip(at + 2);
    assert(after =~= side + rest);
    let n = lemma_first_word(side, rest);
    let word = words(after)[0];
    lemma_split_whole(side, '(');
    if n == 0 {
        assert(word =~= side);
        assert(trimmed_end(side, ')') == side);
    } else {
        let m = lemma_trimmed_keeps(word, ')', side.len() as int);
        let kept = word.take(m);
        let tail = kept.skip(side.len() as int + 1);
        assert(kept =~= side.push('(') + tail);
        lemma_split_at(side, '(', tail);
        assert(split(kept, '(')[0] == side);
    }
}

/// The digits of a port hold none of the characters that structure an address.
proof fn lemma_port_digits(port: u16)
    ensures
        decimal(port as nat).len() > 0,
        is_word(decimal(port as nat)),
        forall|i: int|
            0 <= i < decimal(port as nat).len() ==> '0' <= #[trigger] decimal(port as nat)[i] <= '9',
{
    let digits = decimal(port as nat);
    lemma_decimal_value(port as nat);
    assert forall|i: int| 0 <= i < digits.len() implies '0' <= #[trigger] digits[i] <= '9'
        && !is_space(digits[i]) by {
        assert(is_digit(digits[i]));
    }
}

/// A word without opening parentheses, with a port behind it, can stand as a remote side.
proof fn lemma_side_of(front: Seq<char>, port: u16)
    requires
        is_word(front),
        !front.contains('('),
    ensures
        can_be_side(front + decimal(port as nat)),
{
    let digits = decimal(port as nat);
    let side = front + digits;
    lemma_port_digits(port);
    assert(side.last() == digits[digits.len() - 1]);
    assert forall|i: int| 0 <= i < side.len() implies !is_space(#[trigger] side[i]) by {
        if i < front.len() {
            assert(!is_space(front[i]));
        } else {
            assert(!is_space(digits[i - front.len()]));
        }
    }
    if side.contains('(') {
        let k = choose|k: int| 0 <= k < side.len() && side[k] == '(';
        if k < front.len() {
            assert(front[k] == '(');
        } else {
            assert(digits[k - front.len()] == '(');
        }
    }
}

/// What is read from an address with this remote host and port: both, unless the host is this machine
/// itself.
pub open spec fn address_read(host: Seq<char>, port: u16) -> Option<(Seq<char>, u16)> {
    if loopback(host) {
        None
    } else {
        Some((host, port))
    }
}

/// An address that is written with an arrow between the local and the remote side reads back,
/// whatever its local side is and whatever follows it.
pub proof fn lemma_address_read_back(
    local: Seq<char>,
    host: Seq<char>,
    port: u16,
    rest: Seq<char>,
)
    requires
        !has_infix(local, "->"@),
        is_word(host),
        !host.contains('('),
        !host.contains(']'),
        ends_address(rest),
    ensures
        ({
            let name = local + "->"@ + (host + ":"@ + decimal(port as nat)) + rest;
            address_fits(name) && remote_address(name) == address_read(host, port)
        }),
{
    reveal_strlit(":");
    let digits = decimal(port as nat);
    let front = host + ":"@;
    let side = front + digits;
    assert forall|i: int| 0 <= i < front.len() implies !is_space(#[trigger] front[i]) by {
        if i < host.len() {
            assert(!is_space(host[i]));
        }
    }
    if front.contains('(') {
        let k = choose|k: int| 0 <= k < front.len() && front[k] == '(';
        assert(host[k] == '(');
    }
    lemma_side_of(front, port);
    lemma_side_read_back(local, side, rest);
    lemma_port_digits(port);
    if side.contains(']') {
        let k = choose|k: int| 0 <= k < side.len() && side[k] == ']';
        if k < host.len() {
            assert(host[k] == ']');
        } else if k > host.len() {
            assert(digits[k - front.len()] == ']');
        }
    }
    let here = host.len() as int;
    assert(side[here] == ':');
    assert forall|j: int| here < j < side.len() implies side[j] != ':' by {
        assert(side[j] == digits[j - front.len()]);
    }
    assert(is_last_char(side, ':', here));
    let colon = choose|colon: int| is_last_char(side, ':', colon);
    assert(colon == here);
    assert(side.take(colon) =~= host);
    assert(side.skip(colon + 1) =~= digits);
    lemma_decimal_round_trip(port as nat, u16::MAX as nat);
}

/// An address whose remote host stands in brackets reads back as well.
pub proof fn lemma_bracketed_address_read_back(
    local: Seq<char>,
    host: Seq<char>,
    port: u16,
    rest: Seq<char>,
)
    requires
        !has_infix(local, "->"@),
        is_word(host),
        !host.contains('('),
        !host.contains(']'),
        ends_address(rest),
    ensures
        ({
            let name = local + "->"@ + ("["@ + host + "]:"@ + decimal(port as nat)) + rest;
            address_fits(name) && remote_address(name) == address_read(host, port)
        }),
{
    reveal_strlit("[");
    reveal_strlit("]:");
    let digits = decimal(port as nat);
    let front = "["@ + host + "]:"@;
    let side = front + digits;
    let here = host.len() as int + 1;
    assert forall|i: int| 0 <= i < front.len() implies !is_space(#[trigger] front[i]) by {
        if 0 < i < here {
            assert(!is_space(host[i - 1]));
        }
    }
    if front.contains('(') {
        let k = choose|k: int| 0 <= k < front.len() && front[k] == '(';
        assert(host[k - 1] == '(');
    }
    lemma_side_of(front, port);
    lemma_side_read_back(local, side, rest);
    assert(side[here] == ']');
    assert(side.contains(']'));
    assert forall|j: int| 0 <= j < here implies side[j] != ']' by {
        if j > 0 {
            assert(side[j] == host[j - 1]);
        }
    }
    assert(is_first_char(side, ']', here));
    let end = choose|end: int| is_first_char(side, ']', end);
    assert(end == here);
    assert(side[end + 1] == ':');
    assert(side.subrange(1, end) =~= host);
    assert(side.skip(end + 2) =~= digits);
    lemma_decimal_round_trip(port as nat, u16::MAX as nat);
}

/// The name of a connection in `lsof` notation: the local side, an arrow, the remote host, in
/// brackets or not, the port, and whatever follows.
pub open spec fn written_name(
    local: Seq<char>,
    host: Seq<char>,
    bracketed: bool,
    port: u16,
    rest: Seq<char>,
) -> Seq<char> {
    if bracketed {
        local + "->"@ + ("["@ + host + "]:"@ + decimal(port as nat)) + rest
    } else {
        local + "->"@ + (host + ":"@ + decimal(port as nat)) + rest
    }
}

/// Whether a host is one of the names of this machine: its own name or address, or an address that
/// begins as those do, in either notation.
pub proof fn lemma_loopback_names(host: Seq<char>)
    ensures
        loopback(host) <==> {
            ||| host == "localhost"@
            ||| host == "::1"@
            ||| exists|end: Seq<char>| host == #[trigger] ("127."@ + end)
            ||| exists|end: Seq<char>| host == #[trigger] ("::ffff:127."@ + end)
        },
{
    reveal_strlit("127.");
    reveal_strlit("127.0.0.1");
    reveal_strlit("::ffff:127.");
    reveal_strlit("::ffff:127.0.0.1");
    assert("127.0.0.1"@.subrange(0, 4) =~= "127."@);
    assert("::ffff:127.0.0.1"@.subrange(0, 11) =~= "::ffff:127."@);
    lemma_begins(host, "127."@);
    lemma_begins(host, "::ffff:127."@);
}

proof fn lemma_begins(text: Seq<char>, start: Seq<char>)
    ensures
        has_prefix(text, start) <==> exists|end: Seq<char>| text == #[trigger] (start + end),
{
    let n = start.len() as int;
    if has_prefix(text, start) {
        assert(text =~= text.subrange(0, n) + text.skip(n));
        assert(text == start + text.skip(n));
    }
    if exists|end: Seq<char>| text == #[trigger] (start + end) {
        let end = choose|end: Seq<char>| text == #[trigger] (start + end);
        assert(text.subrange(0, n) =~= start);
    }
}

/// A line of `lsof` output that names a process, a protocol and a remote host that is not this
/// machine, adds exactly that connection, whatever stands in its other columns.
pub proof fn lemma_row_adds_connection(
    before: Seq<char>,
    line: Seq<char>,
    pid: u32,
    local: Seq<char>,
    host: Seq<char>,
    bracketed: bool,
    port: u16,
    rest: Seq<char>,
    protocol: Protocol,
)
    requires
        is_whole_lines(before),
        before.len() > 0,
        is_line(line),
        words(line).len() >= 9,
        words(line)[1] == decimal(pid as nat),
        protocol is Tcp ==> uppercase(words(line)[7]) == "TCP"@,
        protocol is Udp ==> uppercase(words(line)[7]) == "UDP"@,
        words(line)[8] == written_name(local, host, bracketed, port, rest),
        !has_infix(local, "->"@),
        is_word(host),
        !host.contains('('),
        !host.contains(']'),
        ends_address(rest),
        !loopback(host),
    ensures
        listed_connections(before + line.push('\n')) == listed_connections(before).push(
            (pid, host, port, protocol),
        ),
{
    reveal_strlit("TCP");
    reveal_strlit("UDP");
    if bracketed {
        lemma_bracketed_address_read_back(local, host, port, rest);
    } else {
        lemma_address_read_back(local, host, port, rest);
    }
    lemma_decimal_round_trip(pid as nat, u32::MAX as nat);
    assert("TCP"@ != "UDP"@) by {
        assert("TCP"@[0] != "UDP"@[0]);
    }
    lemma_read_one_line(before, line);
}

/// A line of `lsof` output adds nothing where it has fewer than nine columns, no process number in
/// the second, another protocol than TCP and UDP in the eighth, no arrow in the ninth, or the name of
/// this machine behind the arrow. The first line, its heading, never adds anything.
pub proof fn lemma_row_adds_nothing(
    before: Seq<char>,
    line: Seq<char>,
    local: Seq<char>,
    host: Seq<char>,
    bracketed: bool,
    port: u16,
    rest: Seq<char>,
)
    requires
        is_whole_lines(before),
        before.len() > 0,
        is_line(line),
        ({
            ||| words(line).len() < 9
            ||| unsigned_value(words(line)[1], u32::MAX as nat) is None
            ||| uppercase(words(line)[7]) != "TCP"@ && uppercase(words(line)[7]) != "UDP"@
            ||| !has_infix(words(line)[8], "->"@)
            ||| {
                &&& words(line)[8] == written_name(local, host, bracketed, port, rest)
                &&& !has_infix(local, "->"@)
                &&& is_word(host)
                &&& !host.contains('(')
                &&& !host.contains(']')
                &&& ends_address(rest)
                &&& loopback(host)
            }
        }),
    ensures
        listed_connections(before + line.push('\n')) == listed_connections(before),
        listed_connections(line) == Seq::<Connection>::empty(),
        listed_connections(line.push('\n')) == Seq::<Connection>::empty(),
{
    lemma_read_one_line(before, line);
    if words(line).len() >= 9 && has_infix(words(line)[8], "->"@) && words(line)[8] == written_name(
        local,
        host,
        bracketed,
        port,
        rest,
    ) && !has_infix(local, "->"@) && is_word(host) && !host.contains('(') && !host.contains(']')
        && ends_address(rest) && loopback(host) {
        if bracketed {
            lemma_bracketed_address_read_back(local, host, port, rest);
        } else {
            lemma_address_read_back(local, host, port, rest);
        }
    }
    lemma_one_line(line);
    lemma_split_whole(line, '\n');
    reveal(Seq::filter_map);
    assert(rows(line) =~= Seq::empty());
    assert(rows(line.push('\n')) =~= Seq::empty());
}

/// The notations of process numbers.
pub open spec fn decimals(pids: Seq<u32>) -> Seq<Seq<char>> {
    pids.map_values(|pid: u32| decimal(pid as nat))
}

/// The arguments that have `lsof` list the connections of these processes.
pub fn lsof_arguments(pids: &Vec<u32>) -> (r: Vec<String>)
    ensures
        texts(r@) == seq!["-i"@, "-n"@, "-P"@, "-a"@, "-p"@, join(decimals(pids@), ","@)],
{
    let mut notations: Vec<String> = Vec::new();
    let mut i: usize = 0;
    while i < pids.len()
        invariant
            i <= pids@.len(),
            texts(notations@) == decimals(pids@).take(i as int),
        decreases pids@.len() - i,
    {
        let ghost before = texts(notations@);
        let notation = format_u128(pids[i] as u128);
        let ghost added = notation@;
        notations.push(notation);
        i += 1;
        assert(texts(notations@) =~= before.push(added));
        assert(texts(notations@) =~= decimals(pids@).take(i as int));
    }
    assert(decimals(pids@).take(i as int) =~= decimals(pids@));
    let mut out: Vec<String> = Vec::new();
    out.push("-i".to_owned());
    out.push("-n".to_owned());
    out.push("-P".to_owned());
    out.push("-a".to_owned());
    out.push("-p".to_owned());
    out.push(join_strings(&notations, ","));
    assert(texts(out@) =~= seq![
        "-i"@,
        "-n"@,
        "-P"@,
        "-a"@,
        "-p"@,
        join(decimals(pids@), ","@),
    ]);
    out
}

/// One more event tells of one more connection: its process, host, port and protocol, whenever it was
/// seen.
pub proof fn lemma_one_more_event(events: Seq<NetworkEvent>, event: NetworkEvent)
    ensures
        connections(Seq::empty()) == Seq::<Connection>::empty(),
        connections(events.push(event)) == connections(events).push(
            (event.pid, event.remote_host@, event.remote_port, event.protocol),
        ),
{
    assert(connections(Seq::empty()) =~= Seq::<Connection>::empty());
    assert(connections(events.push(event)) =~= connections(events).push(connection(event)));
}

} // verus!
