//! The rules of the network layer: which connections are kept, which message is which, and how a
//! block is asked for and handed over.

use libp2p::multiaddr::Protocol;
use libp2p::Multiaddr;
use vstd::prelude::*;

use crate::bytes::{
    be_bytes, be_value, lemma_be_bytes_len, lemma_be_round_trip, lemma_pow256, part, to_vec,
    u32_from_be, u32_to_be, u64_from_be, u64_to_be,
};
use crate::text::{decimal, decimal_text, digit_char, digits_text, in_base, joined, same_text};

verus! {

/// How many connections a node keeps.
pub const MAX_CONNECTIONS_TOTAL: u32 = 100;

/// How many connections a node keeps with one peer.
pub const MAX_CONNECTIONS_PER_PEER: u32 = 4;

/// How many connections a node keeps with one neighbourhood of the network.
pub const MAX_CONNECTIONS_PER_NETGROUP: usize = 8;

/// Seconds between two rotations of the oldest outbound connection.
pub const OUTBOUND_ROTATION_INTERVAL: u64 = 600;

/// Milliseconds to wait before a message that found no subscriber is published again.
pub const PUBLISH_RETRY_DELAY: u64 = 500;

/// The size of the largest block that is taken from a peer.
pub const MAX_BLOCK_RESPONSE_BYTES: u32 = 16_777_216;

/// The protocol by which blocks are asked for.
pub const BLOCK_SYNC_PROTOCOL: &'static str = "/znx/block-sync/1";

/// The topic of transactions that are in no block yet.
pub const TX_TOPIC: &'static str = "/znx/tx/1";

/// The topic of new blocks.
pub const BLOCKS_TOPIC: &'static str = "/znx/blocks/1";

/// The address of a peer, as the network library holds it: a list of protocols.
#[verifier::external_type_specification]
#[verifier::external_body]
pub struct ExMultiaddr(libp2p::Multiaddr);

/// One protocol of an address, with what grouping reads of it.
#[derive(Debug, Clone)]
pub enum AddressPart {
    Ip4([u8; 4]),
    Ip6([u16; 8]),
    Dns(String),
    Dns4(String),
    Dns6(String),
    Other,
}

/// [`AddressPart`] with host names as sequences.
pub enum AddressPartView {
    Ip4([u8; 4]),
    Ip6([u16; 8]),
    Dns(Seq<char>),
    Dns4(Seq<char>),
    Dns6(Seq<char>),
    Other,
}

impl View for AddressPart {
    type V = AddressPartView;

    open spec fn view(&self) -> AddressPartView {
        match *self {
            AddressPart::Ip4(octets) => AddressPartView::Ip4(octets),
            AddressPart::Ip6(segments) => AddressPartView::Ip6(segments),
            AddressPart::Dns(name) => AddressPartView::Dns(name@),
            AddressPart::Dns4(name) => AddressPartView::Dns4(name@),
            AddressPart::Dns6(name) => AddressPartView::Dns6(name@),
            AddressPart::Other => AddressPartView::Other,
        }
    }
}

pub open spec fn part_views(parts: Seq<AddressPart>) -> Seq<AddressPartView> {
    Seq::new(parts.len(), |i: int| parts[i]@)
}

/// The protocols that an address is made of, from the front.
pub uninterp spec fn address_protocols(addr: Multiaddr) -> Seq<AddressPartView>;

/// An address as text.
pub uninterp spec fn address_text(addr: Multiaddr) -> Seq<char>;

/// `Multiaddr::iter` hands out the protocols of an address from the front. Each is taken over as
/// it is where it names a host, and as [`AddressPart::Other`] where it does not.
#[verifier::external_body]
fn protocols_of(addr: &Multiaddr) -> (r: Vec<AddressPart>)
    ensures
        part_views(r@) == address_protocols(*addr),
{
    addr.iter().map(|protocol| match protocol {
        Protocol::Ip4(ip) => AddressPart::Ip4(ip.octets()),
        Protocol::Ip6(ip) => AddressPart::Ip6(ip.segments()),
        Protocol::Dns(name) => AddressPart::Dns(name.into_owned()),
        Protocol::Dns4(name) => AddressPart::Dns4(name.into_owned()),
        Protocol::Dns6(name) => AddressPart::Dns6(name.into_owned()),
        _ => AddressPart::Other,
    }).collect()
}

/// `Multiaddr`'s `to_string` writes an address as text, which depends on the address alone.
#[verifier::external_body]
fn text_of_address(addr: &Multiaddr) -> (r: String)
    ensures
        r@ == address_text(*addr),
{
    addr.to_string()
}

/// The neighbourhood of an IPv4 address: its first two octets.
pub open spec fn ip4_group(octets: [u8; 4]) -> Seq<char> {
    "v4:"@ + decimal_text(octets@[0] as nat) + "."@ + decimal_text(octets@[1] as nat)
}

/// The neighbourhood of an IPv6 address: its first two groups of hexadecimal digits.
pub open spec fn ip6_group(segments: [u16; 8]) -> Seq<char> {
    "v6:"@ + digits_text(segments@[0] as nat, 16) + ":"@ + digits_text(segments@[1] as nat, 16)
}

/// The neighbourhood that a protocol of an address gives, if it names a host.
pub open spec fn part_group(p: AddressPartView) -> Option<Seq<char>> {
    match p {
        AddressPartView::Ip4(octets) => Some(ip4_group(octets)),
        AddressPartView::Ip6(segments) => Some(ip6_group(segments)),
        AddressPartView::Dns(name) => Some("dns:"@ + name),
        AddressPartView::Dns4(name) => Some("dns:"@ + name),
        AddressPartView::Dns6(name) => Some("dns:"@ + name),
        AddressPartView::Other => None,
    }
}

/// The neighbourhood of an address: that of the first protocol that names a host, or one of its
/// own.
pub open spec fn netgroup(parts: Seq<AddressPartView>, text: Seq<char>) -> Seq<char>
    decreases parts.len(),
{
    if parts.len() == 0 {
        "unknown:"@ + text
    } else {
        match part_group(parts[0]) {
            Some(group) => group,
            None => netgroup(parts.skip(1), text),
        }
    }
}

fn group_of_part(p: &AddressPart) -> (r: Option<String>)
    ensures
        match r {
            Some(group) => part_group(p@) == Some(group@),
            None => part_group(p@) is None,
        },
{
    match p {
        AddressPart::Ip4(octets) => {
            let mut out = joined("v4:", decimal(octets[0] as u128).as_str(), ".");
            out.append(decimal(octets[1] as u128).as_str());
            Some(out)
        },
        AddressPart::Ip6(segments) => {
            let mut out = joined("v6:", in_base(segments[0] as u128, 16).as_str(), ":");
            out.append(in_base(segments[1] as u128, 16).as_str());
            Some(out)
        },
        AddressPart::Dns(name) => Some(named_group(name)),
        AddressPart::Dns4(name) => Some(named_group(name)),
        AddressPart::Dns6(name) => Some(named_group(name)),
        AddressPart::Other => None,
    }
}

fn named_group(name: &String) -> (r: String)
    ensures
        r@ == "dns:"@ + name@,
{
    let mut out = "dns:".to_owned();
    out.append(name.as_str());
    out
}

/// The neighbourhood of the network that an address belongs to, from its protocols and its text.
pub fn netgroup_of_parts(parts: &Vec<AddressPart>, text: &str) -> (r: String)
    ensures
        r@ == netgroup(part_views(parts@), text@),
{
    let ghost views = part_views(parts@);
    let mut i: usize = 0;
    assert(views.skip(0) =~= views);
    while i < parts.len()
        invariant
            i <= parts.len(),
            views == part_views(parts@),
            netgroup(views, text@) == netgroup(views.skip(i as int), text@),
        decreases parts.len() - i,
    {
        assert(views.skip(i as int).skip(1) =~= views.skip(i + 1));
        match group_of_part(&parts[i]) {
            Some(group) => {
                return group;
            },
            None => {},
        }
        i += 1;
    }
    let mut out = "unknown:".to_owned();
    out.append(text);
    out
}

/// The neighbourhood of the network that an address belongs to: the first two octets of an IPv4
/// address, the first two groups of an IPv6 address, or the host name.
pub fn netgroup_of(addr: &Multiaddr) -> (r: String)
    ensures
        r@ == netgroup(address_protocols(*addr), address_text(*addr)),
{
    let parts = protocols_of(addr);
    let text = text_of_address(addr);
    netgroup_of_parts(&parts, text.as_str())
}

/// What comes before and after the first separator of a text is determined by it.
proof fn lemma_split(a: Seq<char>, b: Seq<char>, c: Seq<char>, d: Seq<char>, sep: char)
    requires
        a.push(sep) + b == c.push(sep) + d,
        !a.contains(sep),
        !c.contains(sep),
    ensures
        a == c,
        b == d,
{
    let s = a.push(sep) + b;
    if a.len() < c.len() {
        assert(s[a.len() as int] == sep);
        assert(c[a.len() as int] == sep);
        assert(false);
    }
    if c.len() < a.len() {
        assert((c.push(sep) + d)[c.len() as int] == sep);
        assert(a[c.len() as int] == sep);
        assert(false);
    }
    assert(a =~= s.take(a.len() as int));
    assert(c =~= s.take(a.len() as int));
    assert(b =~= s.skip(a.len() as int + 1));
    assert(d =~= s.skip(a.len() as int + 1));
}

proof fn lemma_digits_injective(n: nat, m: nat, base: nat)
    requires
        2 <= base <= 16,
        digits_text(n, base) == digits_text(m, base),
    ensures
        n == m,
    decreases n,
{
    let s = digits_text(n, base);
    let t = digits_text(m, base);
    if n >= base && m >= base {
        assert(n / base < n) by (nonlinear_arith)
            requires
                base >= 2,
                n >= base,
        ;
        assert(s.drop_last() =~= digits_text(n / base, base));
        assert(t.drop_last() =~= digits_text(m / base, base));
        lemma_digits_injective(n / base, m / base, base);
        assert(s.last() == digit_char(n % base));
        assert(t.last() == digit_char(m % base));
        assert(n % base < base && m % base < base) by (nonlinear_arith)
            requires
                base >= 2,
        ;
        assert(n % base == m % base);
        vstd::arithmetic::div_mod::lemma_fundamental_div_mod(n as int, base as int);
        vstd::arithmetic::div_mod::lemma_fundamental_div_mod(m as int, base as int);
    } else {
        lemma_digits_nonempty(n / base, base);
        lemma_digits_nonempty(m / base, base);
        assert(n >= base ==> s.len() > 1);
        assert(m >= base ==> t.len() > 1);
        assert(s[0] == digit_char(n) && t[0] == digit_char(m));
    }
}

proof fn lemma_digits_nonempty(n: nat, base: nat)
    ensures
        digits_text(n, base).len() > 0,
{
}

proof fn lemma_digits_hold_no(n: nat, base: nat, sep: char)
    requires
        2 <= base <= 16,
        sep == '.' || sep == ':',
    ensures
        !digits_text(n, base).contains(sep),
    decreases n,
{
    let s = digits_text(n, base);
    if n >= base {
        assert(n / base < n) by (nonlinear_arith)
            requires
                base >= 2,
                n >= base,
        ;
        assert(n % base < base) by (nonlinear_arith)
            requires
                base >= 2,
        ;
        lemma_digits_hold_no(n / base, base, sep);
        let front = digits_text(n / base, base);
        assert forall|i: int| 0 <= i < s.len() implies s[i] != sep by {
            if i < front.len() {
                assert(s[i] == front[i]);
                assert(front.contains(front[i]));
            }
        }
    }
}

/// Two IPv4 addresses are in one neighbourhood exactly where their first two octets agree.
pub proof fn ip4_neighbours_share_two_octets(a: [u8; 4], b: [u8; 4])
    ensures
        (ip4_group(a) == ip4_group(b)) <==> (a@[0] == b@[0] && a@[1] == b@[1]),
{
    reveal_strlit("v4:");
    reveal_strlit(".");
    if ip4_group(a) == ip4_group(b) {
        let (p, q) = (decimal_text(a@[0] as nat), decimal_text(a@[1] as nat));
        let (r, s) = (decimal_text(b@[0] as nat), decimal_text(b@[1] as nat));
        assert(p.push('.') + q =~= ip4_group(a).skip(3));
        assert(r.push('.') + s =~= ip4_group(b).skip(3));
        lemma_digits_hold_no(a@[0] as nat, 10, '.');
        lemma_digits_hold_no(b@[0] as nat, 10, '.');
        lemma_split(p, q, r, s, '.');
        lemma_digits_injective(a@[0] as nat, b@[0] as nat, 10);
        lemma_digits_injective(a@[1] as nat, b@[1] as nat, 10);
    }
}

/// Two IPv6 addresses are in one neighbourhood exactly where their first two groups agree.
pub proof fn ip6_neighbours_share_two_groups(a: [u16; 8], b: [u16; 8])
    ensures
        (ip6_group(a) == ip6_group(b)) <==> (a@[0] == b@[0] && a@[1] == b@[1]),
{
    reveal_strlit("v6:");
    reveal_strlit(":");
    if ip6_group(a) == ip6_group(b) {
        let (p, q) = (digits_text(a@[0] as nat, 16), digits_text(a@[1] as nat, 16));
        let (r, s) = (digits_text(b@[0] as nat, 16), digits_text(b@[1] as nat, 16));
        assert(p.push(':') + q =~= ip6_group(a).skip(3));
        assert(r.push(':') + s =~= ip6_group(b).skip(3));
        lemma_digits_hold_no(a@[0] as nat, 16, ':');
        lemma_digits_hold_no(b@[0] as nat, 16, ':');
        lemma_split(p, q, r, s, ':');
        lemma_digits_injective(a@[0] as nat, b@[0] as nat, 16);
        lemma_digits_injective(a@[1] as nat, b@[1] as nat, 16);
    }
}

/// Two host names are in one neighbourhood exactly where they are the same, and a host name never
/// shares a neighbourhood with an IP address.
pub proof fn named_neighbours_share_the_name(
    a: Seq<char>,
    b: Seq<char>,
    four: [u8; 4],
    six: [u16; 8],
)
    ensures
        ("dns:"@ + a == "dns:"@ + b) <==> a == b,
        "dns:"@ + a != ip4_group(four),
        "dns:"@ + a != ip6_group(six),
        ip4_group(four) != ip6_group(six),
{
    reveal_strlit("dns:");
    reveal_strlit("v4:");
    reveal_strlit("v6:");
    assert(("dns:"@ + a).skip(4) =~= a);
    assert(("dns:"@ + b).skip(4) =~= b);
    assert(("dns:"@ + a)[0] == 'd');
    assert(ip4_group(four)[0] == 'v' && ip4_group(four)[1] == '4');
    assert(ip6_group(six)[0] == 'v' && ip6_group(six)[1] == '6');
}

/// A live connection: its number, its neighbourhood, and when it was dialled if this node dialled
/// it.
#[derive(Debug, Clone)]
pub struct Connection {
    pub id: u64,
    pub group: String,
    pub dialed_at: Option<u64>,
}

/// [`Connection`] with its neighbourhood as a sequence.
pub struct ConnectionView {
    pub id: u64,
    pub group: Seq<char>,
    pub dialed_at: Option<u64>,
}

impl View for Connection {
    type V = ConnectionView;

    open spec fn view(&self) -> ConnectionView {
        ConnectionView { id: self.id, group: self.group@, dialed_at: self.dialed_at }
    }
}

/// How many of the connections are with a neighbourhood.
pub open spec fn group_size(connections: Seq<ConnectionView>, group: Seq<char>) -> nat
    decreases connections.len(),
{
    if connections.len() == 0 {
        0
    } else {
        group_size(connections.drop_last(), group) + if connections.last().group == group {
            1nat
        } else {
            0nat
        }
    }
}

/// How many of the connections this node dialled.
pub open spec fn outbound_count(connections: Seq<ConnectionView>) -> nat
    decreases connections.len(),
{
    if connections.len() == 0 {
        0
    } else {
        outbound_count(connections.drop_last()) + if connections.last().dialed_at is Some {
            1nat
        } else {
            0nat
        }
    }
}

/// The connections but for the one with a number.
pub open spec fn without(connections: Seq<ConnectionView>, id: u64) -> Seq<ConnectionView> {
    connections.filter(|c: ConnectionView| c.id != id)
}

pub open spec fn has_connection(connections: Seq<ConnectionView>, id: u64) -> bool {
    exists|i: int| 0 <= i < connections.len() && (#[trigger] connections[i]).id == id
}

/// Whether a connection is one that this node dialled, and dialled no later than any other.
pub open spec fn is_oldest_outbound(connections: Seq<ConnectionView>, i: int) -> bool {
    &&& 0 <= i < connections.len()
    &&& connections[i].dialed_at is Some
    &&& forall|j: int|
        0 <= j < connections.len() && (#[trigger] connections[j]).dialed_at is Some
            ==> connections[i].dialed_at->0 <= connections[j].dialed_at->0
}

/// The connections that a node keeps.
pub struct PeerTable {
    connections: Vec<Connection>,
}

impl View for PeerTable {
    type V = Seq<ConnectionView>;

    closed spec fn view(&self) -> Seq<ConnectionView> {
        Seq::new(self.connections@.len(), |i: int| self.connections@[i]@)
    }
}

proof fn lemma_without(s: Seq<ConnectionView>, i: int)
    requires
        0 <= i < s.len(),
        forall|j: int, k: int| 0 <= j < k < s.len() ==> (#[trigger] s[j]).id != (#[trigger] s[k]).id,
    ensures
        without(s, s[i].id) == s.remove(i),
    decreases s.len(),
{
    reveal(Seq::filter);
    let id = s[i].id;
    let front = s.drop_last();
    if i == s.len() - 1 {
        lemma_without_absent(front, id);
        assert(s.remove(i) =~= front);
    } else {
        assert(front[i] == s[i]);
        lemma_without(front, i);
        assert(s.last().id != id);
        assert(s.remove(i) =~= front.remove(i).push(s.last()));
    }
}

proof fn lemma_without_absent(s: Seq<ConnectionView>, id: u64)
    requires
        !has_connection(s, id),
    ensures
        without(s, id) == s,
    decreases s.len(),
{
    reveal(Seq::filter);
    if s.len() > 0 {
        let front = s.drop_last();
        assert forall|i: int| 0 <= i < front.len() implies (#[trigger] front[i]).id != id by {
            assert(front[i] == s[i]);
        }
        lemma_without_absent(front, id);
        assert(s[s.len() - 1].id != id);
        assert(front.push(s.last()) =~= s);
    }
}

proof fn lemma_counts_after_removal(s: Seq<ConnectionView>, i: int, group: Seq<char>)
    requires
        0 <= i < s.len(),
    ensures
        group_size(s.remove(i), group) <= group_size(s, group),
        outbound_count(s.remove(i)) + 1 >= outbound_count(s),
    decreases s.len(),
{
    let front = s.drop_last();
    if i == s.len() - 1 {
        assert(s.remove(i) =~= front);
    } else {
        lemma_counts_after_removal(front, i, group);
        assert(s.remove(i).drop_last() =~= front.remove(i));
        assert(s.remove(i).last() == s.last());
    }
}

proof fn lemma_outbound_take(s: Seq<ConnectionView>, n: int)
    requires
        0 <= n <= s.len(),
    ensures
        outbound_count(s.take(n)) <= outbound_count(s),
    decreases s.len() - n,
{
    if n == s.len() {
        assert(s.take(n) =~= s);
    } else {
        lemma_outbound_take(s, n + 1);
        assert(s.take(n + 1).drop_last() =~= s.take(n));
    }
}

impl PeerTable {
    /// No number is used twice, and no neighbourhood has more connections than it may.
    pub open spec fn wf(self) -> bool {
        &&& forall|i: int, j: int|
            0 <= i < j < self@.len() ==> (#[trigger] self@[i]).id != (#[trigger] self@[j]).id
        &&& forall|group: Seq<char>| #[trigger]
            group_size(self@, group) <= MAX_CONNECTIONS_PER_NETGROUP
    }

    /// A table without connections.
    pub fn new() -> (r: PeerTable)
        ensures
            r@ == Seq::<ConnectionView>::empty(),
            r.wf(),
    {
        let r = PeerTable { connections: Vec::new() };
        assert(r@ =~= Seq::<ConnectionView>::empty());
        r
    }

    fn size_of(&self, group: &str) -> (r: usize)
        ensures
            r == group_size(self@, group@),
    {
        let mut n: usize = 0;
        let mut i: usize = 0;
        assert(self@.take(0) =~= Seq::<ConnectionView>::empty());
        while i < self.connections.len()
            invariant
                i <= self.connections.len(),
                n <= i,
                n == group_size(self@.take(i as int), group@),
                self@.len() == self.connections@.len(),
            decreases self.connections.len() - i,
        {
            assert(self@.take(i + 1).drop_last() =~= self@.take(i as int));
            assert(self@.take(i + 1).last() == self.connections@[i as int]@);
            if same_text(self.connections[i].group.as_str(), group) {
                n += 1;
            }
            i += 1;
        }
        assert(self@.take(self@.len() as int) =~= self@);
        n
    }

    /// Takes in a new connection, unless its neighbourhood has as many as it may. Says whether the
    /// connection is kept.
    pub fn established(&mut self, id: u64, group: String, dialed_at: Option<u64>) -> (kept: bool)
        requires
            old(self).wf(),
            !has_connection(old(self)@, id),
        ensures
            final(self).wf(),
            kept == (group_size(old(self)@, group@) < MAX_CONNECTIONS_PER_NETGROUP),
            final(self)@ == (if kept {
                old(self)@.push(ConnectionView { id, group: group@, dialed_at })
            } else {
                old(self)@
            }),
    {
        if self.size_of(group.as_str()) >= MAX_CONNECTIONS_PER_NETGROUP {
            return false;
        }
        let ghost added = ConnectionView { id, group: group@, dialed_at };
        self.connections.push(Connection { id, group, dialed_at });
        proof {
            let before = old(self)@;
            assert(self@ =~= before.push(added));
            assert(self@.drop_last() =~= before);
            assert forall|g: Seq<char>| #[trigger]
                group_size(self@, g) <= MAX_CONNECTIONS_PER_NETGROUP by {
                assert(group_size(before, g) <= MAX_CONNECTIONS_PER_NETGROUP);
                if g == added.group {
                    assert(group_size(before, g) < MAX_CONNECTIONS_PER_NETGROUP);
                }
            }
            assert forall|i: int, j: int| 0 <= i < j < self@.len() implies (#[trigger] self@[i]).id
                != (#[trigger] self@[j]).id by {
                assert(self@[i] == before[i]);
                if j < before.len() {
                    assert(self@[j] == before[j]);
                }
            }
        }
        true
    }

    /// Forgets a connection that was closed. One that was never kept changes nothing.
    pub fn closed(&mut self, id: u64)
        requires
            old(self).wf(),
        ensures
            final(self).wf(),
            final(self)@ == without(old(self)@, id),
    {
        let ghost before = self@;
        let mut i: usize = 0;
        while i < self.connections.len()
            invariant
                i <= self.connections.len(),
                self@ == before,
                old(self)@ == before,
                self.wf(),
                forall|j: int| 0 <= j < i ==> (#[trigger] before[j]).id != id,
                self@.len() == self.connections@.len(),
            decreases self.connections.len() - i,
        {
            if self.connections[i].id == id {
                proof {
                    assert(before[i as int] == self.connections@[i as int]@);
                    lemma_without(before, i as int);
                    assert forall|group: Seq<char>| #[trigger]
                        group_size(before.remove(i as int), group)
                            <= MAX_CONNECTIONS_PER_NETGROUP by {
                        lemma_counts_after_removal(before, i as int, group);
                        assert(group_size(before, group) <= MAX_CONNECTIONS_PER_NETGROUP);
                    }
                }
                let _ = self.connections.remove(i);
                proof {
                    assert(self@ =~= before.remove(i as int));
                    assert forall|j: int, k: int| 0 <= j < k < self@.len() implies (
                    #[trigger] self@[j]).id != (#[trigger] self@[k]).id by {
                        let a = if j < i { j } else { j + 1 };
                        let b = if k < i { k } else { k + 1 };
                        assert(before[a].id != before[b].id);
                    }
                }
                return ;
            }
            assert(before[i as int] == self.connections@[i as int]@);
            i += 1;
        }
        proof {
            lemma_without_absent(before, id);
        }
    }

    /// Whether this node dialled any of its connections.
    pub fn has_outbound(&self) -> (r: bool)
        ensures
            r == (outbound_count(self@) > 0),
    {
        let mut i: usize = 0;
        assert(self@.take(0) =~= Seq::<ConnectionView>::empty());
        while i < self.connections.len()
            invariant
                i <= self.connections.len(),
                self@.len() == self.connections@.len(),
                outbound_count(self@.take(i as int)) == 0,
            decreases self.connections.len() - i,
        {
            proof {
                let now = self@.take(i + 1);
                assert(now.drop_last() =~= self@.take(i as int));
                assert(now.last() == self.connections@[i as int]@);
                lemma_outbound_take(self@, i + 1);
            }
            if self.connections[i].dialed_at.is_some() {
                return true;
            }
            i += 1;
        }
        assert(self@.take(self@.len() as int) =~= self@);
        false
    }

    /// The outbound connection to be closed at a rotation: the one that was dialled first, where
    /// there are two or more.
    pub fn oldest_outbound(&self) -> (r: Option<u64>)
        ensures
            match r {
                Some(id) => outbound_count(self@) > 1 && exists|i: int| #[trigger]
                    is_oldest_outbound(self@, i) && self@[i].id == id,
                None => outbound_count(self@) <= 1,
            },
    {
        let mut count: usize = 0;
        let mut oldest: usize = 0;
        let mut since: u64 = 0;
        let mut i: usize = 0;
        assert(self@.take(0) =~= Seq::<ConnectionView>::empty());
        while i < self.connections.len()
            invariant
                i <= self.connections.len(),
                self@.len() == self.connections@.len(),
                count <= i,
                count == outbound_count(self@.take(i as int)),
                count > 0 ==> is_oldest_outbound(self@.take(i as int), oldest as int)
                    && self@[oldest as int].dialed_at == Some(since),
                count == 0 ==> forall|j: int|
                    0 <= j < i ==> (#[trigger] self@[j]).dialed_at is None,
            decreases self.connections.len() - i,
        {
            let ghost now = self@.take(i + 1);
            proof {
                assert(now.drop_last() =~= self@.take(i as int));
                assert(now.last() == self.connections@[i as int]@);
                assert(self@[i as int] == self.connections@[i as int]@);
                assert forall|j: int| 0 <= j < i implies #[trigger] now[j] == self@.take(
                    i as int,
                )[j] by {}
            }
            match self.connections[i].dialed_at {
                Some(at) => {
                    if count == 0 || at < since {
                        oldest = i;
                        since = at;
                    }
                    count += 1;
                },
                None => {},
            }
            i += 1;
        }
        assert(self@.take(self@.len() as int) =~= self@);
        if count <= 1 {
            None
        } else {
            assert(is_oldest_outbound(self@, oldest as int));
            Some(self.connections[oldest].id)
        }
    }
}

/// Closing the connection that a rotation picks leaves the node with an outbound connection.
pub proof fn rotation_leaves_an_outbound(connections: Seq<ConnectionView>, i: int)
    requires
        forall|j: int, k: int|
            0 <= j < k < connections.len() ==> (#[trigger] connections[j]).id != (
            #[trigger] connections[k]).id,
        outbound_count(connections) > 1,
        is_oldest_outbound(connections, i),
    ensures
        outbound_count(without(connections, connections[i].id)) >= 1,
{
    lemma_without(connections, i);
    lemma_counts_after_removal(connections, i, Seq::empty());
}

/// What a gossiped message holds.
#[derive(Debug, Clone, Copy, PartialEq, Eq, Structural)]
pub enum TopicKind {
    Transaction,
    Block,
}

/// What messages on a topic hold. A message on any other topic is to be rejected.
pub open spec fn topic_kind(topic: Seq<char>) -> Option<TopicKind> {
    if topic == TX_TOPIC@ {
        Some(TopicKind::Transaction)
    } else if topic == BLOCKS_TOPIC@ {
        Some(TopicKind::Block)
    } else {
        None
    }
}

/// What messages on a topic hold, if it is one of the two that a node follows.
pub fn classify_topic(topic: &str) -> (r: Option<TopicKind>)
    ensures
        r == topic_kind(topic@),
{
    if same_text(topic, TX_TOPIC) {
        Some(TopicKind::Transaction)
    } else if same_text(topic, BLOCKS_TOPIC) {
        Some(TopicKind::Block)
    } else {
        None
    }
}

/// What happens on the network.
#[derive(Debug, Clone)]
pub enum NetworkEvent {
    /// A message came in on a topic.
    Message { topic: String },
    /// A connection with a neighbourhood was established, dialled by this node at a time or by the
    /// other side.
    Established { id: u64, group: String, dialed_at: Option<u64> },
    /// A connection was closed.
    Closed { id: u64 },
    /// It is time to rotate the outbound connections.
    RotationDue,
}

/// What a node does about it.
#[derive(Debug, Clone, Copy, PartialEq, Eq, Structural)]
pub enum NetworkAction {
    /// Hand the message on as what its topic says.
    Deliver(TopicKind),
    /// Reject the message.
    RejectMessage,
    /// Keep the connection and tell the node of the peer.
    Announce,
    /// Close the connection that was just established.
    Refuse,
    /// Close this connection and dial the known nodes again.
    Rotate(u64),
    /// Dial the known nodes again.
    Redial,
    /// Nothing.
    Nothing,
}

impl PeerTable {
    /// Decides what is done about what happens on the network. Messages are told apart by their
    /// topic; a connection is kept as long as its neighbourhood has room; at a rotation the oldest
    /// of several outbound connections goes. Where a connection closes or a rotation is due and no
    /// outbound connection is left, the known nodes are dialled again.
    pub fn handle(&mut self, event: NetworkEvent) -> (r: NetworkAction)
        requires
            old(self).wf(),
            event matches NetworkEvent::Established { id, group, dialed_at } ==> !has_connection(
                old(self)@,
                id,
            ),
        ensures
            final(self).wf(),
            match event {
                NetworkEvent::Message { topic } => final(self)@ == old(self)@ && r == (
                match topic_kind(topic@) {
                    Some(kind) => NetworkAction::Deliver(kind),
                    None => NetworkAction::RejectMessage,
                }),
                NetworkEvent::Established { id, group, dialed_at } => if group_size(
                    old(self)@,
                    group@,
                ) < MAX_CONNECTIONS_PER_NETGROUP {
                    r == NetworkAction::Announce && final(self)@ == old(self)@.push(
                        ConnectionView { id, group: group@, dialed_at },
                    )
                } else {
                    r == NetworkAction::Refuse && final(self)@ == old(self)@
                },
                NetworkEvent::Closed { id } => final(self)@ == without(old(self)@, id) && r == (
                if outbound_count(without(old(self)@, id)) == 0 {
                    NetworkAction::Redial
                } else {
                    NetworkAction::Nothing
                }),
                NetworkEvent::RotationDue => final(self)@ == old(self)@ && match r {
                    NetworkAction::Rotate(id) => outbound_count(old(self)@) > 1 && exists|i: int|
                        #[trigger] is_oldest_outbound(old(self)@, i) && old(self)@[i].id == id,
                    NetworkAction::Redial => outbound_count(old(self)@) == 0,
                    NetworkAction::Nothing => outbound_count(old(self)@) == 1,
                    _ => false,
                },
            },
    {
        match event {
            NetworkEvent::Message { topic } => match classify_topic(topic.as_str()) {
                Some(kind) => NetworkAction::Deliver(kind),
                None => NetworkAction::RejectMessage,
            },
            NetworkEvent::Established { id, group, dialed_at } => {
                if self.established(id, group, dialed_at) {
                    NetworkAction::Announce
                } else {
                    NetworkAction::Refuse
                }
            },
            NetworkEvent::Closed { id } => {
                self.closed(id);
                if self.has_outbound() {
                    NetworkAction::Nothing
                } else {
                    NetworkAction::Redial
                }
            },
            NetworkEvent::RotationDue => match self.oldest_outbound() {
                Some(id) => NetworkAction::Rotate(id),
                None => if self.has_outbound() {
                    NetworkAction::Nothing
                } else {
                    NetworkAction::Redial
                },
            },
        }
    }
}

/// A request for the block at a height: eight bytes, most significant first.
pub fn encode_block_request(height: u64) -> (r: [u8; 8])
    ensures
        r@ == be_bytes(height as nat, 8),
{
    u64_to_be(height)
}

/// The height that a request asks for.
pub fn decode_block_request(bytes: &[u8; 8]) -> (r: u64)
    ensures
        r as nat == be_value(bytes@),
{
    u64_from_be(bytes.as_slice())
}

/// An answer to a request: a zero byte where the block is not there, or else a one, the length in
/// four bytes and the block.
pub open spec fn response_bytes(response: Option<Seq<u8>>) -> Seq<u8> {
    match response {
        None => seq![0u8],
        Some(bytes) => seq![1u8] + be_bytes(bytes.len(), 4) + bytes,
    }
}

/// Writes an answer to a request.
pub fn encode_block_response(response: &Option<Vec<u8>>) -> (r: Vec<u8>)
    requires
        response matches Some(bytes) ==> bytes@.len() <= u32::MAX,
    ensures
        r@ == response_bytes(
            match *response {
                Some(bytes) => Some(bytes@),
                None => None,
            },
        ),
{
    let mut out: Vec<u8> = Vec::new();
    match response {
        None => {
            out.push(0);
            assert(out@ =~= seq![0u8]);
        },
        Some(bytes) => {
            out.push(1);
            let length = u32_to_be(bytes.len() as u32);
            let mut length = to_vec(length.as_slice());
            out.append(&mut length);
            let mut body = to_vec(bytes.as_slice());
            out.append(&mut body);
            assert(out@ =~= seq![1u8] + be_bytes(bytes@.len(), 4) + bytes@);
        },
    }
    out
}

/// What is known of an answer from the bytes of it that have come in.
#[derive(Debug, Clone, PartialEq, Eq)]
pub enum ResponseProgress {
    /// So many more bytes are needed.
    NeedMore(usize),
    /// The answer is complete.
    Complete(Option<Vec<u8>>),
    /// The answer announces a block that is larger than a block may be.
    TooLarge,
}

/// [`ResponseProgress`] with its bytes as a sequence.
pub enum ResponseProgressView {
    NeedMore(nat),
    Complete(Option<Seq<u8>>),
    TooLarge,
}

impl View for ResponseProgress {
    type V = ResponseProgressView;

    open spec fn view(&self) -> ResponseProgressView {
        match *self {
            ResponseProgress::NeedMore(n) => ResponseProgressView::NeedMore(n as nat),
            ResponseProgress::Complete(None) => ResponseProgressView::Complete(None),
            ResponseProgress::Complete(Some(bytes)) => ResponseProgressView::Complete(
                Some(bytes@),
            ),
            ResponseProgress::TooLarge => ResponseProgressView::TooLarge,
        }
    }
}

/// What the first bytes of an answer say. The length of a block is looked at before any of it is
/// waited for.
pub open spec fn response_progress(bytes: Seq<u8>) -> ResponseProgressView {
    let announced = be_value(bytes.subrange(1, 5));
    if bytes.len() == 0 {
        ResponseProgressView::NeedMore(1)
    } else if bytes[0] == 0 {
        ResponseProgressView::Complete(None)
    } else if bytes.len() < 5 {
        ResponseProgressView::NeedMore((5 - bytes.len()) as nat)
    } else if announced > MAX_BLOCK_RESPONSE_BYTES {
        ResponseProgressView::TooLarge
    } else if bytes.len() < 5 + announced {
        ResponseProgressView::NeedMore((5 + announced - bytes.len()) as nat)
    } else {
        ResponseProgressView::Complete(Some(bytes.subrange(5, 5 + announced as int)))
    }
}

/// Reads as much of an answer as has come in.
pub fn read_block_response(bytes: &[u8]) -> (r: ResponseProgress)
    ensures
        r@ == response_progress(bytes@),
{
    if bytes.len() == 0 {
        return ResponseProgress::NeedMore(1);
    }
    if bytes[0] == 0 {
        return ResponseProgress::Complete(None);
    }
    if bytes.len() < 5 {
        return ResponseProgress::NeedMore(5 - bytes.len());
    }
    let announced: u32 = u32_from_be(part(bytes, 1, 5));
    if announced > MAX_BLOCK_RESPONSE_BYTES {
        return ResponseProgress::TooLarge;
    }
    let end: usize = 5 + announced as usize;
    if bytes.len() < end {
        ResponseProgress::NeedMore(end - bytes.len())
    } else {
        ResponseProgress::Complete(Some(to_vec(part(bytes, 5, end))))
    }
}

/// A height survives being asked for.
pub proof fn request_round_trip(height: u64)
    ensures
        be_value(be_bytes(height as nat, 8)) == height,
{
    lemma_pow256();
    lemma_be_round_trip(height as nat, 8);
}

/// An answer that was written is read back whole, and the reader asks for no byte too many on the
/// way. One that holds more than a block may hold is refused as soon as its length is known.
pub proof fn response_round_trip(response: Option<Seq<u8>>, k: int)
    requires
        response matches Some(bytes) ==> bytes.len() <= u32::MAX,
        0 <= k <= response_bytes(response).len(),
    ensures
        ({
            let sent = response_bytes(response);
            let large = response is Some && response->0.len() > MAX_BLOCK_RESPONSE_BYTES;
            match response_progress(sent.take(k)) {
                ResponseProgressView::NeedMore(n) => 0 < n <= sent.len() - k,
                ResponseProgressView::Complete(got) => got == response && k == sent.len() && !large,
                ResponseProgressView::TooLarge => large,
            }
        }),
{
    let sent = response_bytes(response);
    let came = sent.take(k);
    match response {
        None => {},
        Some(bytes) => {
            lemma_pow256();
            lemma_be_bytes_len(bytes.len(), 4);
            lemma_be_round_trip(bytes.len(), 4);
            if k >= 5 {
                assert(came.subrange(1, 5) =~= be_bytes(bytes.len(), 4));
                if k == sent.len() {
                    assert(came.subrange(5, 5 + bytes.len() as int) =~= bytes);
                }
            }
        },
    }
}

/// The first protocol that names a host decides to which neighbourhood an address belongs,
/// whatever stands before and behind it: two octets of an IPv4 address, two groups of an IPv6
/// address, or the name, however it is to be resolved. An address without a host is a
/// neighbourhood of its own.
pub proof fn first_host_decides_the_neighbourhood(
    front: Seq<AddressPartView>,
    host: AddressPartView,
    rest: Seq<AddressPartView>,
    text: Seq<char>,
)
    requires
        forall|i: int| 0 <= i < front.len() ==> (#[trigger] front[i]) is Other,
    ensures
        host matches AddressPartView::Ip4(octets) ==> netgroup(front + seq![host] + rest, text)
            == "v4:"@ + decimal_text(octets@[0] as nat) + "."@ + decimal_text(octets@[1] as nat),
        host matches AddressPartView::Ip6(segments) ==> netgroup(front + seq![host] + rest, text)
            == "v6:"@ + digits_text(segments@[0] as nat, 16) + ":"@ + digits_text(
            segments@[1] as nat,
            16,
        ),
        host matches AddressPartView::Dns(name) ==> netgroup(front + seq![host] + rest, text)
            == "dns:"@ + name,
        host matches AddressPartView::Dns4(name) ==> netgroup(front + seq![host] + rest, text)
            == "dns:"@ + name,
        host matches AddressPartView::Dns6(name) ==> netgroup(front + seq![host] + rest, text)
            == "dns:"@ + name,
        netgroup(front, text) == "unknown:"@ + text,
    decreases front.len(),
{
    let all = front + seq![host] + rest;
    if front.len() == 0 {
        assert(all[0] == host);
    } else {
        let less = front.skip(1);
        assert(all[0] == front[0]);
        assert(all.skip(1) =~= less + seq![host] + rest);
        assert forall|i: int| 0 <= i < less.len() implies (#[trigger] less[i]) is Other by {
            assert(less[i] == front[i + 1]);
        }
        first_host_decides_the_neighbourhood(less, host, rest, text);
    }
}

/// The connections with a neighbourhood, and those that this node dialled, are counted one by
/// one: none among none, each for itself, and those of two parts together.
pub proof fn connections_are_counted_one_by_one(
    a: Seq<ConnectionView>,
    b: Seq<ConnectionView>,
    one: ConnectionView,
    group: Seq<char>,
)
    ensures
        group_size(Seq::empty(), group) == 0,
        one.group == group ==> group_size(seq![one], group) == 1,
        one.group != group ==> group_size(seq![one], group) == 0,
        group_size(a + b, group) == group_size(a, group) + group_size(b, group),
        outbound_count(Seq::empty()) == 0,
        one.dialed_at is Some ==> outbound_count(seq![one]) == 1,
        one.dialed_at is None ==> outbound_count(seq![one]) == 0,
        outbound_count(a + b) == outbound_count(a) + outbound_count(b),
    decreases b.len(),
{
    let none = Seq::<ConnectionView>::empty();
    assert(seq![one].drop_last() =~= none);
    assert(group_size(none, group) == 0);
    assert(outbound_count(none) == 0);
    if b.len() == 0 {
        assert(a + b =~= a);
    } else {
        connections_are_counted_one_by_one(a, b.drop_last(), one, group);
        assert((a + b).drop_last() =~= a + b.drop_last());
        assert((a + b).last() == b.last());
    }
}

/// A node follows two topics, one for transactions and one for blocks, and no other.
pub proof fn two_topics_are_followed(topic: Seq<char>)
    ensures
        topic_kind("/znx/tx/1"@) == Some(TopicKind::Transaction),
        topic_kind("/znx/blocks/1"@) == Some(TopicKind::Block),
        topic_kind(topic) is Some ==> topic == "/znx/tx/1"@ || topic == "/znx/blocks/1"@,
{
    reveal_strlit("/znx/tx/1");
    reveal_strlit("/znx/blocks/1");
    assert("/znx/tx/1"@.len() != "/znx/blocks/1"@.len());
}

/// An answer ends where its length says: bytes behind it do not change it. Any first byte but zero
/// announces a block.
pub proof fn answer_ends_where_it_says(response: Option<Seq<u8>>, extra: Seq<u8>, first: u8)
    requires
        response matches Some(bytes) ==> bytes.len() <= MAX_BLOCK_RESPONSE_BYTES,
        first != 0,
    ensures
        response_progress(response_bytes(response) + extra) == ResponseProgressView::Complete(
            response,
        ),
        response_progress(seq![first] + extra) == response_progress(seq![1u8] + extra),
{
    let came = response_bytes(response) + extra;
    match response {
        None => {},
        Some(bytes) => {
            lemma_pow256();
            lemma_be_bytes_len(bytes.len(), 4);
            lemma_be_round_trip(bytes.len(), 4);
            assert(came.subrange(1, 5) =~= be_bytes(bytes.len(), 4));
            assert(came.subrange(5, 5 + bytes.len() as int) =~= bytes);
        },
    }
    let (a, b) = (seq![first] + extra, seq![1u8] + extra);
    if a.len() >= 5 {
        assert(a.subrange(1, 5) =~= b.subrange(1, 5));
        let n = be_value(a.subrange(1, 5)) as int;
        if a.len() >= 5 + n {
            assert(a.subrange(5, 5 + n) =~= b.subrange(5, 5 + n));
        }
    }
}

/// Forgetting a connection takes out that one, and keeps every other in its place.
pub proof fn closing_forgets_one_connection(connections: Seq<ConnectionView>, i: int, id: u64)
    requires
        forall|j: int, k: int|
            0 <= j < k < connections.len() ==> (#[trigger] connections[j]).id != (
            #[trigger] connections[k]).id,
    ensures
        0 <= i < connections.len() && connections[i].id == id ==> without(connections, id)
            == connections.take(i) + connections.skip(i + 1),
        (forall|j: int| 0 <= j < connections.len() ==> (#[trigger] connections[j]).id != id)
            ==> without(connections, id) == connections,
{
    if 0 <= i < connections.len() && connections[i].id == id {
        lemma_without(connections, i);
        assert(connections.remove(i) =~= connections.take(i) + connections.skip(i + 1));
    }
    if forall|j: int| 0 <= j < connections.len() ==> (#[trigger] connections[j]).id != id {
        lemma_without_absent(connections, id);
    }
}

} // verus!
