//! Network descriptors: addresses with subnet matching, routing-table
//! entries and their preference order, and socket domain/type
//! classification with permission checks.

use vstd::prelude::*;

verus! {

/// Type representing a Media Access Control (MAC) address.
pub type MAC = [u8; 6];

/// A user identifier.
pub type Uid = u32;

/// A group identifier.
pub type Gid = u32;

/// The user identifier of the superuser.
pub const ROOT_UID: Uid = 0;

/// The group identifier of the superuser.
pub const ROOT_GID: Gid = 0;


/// Shifting a byte right by zero leaves it unchanged.
proof fn lemma_shr_zero(x: u8)
    ensures
        (x >> 0u8) == x,
{
    assert((x >> 0u8) == x) by (bit_vector);
}

/// Shifting a byte right by its full width clears it.
proof fn lemma_shr_all(x: u8)
    ensures
        (x >> 8u8) == 0,
{
    assert((x >> 8u8) == 0) by (bit_vector);
}

/// An enumeration of network address types.
#[derive(Clone, Copy, Debug)]
pub enum Address {
    /// Internet Protocol version 4.
    IPv4([u8; 4]),
    /// Internet Protocol version 6.
    IPv6([u8; 16]),
}

/// Equality of two addresses: the same protocol version and the same
/// bytes.
pub open spec fn spec_addr_eq(a: Address, b: Address) -> bool {
    match (a, b) {
        (Address::IPv4(x), Address::IPv4(y)) => x@ == y@,
        (Address::IPv6(x), Address::IPv6(y)) => x@ == y@,
        _ => false,
    }
}

/// The number of bits of byte `i` that lie within the first `mask` bits
/// of a byte string.
pub open spec fn spec_bits_in_byte(mask: int, i: int) -> int {
    if mask >= 8 * (i + 1) {
        8
    } else if mask <= 8 * i {
        0
    } else {
        mask - 8 * i
    }
}

/// True when the first `mask` bits of the two byte strings are equal.
pub open spec fn spec_prefix_match(a: Seq<u8>, b: Seq<u8>, mask: int) -> bool {
    forall|i: int|
        0 <= i < a.len() ==> (a[i] >> (8 - spec_bits_in_byte(mask, i)) as u8) == (b[i] >> (8
            - spec_bits_in_byte(mask, i)) as u8)
}

/// Compares the first `mask` bits of two equally long byte strings.
fn prefix_match(a: &[u8], b: &[u8], mask: u32) -> (r: bool)
    requires
        a@.len() == b@.len(),
        a@.len() <= 16,
    ensures
        r == spec_prefix_match(a@, b@, mask as int),
{
    let len = a.len();
    let mut i: usize = 0;
    let mut ok = true;
    while i < len
        invariant
            i <= len,
            len == a@.len() == b@.len(),
            len <= 16,
            ok == (forall|j: int|
                0 <= j < i ==> (a@[j] >> (8 - spec_bits_in_byte(mask as int, j)) as u8) == (
                b@[j] >> (8 - spec_bits_in_byte(mask as int, j)) as u8)),
        decreases len - i,
    {
        let kept: u32 = if mask >= 8 * (i as u32 + 1) {
            8
        } else if mask <= 8 * (i as u32) {
            0
        } else {
            mask - 8 * (i as u32)
        };
        proof {
            assert(kept == spec_bits_in_byte(mask as int, i as int));
        }
        if kept > 0 {
            let shift: u32 = 8 - kept;
            if (a[i] >> (shift as u8)) != (b[i] >> (shift as u8)) {
                ok = false;
            }
        } else {
            // No bit of this byte lies within the prefix.
            proof {
                lemma_shr_all(a@[i as int]);
                lemma_shr_all(b@[i as int]);
            }
        }
        i = i + 1;
    }
    ok
}

/// Compares two addresses for equality.
pub fn addr_eq(a: &Address, b: &Address) -> (r: bool)
    ensures
        r == spec_addr_eq(*a, *b),
{
    match (a, b) {
        (Address::IPv4(x), Address::IPv4(y)) => {
            let r = prefix_match(x.as_slice(), y.as_slice(), 32);
            proof {
                if r {
                    assert forall|i: int| 0 <= i < 4 implies x@[i] == y@[i] by {
                        lemma_shr_zero(x@[i]);
                        lemma_shr_zero(y@[i]);
                        assert(spec_bits_in_byte(32, i) == 8);
                    }
                    assert(x@ =~= y@);
                } else {
                    let i = choose|i: int|
                        0 <= i < 4 && (x@[i] >> (8 - spec_bits_in_byte(32, i)) as u8) != (
                        y@[i] >> (8 - spec_bits_in_byte(32, i)) as u8);
                    assert(x@[i] != y@[i]) by {
                        lemma_shr_zero(x@[i]);
                        lemma_shr_zero(y@[i]);
                    }
                }
            }
            r
        },
        (Address::IPv6(x), Address::IPv6(y)) => {
            let r = prefix_match(x.as_slice(), y.as_slice(), 128);
            proof {
                if r {
                    assert forall|i: int| 0 <= i < 16 implies x@[i] == y@[i] by {
                        lemma_shr_zero(x@[i]);
                        lemma_shr_zero(y@[i]);
                        assert(spec_bits_in_byte(128, i) == 8);
                    }
                    assert(x@ =~= y@);
                } else {
                    let i = choose|i: int|
                        0 <= i < 16 && (x@[i] >> (8 - spec_bits_in_byte(128, i)) as u8) != (
                        y@[i] >> (8 - spec_bits_in_byte(128, i)) as u8);
                    assert(x@[i] != y@[i]) by {
                        lemma_shr_zero(x@[i]);
                        lemma_shr_zero(y@[i]);
                    }
                }
            }
            r
        },
        _ => false,
    }
}

/// An address/subnet mask pair to be bound to an interface.
#[derive(Clone, Copy, Debug)]
pub struct BindAddress {
    /// The bound address.
    pub addr: Address,
    /// Subnet mask/prefix length.
    pub subnet_mask: u8,
}

/// True when the bind address covers the destination: the same protocol
/// version, and agreement on the first `subnet_mask` bits.
pub open spec fn spec_bind_matches(b: BindAddress, addr: Address) -> bool {
    match (b.addr, addr) {
        (Address::IPv4(x), Address::IPv4(y)) => spec_prefix_match(x@, y@, b.subnet_mask as int),
        (Address::IPv6(x), Address::IPv6(y)) => spec_prefix_match(x@, y@, b.subnet_mask as int),
        _ => false,
    }
}

impl BindAddress {
    /// Tells whether the bind address is suitable for transmission to the
    /// given destination address.
    pub fn is_matching(&self, addr: &Address) -> (r: bool)
        ensures
            r == spec_bind_matches(*self, *addr),
    {
        match (&self.addr, addr) {
            (Address::IPv4(a), Address::IPv4(b)) => prefix_match(
                a.as_slice(),
                b.as_slice(),
                self.subnet_mask as u32,
            ),
            (Address::IPv6(a), Address::IPv6(b)) => prefix_match(
                a.as_slice(),
                b.as_slice(),
                self.subnet_mask as u32,
            ),
            _ => false,
        }
    }
}

/// An entry in the routing table.
#[derive(Clone, Debug)]
pub struct Route {
    /// The destination address. If `None`, this is the default
    /// destination.
    pub dst: Option<BindAddress>,
    /// The name of the network interface.
    pub iface: Vec<u8>,
    /// The gateway's address.
    pub gateway: Address,
    /// The route's metric. The route with the lowest metric has priority.
    pub metric: u32,
}

/// True when the route can carry traffic towards the address: its gateway
/// is the address itself, or it is the default route, or its destination
/// covers the address.
pub open spec fn spec_route_matches(r: Route, addr: Address) -> bool {
    spec_addr_eq(r.gateway, addr) || match r.dst {
        None => true,
        Some(dst) => spec_bind_matches(dst, addr),
    }
}

/// The preference rank of a route for an address: first whether the
/// gateway is the address itself, then whether the destination covers the
/// address, then the metric. Higher ranks are better; within the metric
/// component a lower metric is the better one.
pub open spec fn spec_route_rank(r: Route, addr: Address) -> (bool, bool, u32) {
    (
        spec_addr_eq(r.gateway, addr),
        match r.dst {
            None => true,
            Some(dst) => spec_bind_matches(dst, addr),
        },
        r.metric,
    )
}

/// The lexicographic order on route ranks, with `false < true` on the
/// match components and the metric reversed: the route with the lowest
/// metric has priority.
pub open spec fn spec_rank_le(a: (bool, bool, u32), b: (bool, bool, u32)) -> bool {
    if a.0 != b.0 {
        !a.0
    } else if a.1 != b.1 {
        !a.1
    } else {
        a.2 >= b.2
    }
}

impl Route {
    /// Tells whether the route matches the given address.
    pub fn is_matching(&self, addr: &Address) -> (r: bool)
        ensures
            r == spec_route_matches(*self, *addr),
    {
        if addr_eq(&self.gateway, addr) {
            return true;
        }
        match &self.dst {
            None => true,
            Some(dst) => dst.is_matching(addr),
        }
    }

    /// Compares the preference of the current route against `other` for
    /// the given destination: negative when `self` is the worse route,
    /// zero when the ranks tie, positive when `self` is the better route.
    pub fn cmp_for(&self, other: &Self, addr: &Address) -> (r: i8)
        ensures
            r == -1 || r == 0 || r == 1,
            (r <= 0) == spec_rank_le(spec_route_rank(*self, *addr), spec_route_rank(*other, *addr)),
            (r >= 0) == spec_rank_le(spec_route_rank(*other, *addr), spec_route_rank(*self, *addr)),
    {
        let self_gw = addr_eq(&self.gateway, addr);
        let other_gw = addr_eq(&other.gateway, addr);
        if self_gw != other_gw {
            return if self_gw {
                1
            } else {
                -1
            };
        }
        let self_dst = match &self.dst {
            None => true,
            Some(dst) => dst.is_matching(addr),
        };
        let other_dst = match &other.dst {
            None => true,
            Some(dst) => dst.is_matching(addr),
        };
        if self_dst != other_dst {
            return if self_dst {
                1
            } else {
                -1
            };
        }
        if self.metric < other.metric {
            1
        } else if self.metric == other.metric {
            0
        } else {
            -1
        }
    }
}

/// Enumeration of socket domains.
#[derive(Clone, Copy, Debug, PartialEq, Eq, Structural)]
pub enum SocketDomain {
    /// Local communication.
    AfUnix,
    /// IPv4 Internet Protocols.
    AfInet,
    /// IPv6 Internet Protocols.
    AfInet6,
    /// Kernel user interface device.
    AfNetlink,
    /// Low level packet interface.
    AfPacket,
}

impl SocketDomain {
    /// Builds a socket domain from its numeric identifier; an unknown
    /// identifier is rejected.
    pub fn from_id(id: u32) -> (r: Option<SocketDomain>)
        ensures
            match r {
                Some(d) => d.spec_id() == id,
                None => !(id == 1 || id == 2 || id == 10 || id == 16 || id == 17),
            },
    {
        match id {
            1 => Some(SocketDomain::AfUnix),
            2 => Some(SocketDomain::AfInet),
            10 => Some(SocketDomain::AfInet6),
            16 => Some(SocketDomain::AfNetlink),
            17 => Some(SocketDomain::AfPacket),
            _ => None,
        }
    }

    /// The numeric identifier of the domain.
    pub open spec fn spec_id(self) -> u32 {
        match self {
            SocketDomain::AfUnix => 1,
            SocketDomain::AfInet => 2,
            SocketDomain::AfInet6 => 10,
            SocketDomain::AfNetlink => 16,
            SocketDomain::AfPacket => 17,
        }
    }

    /// Returns the associated identifier.
    pub fn get_id(&self) -> (r: u32)
        ensures
            r == self.spec_id(),
    {
        match self {
            SocketDomain::AfUnix => 1,
            SocketDomain::AfInet => 2,
            SocketDomain::AfInet6 => 10,
            SocketDomain::AfNetlink => 16,
            SocketDomain::AfPacket => 17,
        }
    }

    /// Tells whether the given user has the permission to use the socket
    /// domain: the packet domain is restricted to the superuser.
    pub fn can_use(&self, uid: Uid, gid: Gid) -> (r: bool)
        ensures
            r == match *self {
                SocketDomain::AfPacket => uid == ROOT_UID || gid == ROOT_GID,
                _ => true,
            },
    {
        match self {
            SocketDomain::AfPacket => uid == ROOT_UID || gid == ROOT_GID,
            _ => true,
        }
    }
}

/// Enumeration of socket types.
#[derive(Clone, Copy, Debug, PartialEq, Eq, Structural)]
pub enum SocketType {
    /// Sequenced, reliable, two-way, connection-based byte streams.
    SockStream,
    /// Datagrams.
    SockDgram,
    /// Sequenced, reliable, two-way connection-based data transmission
    /// path for datagrams of fixed maximum length.
    SockSeqpacket,
    /// Raw network protocol access.
    SockRaw,
}

impl SocketType {
    /// Builds a socket type from its numeric identifier; an unknown
    /// identifier is rejected.
    pub fn from_id(id: u32) -> (r: Option<SocketType>)
        ensures
            match r {
                Some(t) => t.spec_id() == id,
                None => !(id == 1 || id == 2 || id == 5 || id == 3),
            },
    {
        match id {
            1 => Some(SocketType::SockStream),
            2 => Some(SocketType::SockDgram),
            5 => Some(SocketType::SockSeqpacket),
            3 => Some(SocketType::SockRaw),
            _ => None,
        }
    }

    /// The numeric identifier of the type.
    pub open spec fn spec_id(self) -> u32 {
        match self {
            SocketType::SockStream => 1,
            SocketType::SockDgram => 2,
            SocketType::SockSeqpacket => 5,
            SocketType::SockRaw => 3,
        }
    }

    /// Returns the associated identifier.
    pub fn get_id(&self) -> (r: u32)
        ensures
            r == self.spec_id(),
    {
        match self {
            SocketType::SockStream => 1,
            SocketType::SockDgram => 2,
            SocketType::SockSeqpacket => 5,
            SocketType::SockRaw => 3,
        }
    }

    /// Tells whether the socket type uses stream communications.
    pub fn is_stream(&self) -> (r: bool)
        ensures
            r == (*self == SocketType::SockStream || *self == SocketType::SockSeqpacket),
    {
        matches!(self, SocketType::SockStream | SocketType::SockSeqpacket)
    }

    /// Tells whether the given user has the permission to use the socket
    /// type: raw access is restricted to the superuser.
    pub fn can_use(&self, uid: Uid, gid: Gid) -> (r: bool)
        ensures
            r == match *self {
                SocketType::SockRaw => uid == ROOT_UID || gid == ROOT_GID,
                _ => true,
            },
    {
        match self {
            SocketType::SockRaw => uid == ROOT_UID || gid == ROOT_GID,
            _ => true,
        }
    }
}

/// Socket network stack descriptor.
#[derive(Clone, Copy, Debug, PartialEq, Eq, Structural)]
pub struct SocketDesc {
    /// The socket's domain.
    pub domain: SocketDomain,
    /// The socket's type.
    pub type_: SocketType,
    /// The socket's protocol. `0` means using the default protocol for
    /// the domain/type pair.
    pub protocol: i32,
}

/// The position of the best route among the first `i` routes: the
/// matching route of the highest preference rank, a later route winning a
/// tie; `-1` when none of them matches.
pub open spec fn spec_best_route(routes: Seq<Route>, addr: Address, i: int) -> int
    decreases i,
{
    if i <= 0 {
        -1
    } else {
        let prev = spec_best_route(routes, addr, i - 1);
        let c = i - 1;
        if !spec_route_matches(routes[c], addr) {
            prev
        } else if prev == -1 {
            c
        } else if spec_rank_le(spec_route_rank(routes[prev], addr), spec_route_rank(routes[c], addr)) {
            c
        } else {
            prev
        }
    }
}

/// The routing table: the ordered collection of routes the kernel
/// consults to pick an interface for a destination.
pub struct RoutingTable {
    /// The registered routes.
    routes: Vec<Route>,
}

impl RoutingTable {
    /// The registered routes.
    pub closed spec fn view_routes(self) -> Seq<Route> {
        self.routes@
    }

    /// Creates an empty routing table.
    pub fn new() -> (r: RoutingTable)
        ensures
            r.view_routes() == Seq::<Route>::empty(),
    {
        RoutingTable { routes: Vec::new() }
    }

    /// Appends a route to the table.
    pub fn add_route(&mut self, route: Route)
        requires
            old(self).view_routes().len() < usize::MAX,
        ensures
            final(self).view_routes() == old(self).view_routes().push(route),
    {
        self.routes.push(route);
    }


    /// Returns the route at the given position.
    pub fn get_route(&self, i: usize) -> (r: &Route)
        requires
            i < self.view_routes().len(),
        ensures
            *r == self.view_routes()[i as int],
    {
        &self.routes[i]
    }

    /// Picks the best route towards the given address: among the routes
    /// that match it, the one of the highest preference rank, the
    /// later-registered route winning a tie. Returns its position, or
    /// `None` when no route matches.
    pub fn best_route(&self, addr: &Address) -> (r: Option<usize>)
        ensures
            match r {
                None => spec_best_route(self.view_routes(), *addr, self.view_routes().len() as int)
                    == -1,
                Some(i) => i == spec_best_route(
                    self.view_routes(),
                    *addr,
                    self.view_routes().len() as int,
                ),
            },
            match r {
                None => forall|j: int|
                    0 <= j < self.view_routes().len() ==> !spec_route_matches(
                        #[trigger] self.view_routes()[j],
                        *addr,
                    ),
                Some(i) => {
                    &&& i < self.view_routes().len()
                    &&& spec_route_matches(self.view_routes()[i as int], *addr)
                    &&& forall|j: int|
                        0 <= j < self.view_routes().len() && spec_route_matches(
                            #[trigger] self.view_routes()[j],
                            *addr,
                        ) ==> spec_rank_le(
                            spec_route_rank(self.view_routes()[j], *addr),
                            spec_route_rank(self.view_routes()[i as int], *addr),
                        )
                    &&& forall|j: int|
                        i < j < self.view_routes().len() && spec_route_matches(
                            #[trigger] self.view_routes()[j],
                            *addr,
                        ) ==> !spec_rank_le(
                            spec_route_rank(self.view_routes()[i as int], *addr),
                            spec_route_rank(self.view_routes()[j], *addr),
                        )
                },
            },
    {
        let n = self.routes.len();
        let mut best: Option<usize> = None;
        let mut i: usize = 0;
        while i < n
            invariant
                i <= n,
                n == self.view_routes().len(),
                match best {
                    None => spec_best_route(self.view_routes(), *addr, i as int) == -1,
                    Some(b) => b == spec_best_route(self.view_routes(), *addr, i as int),
                },
                match best {
                    None => forall|j: int|
                        0 <= j < i ==> !spec_route_matches(
                            #[trigger] self.view_routes()[j],
                            *addr,
                        ),
                    Some(b) => {
                        &&& b < i
                        &&& spec_route_matches(self.view_routes()[b as int], *addr)
                        &&& forall|j: int|
                            0 <= j < i && spec_route_matches(
                                #[trigger] self.view_routes()[j],
                                *addr,
                            ) ==> spec_rank_le(
                                spec_route_rank(self.view_routes()[j], *addr),
                                spec_route_rank(self.view_routes()[b as int], *addr),
                            )
                        &&& forall|j: int|
                            b < j < i && spec_route_matches(
                                #[trigger] self.view_routes()[j],
                                *addr,
                            ) ==> !spec_rank_le(
                                spec_route_rank(self.view_routes()[b as int], *addr),
                                spec_route_rank(self.view_routes()[j], *addr),
                            )
                    },
                },
            decreases n - i,
        {
            let candidate = &self.routes[i];
            if candidate.is_matching(addr) {
                match best {
                    None => {
                        best = Some(i);
                    },
                    Some(b) => {
                        let cmp = self.routes[b].cmp_for(candidate, addr);
                        if cmp <= 0 {
                            best = Some(i);
                        }
                    },
                }
            }
            i = i + 1;
        }
        best
    }
}

/// Trait representing a network interface. The kernel's drivers implement
/// it; the registry below only stores and hands back implementations, it
/// never calls through them.
pub trait Interface {
    /// Returns the name of the interface.
    fn get_name(&self) -> &[u8];

    /// Tells whether the interface is up.
    fn is_up(&self) -> bool;

    /// Returns the MAC address of the interface.
    fn get_mac(&self) -> &MAC;

    /// Returns the list of addresses bound to the interface.
    fn get_addresses(&self) -> &[BindAddress];

    /// Reads a frame from the interface into `buff`, returning its
    /// length.
    fn read(&mut self, buff: &mut [u8]) -> Result<usize, ()>;

    /// Writes the frame in `buff` to the interface.
    fn write(&mut self, buff: &[u8]) -> Result<(), ()>;
}

/// The position of the first name equal to `name`, or `-1`.
pub open spec fn first_name_index(names: Seq<Seq<u8>>, name: Seq<u8>) -> int
    decreases names.len(),
{
    if names.len() == 0 {
        -1
    } else if names[0] == name {
        0
    } else {
        let r = first_name_index(names.subrange(1, names.len() as int), name);
        if r == -1 {
            -1
        } else {
            r + 1
        }
    }
}

/// What `first_name_index` returns: `-1` exactly when the name is absent,
/// else the first position holding it.
pub proof fn lemma_first_name_index(names: Seq<Seq<u8>>, name: Seq<u8>)
    ensures
        ({
            let r = first_name_index(names, name);
            &&& (r == -1 <==> forall|j: int| 0 <= j < names.len() ==> names[j] != name)
            &&& (r != -1 ==> 0 <= r < names.len() && names[r] == name && (forall|j: int|
                0 <= j < r ==> names[j] != name))
        }),
    decreases names.len(),
{
    if names.len() != 0 && names[0] != name {
        let tail = names.subrange(1, names.len() as int);
        lemma_first_name_index(tail, name);
        assert(forall|j: int| 0 <= j < tail.len() ==> tail[j] == names[j + 1]);
        let rt = first_name_index(tail, name);
        if rt == -1 {
            assert forall|j: int| 0 <= j < names.len() implies names[j] != name by {
                if j > 0 {
                    assert(tail[j - 1] == names[j]);
                }
            }
        } else {
            assert(names[rt + 1] == tail[rt]);
            assert forall|j: int| 0 <= j < rt + 1 implies names[j] != name by {
                if j > 0 {
                    assert(tail[j - 1] == names[j]);
                }
            }
        }
    }
}

/// The registered network interfaces, each under a name: an explicit
/// value owned by kernel initialization, rather than ambient global
/// state, so that it can be reasoned about and tested in isolation.
pub struct IfaceRegistry<I> {
    /// The names, parallel to `ifaces`.
    names: Vec<Vec<u8>>,
    /// The interfaces.
    ifaces: Vec<I>,
}

/// The byte strings of a sequence of byte vectors.
pub open spec fn name_views(s: Seq<Vec<u8>>) -> Seq<Seq<u8>> {
    s.map_values(|p: Vec<u8>| p@)
}

impl<I> IfaceRegistry<I> {
    /// The registered names, in registration order.
    pub closed spec fn spec_names(self) -> Seq<Seq<u8>> {
        name_views(self.names@)
    }

    /// The registered interfaces, parallel to the names.
    pub closed spec fn spec_ifaces(self) -> Seq<I> {
        self.ifaces@
    }

    /// Both columns of the registry have one row per interface.
    pub closed spec fn well_formed(self) -> bool {
        self.names@.len() == self.ifaces@.len()
    }

    /// Creates an empty registry.
    pub fn new() -> (r: IfaceRegistry<I>)
        ensures
            r.well_formed(),
            r.spec_names() == Seq::<Seq<u8>>::empty(),
            r.spec_ifaces() == Seq::<I>::empty(),
    {
        let r = IfaceRegistry { names: Vec::new(), ifaces: Vec::new() };
        proof {
            assert(r.spec_names() =~= Seq::<Seq<u8>>::empty());
        }
        r
    }

    /// The position of the interface with the given name.
    fn find(&self, name: &[u8]) -> (r: Option<usize>)
        requires
            self.well_formed(),
        ensures
            match r {
                None => first_name_index(self.spec_names(), name@) == -1,
                Some(i) => i == first_name_index(self.spec_names(), name@),
            },
    {
        proof {
            lemma_first_name_index(self.spec_names(), name@);
        }
        let n = self.names.len();
        let mut i: usize = 0;
        while i < n
            invariant
                i <= n,
                n == self.spec_names().len(),
                self.well_formed(),
                forall|j: int| 0 <= j < i ==> self.spec_names()[j] != name@,
            decreases n - i,
        {
            let mut equal = self.names[i].len() == name.len();
            let mut t: usize = 0;
            while equal && t < name.len()
                invariant
                    t <= name@.len(),
                    i < n,
                    n == self.spec_names().len(),
                    self.well_formed(),
                    equal ==> self.names@[i as int]@.len() == name@.len() && (forall|u: int|
                        0 <= u < t ==> self.names@[i as int]@[u] == name@[u]),
                    !equal ==> self.names@[i as int]@.len() != name@.len() || (exists|u: int|
                        0 <= u < name@.len() && self.names@[i as int]@[u] != name@[u]),
                decreases name@.len() - t,
            {
                if self.names[i][t] != name[t] {
                    equal = false;
                    proof {
                        assert(self.names@[i as int]@[t as int] != name@[t as int]);
                    }
                }
                t = t + 1;
            }
            if equal {
                proof {
                    lemma_first_name_index(self.spec_names(), name@);
                    assert(self.spec_names()[i as int] =~= name@);
                    let fr = first_name_index(self.spec_names(), name@);
                    assert(fr != -1) by {
                        assert(self.spec_names()[i as int] == name@);
                    }
                    if fr < i {
                        assert(self.spec_names()[fr] != name@);
                    }
                    if fr > i {
                        assert(self.spec_names()[i as int] != name@);
                    }
                    assert(fr == i);
                }
                return Some(i);
            }
            proof {
                assert(self.spec_names()[i as int] != name@) by {
                    if self.spec_names()[i as int] == name@ {
                        assert(self.names@[i as int]@ =~= name@);
                        if self.names@[i as int]@.len() == name@.len() {
                            let u = choose|u: int|
                                0 <= u < name@.len() && self.names@[i as int]@[u] != name@[u];
                            assert(self.names@[i as int]@[u] == name@[u]);
                        }
                    }
                }
            }
            i = i + 1;
        }
        None
    }

    /// Registers the given network interface under `name`. An interface
    /// already registered under that name is replaced.
    pub fn register_iface(&mut self, name: Vec<u8>, iface: I)
        requires
            old(self).well_formed(),
            old(self).spec_names().len() < usize::MAX,
        ensures
            final(self).well_formed(),
            ({
                let i = first_name_index(old(self).spec_names(), name@);
                if i == -1 {
                    final(self).spec_names() == old(self).spec_names().push(name@) && final(self).spec_ifaces() == old(self).spec_ifaces().push(iface)
                } else {
                    final(self).spec_names() == old(self).spec_names() && final(self).spec_ifaces() == old(self).spec_ifaces().update(i, iface)
                }
            }),
    {
        proof {
            lemma_first_name_index(self.spec_names(), name@);
        }
        match self.find(name.as_slice()) {
            Some(i) => {
                let _ = self.ifaces.remove(i);
                self.ifaces.insert(i, iface);
                proof {
                    assert(self.spec_ifaces() =~= old(self).spec_ifaces().update(
                        first_name_index(old(self).spec_names(), name@),
                        iface,
                    ));
                }
            },
            None => {
                self.names.push(name);
                self.ifaces.push(iface);
                proof {
                    assert(self.spec_names() =~= old(self).spec_names().push(name@));
                }
            },
        }
    }

    /// Unregisters the network interface with the given name, if present.
    pub fn unregister_iface(&mut self, name: &[u8])
        requires
            old(self).well_formed(),
        ensures
            final(self).well_formed(),
            ({
                let i = first_name_index(old(self).spec_names(), name@);
                if i == -1 {
                    final(self).spec_names() == old(self).spec_names() && final(self).spec_ifaces() == old(self).spec_ifaces()
                } else {
                    final(self).spec_names() == old(self).spec_names().remove(i) && final(self).spec_ifaces() == old(self).spec_ifaces().remove(i)
                }
            }),
    {
        proof {
            lemma_first_name_index(self.spec_names(), name@);
        }
        match self.find(name) {
            Some(i) => {
                let _ = self.names.remove(i);
                let _ = self.ifaces.remove(i);
                proof {
                    assert(self.spec_names() =~= old(self).spec_names().remove(
                        first_name_index(old(self).spec_names(), name@),
                    ));
                }
            },
            None => {},
        }
    }

    /// Returns the network interface with the given name, or `None` when
    /// it does not exist.
    pub fn get_iface(&self, name: &[u8]) -> (r: Option<&I>)
        requires
            self.well_formed(),
        ensures
            match r {
                None => first_name_index(self.spec_names(), name@) == -1,
                Some(iface) => *iface == self.spec_ifaces()[first_name_index(
                    self.spec_names(),
                    name@,
                )],
            },
    {
        proof {
            lemma_first_name_index(self.spec_names(), name@);
        }
        match self.find(name) {
            Some(i) => Some(&self.ifaces[i]),
            None => None,
        }
    }

    /// Returns the interface that carries traffic to the given
    /// destination: the one registered under the name of the best
    /// matching route.
    pub fn get_iface_for(&self, table: &RoutingTable, addr: &Address) -> (r: Option<&I>)
        requires
            self.well_formed(),
        ensures
            ({
                let b = spec_best_route(table.view_routes(), *addr, table.view_routes().len() as int);
                match r {
                    None => b == -1 || first_name_index(
                        self.spec_names(),
                        table.view_routes()[b].iface@,
                    ) == -1,
                    Some(iface) => b != -1 && *iface == self.spec_ifaces()[first_name_index(
                        self.spec_names(),
                        table.view_routes()[b].iface@,
                    )],
                }
            }),
    {
        match table.best_route(addr) {
            Some(i) => {
                let route = table.get_route(i);
                self.get_iface(route.iface.as_slice())
            },
            None => None,
        }
    }
}

} // verus!
