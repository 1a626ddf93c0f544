use kernel_core::net::{
    Address, BindAddress, IfaceRegistry, Interface, Route, RoutingTable, SocketDomain, SocketType,
    MAC,
};
use kernel_core::path::Path;
use kernel_core::process::{signal_check, Process, State};
use kernel_core::util;
use kernel_core::util::Regs;

#[test]
fn alignment_helpers() {
    assert!(util::is_aligned(0x3000, 0x1000));
    assert!(!util::is_aligned(0x3001, 0x1000));
    assert_eq!(util::down_align(0x3fff, 0x1000), 0x3000);
    assert_eq!(util::down_align(0x3000, 0x1000), 0x3000);
    assert_eq!(util::up_align(0x3000, 0x1000), 0x4000);
    assert_eq!(util::up_align(0x3001, 0x1000), 0x4000);
    assert_eq!(util::align(0x3000, 0x1000), 0x3000);
    assert_eq!(util::align(0x3001, 0x1000), 0x4000);
    assert!(util::same_page(0x5000, 0x5fff));
    assert!(!util::same_page(0x5fff, 0x6000));
}

#[test]
fn integer_helpers() {
    assert_eq!(util::ceil_division(10, 5), 2);
    assert_eq!(util::ceil_division(11, 5), 3);
    assert_eq!(util::ceil_division(0, 5), 0);
    assert_eq!(util::pow2_u32(0), 1);
    assert_eq!(util::pow2_u32(5), 32);
    assert_eq!(util::pow2_u32(31), 0x8000_0000);
    assert_eq!(util::log2(1), 0);
    assert_eq!(util::log2(2), 1);
    assert_eq!(util::log2(3), 1);
    assert_eq!(util::log2(1024), 10);
    assert_eq!(util::log2(1025), 10);
    assert_eq!(util::log2(0), 1);
    assert_eq!(util::sqrt(16), 4);
    assert_eq!(util::sqrt(17), 4);
    assert_eq!(util::sqrt(64), 8);
    assert_eq!(util::sqrt(100), 8);
    assert_eq!(util::bit_size_of::<u8>(), 8);
    assert_eq!(util::bit_size_of::<u64>(), 64);
    assert_eq!(util::bitfield_size(1), 1);
    assert_eq!(util::bitfield_size(8), 1);
    assert_eq!(util::bitfield_size(9), 2);
}

#[test]
fn bind_address_matching() {
    let bind = BindAddress { addr: Address::IPv4([192, 168, 1, 0]), subnet_mask: 24 };
    assert!(bind.is_matching(&Address::IPv4([192, 168, 1, 77])));
    assert!(!bind.is_matching(&Address::IPv4([192, 168, 2, 77])));
    assert!(!bind.is_matching(&Address::IPv6([0; 16])));
    let all = BindAddress { addr: Address::IPv4([10, 0, 0, 0]), subnet_mask: 0 };
    assert!(all.is_matching(&Address::IPv4([172, 16, 0, 1])));
    let v6 = BindAddress {
        addr: Address::IPv6([0xfe, 0x80, 0, 0, 0, 0, 0, 0, 0, 0, 0, 0, 0, 0, 0, 0]),
        subnet_mask: 10,
    };
    assert!(v6.is_matching(&Address::IPv6([
        0xfe, 0xbf, 1, 2, 3, 4, 5, 6, 7, 8, 9, 10, 11, 12, 13, 14
    ])));
    assert!(!v6.is_matching(&Address::IPv6([0xfc, 0, 0, 0, 0, 0, 0, 0, 0, 0, 0, 0, 0, 0, 0, 0])));
}

#[test]
fn route_matching_and_order() {
    let gw = Address::IPv4([10, 0, 0, 1]);
    let default_route = Route {
        dst: None,
        iface: b"eth0".to_vec(),
        gateway: Address::IPv4([10, 0, 0, 254]),
        metric: 100,
    };
    let direct = Route {
        dst: Some(BindAddress { addr: Address::IPv4([10, 0, 0, 0]), subnet_mask: 8 }),
        iface: b"eth1".to_vec(),
        gateway: gw,
        metric: 10,
    };
    assert!(default_route.is_matching(&gw));
    assert!(direct.is_matching(&gw));
    // The gateway match dominates the comparison.
    assert_eq!(direct.cmp_for(&default_route, &gw), 1);
    assert_eq!(default_route.cmp_for(&direct, &gw), -1);
    assert_eq!(direct.cmp_for(&direct, &gw), 0);

    let mut table = RoutingTable::new();
    table.add_route(default_route.clone());
    table.add_route(direct.clone());
    assert_eq!(table.best_route(&gw), Some(1));
    // An address nothing special matches still falls back to the default
    // route.
    assert_eq!(table.best_route(&Address::IPv4([8, 8, 8, 8])), Some(0));
    let empty = RoutingTable::new();
    assert_eq!(empty.best_route(&gw), None);
}

#[test]
fn lowest_metric_wins() {
    // Two default routes differing only in metric: the route with the
    // lowest metric has priority.
    let gw = Address::IPv4([203, 0, 113, 9]);
    let cheap =
        Route { dst: None, iface: b"eth0".to_vec(), gateway: Address::IPv4([10, 0, 0, 1]), metric: 1 };
    let costly =
        Route { dst: None, iface: b"eth1".to_vec(), gateway: Address::IPv4([10, 0, 0, 2]), metric: 5 };
    assert_eq!(cheap.cmp_for(&costly, &gw), 1);
    assert_eq!(costly.cmp_for(&cheap, &gw), -1);
    let mut table = RoutingTable::new();
    table.add_route(costly.clone());
    table.add_route(cheap.clone());
    assert_eq!(table.best_route(&gw), Some(1));
    let mut table2 = RoutingTable::new();
    table2.add_route(cheap);
    table2.add_route(costly);
    assert_eq!(table2.best_route(&gw), Some(0));
}

#[test]
fn socket_descriptors() {
    assert_eq!(SocketDomain::from_id(1), Some(SocketDomain::AfUnix));
    assert_eq!(SocketDomain::from_id(17), Some(SocketDomain::AfPacket));
    assert_eq!(SocketDomain::from_id(99), None);
    assert_eq!(SocketDomain::AfInet6.get_id(), 10);
    assert!(SocketDomain::AfInet.can_use(1000, 1000));
    assert!(!SocketDomain::AfPacket.can_use(1000, 1000));
    assert!(SocketDomain::AfPacket.can_use(0, 1000));

    assert_eq!(SocketType::from_id(3), Some(SocketType::SockRaw));
    assert_eq!(SocketType::from_id(4), None);
    assert_eq!(SocketType::SockSeqpacket.get_id(), 5);
    assert!(SocketType::SockStream.is_stream());
    assert!(SocketType::SockSeqpacket.is_stream());
    assert!(!SocketType::SockDgram.is_stream());
    assert!(!SocketType::SockRaw.can_use(1000, 1000));
    assert!(SocketType::SockRaw.can_use(1000, 0));
}

#[test]
fn path_parsing() {
    assert!(Path::from_string("/").is_absolute());
    assert!(Path::from_string("/.").is_absolute());
    assert!(!Path::from_string(".").is_absolute());
    assert!(!Path::from_string("..").is_absolute());
    assert!(!Path::from_string("./").is_absolute());
    assert_eq!(Path::from_string("/a//b/").as_string(), b"/a/b".to_vec());
    assert_eq!(Path::from_string("a/b/c").as_string(), b"a/b/c".to_vec());
}

fn reduced(s: &str) -> Vec<u8> {
    let mut p = Path::from_string(s);
    p.reduce();
    p.as_string()
}

#[test]
fn path_reduction() {
    assert_eq!(reduced("/."), b"/".to_vec());
    assert_eq!(reduced("/.."), b"/".to_vec());
    assert_eq!(reduced("../"), b"..".to_vec());
    assert_eq!(reduced("../bleh"), b"../bleh".to_vec());
    assert_eq!(reduced("../bleh/.."), b"..".to_vec());
    assert_eq!(reduced("../bleh/../bluh"), b"../bluh".to_vec());
    assert_eq!(reduced("/bleh/../bluh"), b"/bluh".to_vec());
    assert_eq!(reduced("/bleh/../../bluh"), b"/bluh".to_vec());
    assert_eq!(reduced("a/./b/../c"), b"a/c".to_vec());
    assert_eq!(reduced("../../x"), b"../../x".to_vec());
}

#[test]
fn path_concat() {
    let a = Path::from_string("/usr/lib");
    let b = Path::from_string("kernel/../modules");
    let mut joined = a.concat(&b);
    assert_eq!(joined.as_string(), b"/usr/lib/kernel/../modules".to_vec());
    joined.reduce();
    assert_eq!(joined.as_string(), b"/usr/lib/modules".to_vec());
}

#[test]
fn signal_redirection() {
    let mut p = Process {
        pid: 1,
        priority: 10,
        state: State::Running,
        quantum_count: 0,
        regs: Regs::zeroed(),
        syscalling: true,
        kernel_stack: 0,
        mem_space: 0,
        pending_signal: true,
    };
    let mut regs = Regs::zeroed();
    regs.eip = 100;
    regs.eax = 42;
    assert!(signal_check(&mut p, &regs));
    assert_eq!(p.regs.eip, 98);
    assert_eq!(p.regs.eax, 42);
    assert!(!p.syscalling);

    let mut q = p;
    q.pending_signal = false;
    q.syscalling = true;
    let before = q;
    assert!(!signal_check(&mut q, &regs));
    assert_eq!(q, before);
}


struct FakeIface {
    name: Vec<u8>,
    mac: MAC,
}

impl Interface for FakeIface {
    fn get_name(&self) -> &[u8] {
        &self.name
    }
    fn is_up(&self) -> bool {
        true
    }
    fn get_mac(&self) -> &MAC {
        &self.mac
    }
    fn get_addresses(&self) -> &[BindAddress] {
        &[]
    }
    fn read(&mut self, _buff: &mut [u8]) -> Result<usize, ()> {
        Ok(0)
    }
    fn write(&mut self, _buff: &[u8]) -> Result<(), ()> {
        Ok(())
    }
}

fn fake(name: &[u8], last: u8) -> FakeIface {
    FakeIface { name: name.to_vec(), mac: [0, 1, 2, 3, 4, last] }
}

#[test]
fn interface_registry() {
    let mut reg: IfaceRegistry<FakeIface> = IfaceRegistry::new();
    assert!(reg.get_iface(b"eth0").is_none());
    reg.register_iface(b"eth0".to_vec(), fake(b"eth0", 10));
    reg.register_iface(b"eth1".to_vec(), fake(b"eth1", 11));
    assert_eq!(reg.get_iface(b"eth0").unwrap().get_mac()[5], 10);
    assert_eq!(reg.get_iface(b"eth1").unwrap().get_mac()[5], 11);
    // Registering the same name again replaces the interface.
    reg.register_iface(b"eth0".to_vec(), fake(b"eth0", 20));
    assert_eq!(reg.get_iface(b"eth0").unwrap().get_mac()[5], 20);
    reg.unregister_iface(b"eth0");
    assert!(reg.get_iface(b"eth0").is_none());
    assert_eq!(reg.get_iface(b"eth1").unwrap().get_mac()[5], 11);
}

#[test]
fn interface_for_destination() {
    let mut reg: IfaceRegistry<FakeIface> = IfaceRegistry::new();
    reg.register_iface(b"lo".to_vec(), fake(b"lo", 1));
    reg.register_iface(b"eth0".to_vec(), fake(b"eth0", 2));
    let mut table = RoutingTable::new();
    table.add_route(Route {
        dst: None,
        iface: b"lo".to_vec(),
        gateway: Address::IPv4([127, 0, 0, 1]),
        metric: 10,
    });
    table.add_route(Route {
        dst: Some(BindAddress { addr: Address::IPv4([192, 168, 0, 0]), subnet_mask: 16 }),
        iface: b"eth0".to_vec(),
        gateway: Address::IPv4([192, 168, 0, 1]),
        metric: 5,
    });
    let lan = Address::IPv4([192, 168, 3, 7]);
    assert_eq!(reg.get_iface_for(&table, &lan).unwrap().get_mac()[5], 2);
    let elsewhere = Address::IPv4([1, 1, 1, 1]);
    assert_eq!(reg.get_iface_for(&table, &elsewhere).unwrap().get_mac()[5], 1);
    let empty = RoutingTable::new();
    assert!(reg.get_iface_for(&empty, &lan).is_none());
}
