//! Addresses and networks, shared by the address-based extractors and the whitelist.
use vstd::arithmetic::power2::pow2;
use vstd::prelude::*;

verus! {

/// An IP address as a number, most significant byte first.
#[derive(Clone, Copy, Debug, PartialEq, Eq, Hash, Structural)]
pub enum IpAddr {
    V4(u32),
    V6(u128),
}

/// A network: an address and the number of its leading bits that count.
#[derive(Clone, Copy, Debug, PartialEq, Eq, Hash, Structural)]
pub struct IpNet {
    addr: IpAddr,
    prefix_len: u8,
}

/// Two numbers agree once their lowest `bits` bits are dropped.
pub open spec fn same_prefix(a: nat, b: nat, bits: nat) -> bool {
    a / pow2(bits) == b / pow2(bits)
}

impl IpNet {
    /// The address that the network was given as.
    pub closed spec fn address(&self) -> IpAddr {
        self.addr
    }

    /// Number of leading bits that count.
    pub closed spec fn prefix(&self) -> u8 {
        self.prefix_len
    }

    /// The prefix is no longer than an address of its family.
    pub open spec fn wf(&self) -> bool {
        match self.address() {
            IpAddr::V4(_) => self.prefix() <= 32,
            IpAddr::V6(_) => self.prefix() <= 128,
        }
    }

    #[verifier::type_invariant]
    spec fn prefix_fits(&self) -> bool {
        self.wf()
    }

    /// The network holds `ip`: the families are the same and so are the leading bits.
    pub open spec fn holds(&self, ip: IpAddr) -> bool {
        match (self.address(), ip) {
            (IpAddr::V4(a), IpAddr::V4(b)) => same_prefix(
                a as nat,
                b as nat,
                (32 - self.prefix()) as nat,
            ),
            (IpAddr::V6(a), IpAddr::V6(b)) => same_prefix(
                a as nat,
                b as nat,
                (128 - self.prefix()) as nat,
            ),
            _ => false,
        }
    }

    /// A network; `None` when the prefix is longer than the address.
    pub fn new(addr: IpAddr, prefix_len: u8) -> (net: Option<IpNet>)
        ensures
            net matches Some(n) ==> n.wf() && n.address() == addr && n.prefix() == prefix_len,
            net is None <==> prefix_len > (match addr {
                IpAddr::V4(_) => 32u8,
                IpAddr::V6(_) => 128u8,
            }),
    {
        let longest: u8 = match addr {
            IpAddr::V4(_) => 32,
            IpAddr::V6(_) => 128,
        };
        if prefix_len > longest {
            None
        } else {
            Some(IpNet { addr, prefix_len })
        }
    }

    /// The address that the network was given as.
    pub fn addr(&self) -> (addr: IpAddr)
        ensures
            addr == self.address(),
    {
        self.addr
    }

    /// Number of leading bits that count.
    pub fn prefix_len(&self) -> (len: u8)
        ensures
            len == self.prefix(),
    {
        self.prefix_len
    }

    /// Whether the network holds `ip`.
    pub fn contains(&self, ip: &IpAddr) -> (r: bool)
        ensures
            r == self.holds(*ip),
    {
        proof {
            use_type_invariant(self);
        }
        match (self.addr, *ip) {
            (IpAddr::V4(a), IpAddr::V4(b)) => v4_net_contains(a, self.prefix_len, b),
            (IpAddr::V6(a), IpAddr::V6(b)) => v6_net_contains(a, self.prefix_len, b),
            _ => false,
        }
    }
}

/// `ipnet::Ipv4Net::contains` on the network of `a` with `prefix` leading bits: it holds
/// `b` when `b` lies between the network's first and last address, that is, when the
/// leading bits agree.
#[verifier::external_body]
fn v4_net_contains(a: u32, prefix: u8, b: u32) -> (r: bool)
    requires
        prefix <= 32,
    ensures
        r == same_prefix(a as nat, b as nat, (32 - prefix) as nat),
{
    let host = ipnet::Ipv4Net::new(b.into(), 32).unwrap();
    ipnet::Ipv4Net::new(a.into(), prefix).unwrap().contains(&host.addr())
}

/// `ipnet::Ipv6Net::contains`, which goes by the leading bits in the same way.
#[verifier::external_body]
fn v6_net_contains(a: u128, prefix: u8, b: u128) -> (r: bool)
    requires
        prefix <= 128,
    ensures
        r == same_prefix(a as nat, b as nat, (128 - prefix) as nat),
{
    let host = ipnet::Ipv6Net::new(b.into(), 128).unwrap();
    ipnet::Ipv6Net::new(a.into(), prefix).unwrap().contains(&host.addr())
}

/// Some network of `nets` holds `ip`.
pub open spec fn any_holds(nets: Seq<IpNet>, ip: IpAddr) -> bool {
    exists|i: int| 0 <= i < nets.len() && (#[trigger] nets[i]).holds(ip)
}

/// Whether some network of `nets` holds `ip`.
pub fn any_contains(nets: &Vec<IpNet>, ip: &IpAddr) -> (r: bool)
    ensures
        r == any_holds(nets@, *ip),
{
    let mut i: usize = 0;
    while i < nets.len()
        invariant
            i <= nets@.len(),
            forall|j: int| 0 <= j < i ==> !(#[trigger] nets@[j]).holds(*ip),
        decreases nets@.len() - i,
    {
        if nets[i].contains(ip) {
            return true;
        }
        i = i + 1;
    }
    false
}

/// The longest prefix that an address can have.
pub open spec fn clamped_prefix(prefix: u8) -> u8 {
    if prefix > 128 {
        128
    } else {
        prefix
    }
}

/// `ip` with only its first `prefix` bits kept, where it is an IPv6 address; an IPv4 address
/// stays as it is.
pub open spec fn masked(ip: IpAddr, prefix: u8) -> IpAddr {
    match ip {
        IpAddr::V4(_) => ip,
        IpAddr::V6(bits) => {
            let low = pow2((128 - clamped_prefix(prefix)) as nat);
            IpAddr::V6((bits as nat - bits as nat % low) as u128)
        },
    }
}

/// Mask an IPv6 address to `prefix` bits so addresses inside one rotation budget share a
/// bucket; IPv4 passes through untouched.
pub fn apply_prefix(ip: IpAddr, prefix: u8) -> (r: IpAddr)
    ensures
        r == masked(ip, prefix),
{
    match ip {
        IpAddr::V4(_) => ip,
        IpAddr::V6(bits) => IpAddr::V6(mask_ipv6(bits, prefix)),
    }
}

/// The first `prefix` bits of an IPv6 address, the rest cleared; a longer prefix than 128 keeps
/// all of it.
pub fn mask_ipv6(bits: u128, prefix: u8) -> (r: u128)
    ensures
        r == (bits as nat - bits as nat % pow2((128 - clamped_prefix(prefix)) as nat)) as u128,
        IpAddr::V6(r) == masked(IpAddr::V6(bits), prefix),
{
    let prefix: u8 = if prefix > 128 {
        128
    } else {
        prefix
    };
    if prefix == 0 {
        proof {
            vstd::arithmetic::power2::lemma2_to64();
            lemma_pow2_128();
            vstd::arithmetic::div_mod::lemma_small_mod(bits as nat, pow2(128));
        }
        return 0;
    }
    let low: u128 = power_of_two(128 - prefix);
    proof {
        vstd::arithmetic::div_mod::lemma_mod_decreases(bits as nat, low as nat);
    }
    bits - bits % low
}

fn power_of_two(n: u8) -> (p: u128)
    requires
        n < 128,
    ensures
        p == pow2(n as nat),
        p > 0,
{
    let mut p: u128 = 1;
    let mut i: u8 = 0;
    proof {
        vstd::arithmetic::power2::lemma2_to64();
    }
    while i < n
        invariant
            i <= n < 128,
            p == pow2(i as nat),
            p > 0,
        decreases n - i,
    {
        proof {
            vstd::arithmetic::power2::lemma_pow2_unfold((i + 1) as nat);
            lemma_pow2_128();
            if i + 1 < 128 {
                vstd::arithmetic::power2::lemma_pow2_strictly_increases((i + 1) as nat, 128);
            }
        }
        p = p * 2;
        i = i + 1;
    }
    p
}

proof fn lemma_pow2_128()
    ensures
        pow2(128) == 0x1_0000_0000_0000_0000_0000_0000_0000_0000,
{
    vstd::arithmetic::power2::lemma2_to64();
    vstd::arithmetic::power2::lemma_pow2_adds(64, 64);
    assert(0x1_0000_0000_0000_0000 * 0x1_0000_0000_0000_0000
        == 0x1_0000_0000_0000_0000_0000_0000_0000_0000) by (nonlinear_arith);
}

/// A network of prefix 0 holds every IPv4 address.
pub proof fn lemma_whole_v4(net: IpNet, b: u32)
    requires
        net.address() is V4,
        net.prefix() == 0,
    ensures
        net.holds(IpAddr::V4(b)),
{
    vstd::arithmetic::power2::lemma2_to64();
    if let IpAddr::V4(a) = net.address() {
        vstd::arithmetic::div_mod::lemma_basic_div(a as int, pow2(32) as int);
        vstd::arithmetic::div_mod::lemma_basic_div(b as int, pow2(32) as int);
    }
}

/// A network of prefix 0 holds every IPv6 address.
pub proof fn lemma_whole_v6(net: IpNet, b: u128)
    requires
        net.address() is V6,
        net.prefix() == 0,
    ensures
        net.holds(IpAddr::V6(b)),
{
    lemma_pow2_128();
    if let IpAddr::V6(a) = net.address() {
        vstd::arithmetic::div_mod::lemma_basic_div(a as int, pow2(128) as int);
        vstd::arithmetic::div_mod::lemma_basic_div(b as int, pow2(128) as int);
    }
}

/// Masking twice changes nothing more.
pub proof fn masking_is_idempotent(ip: IpAddr, prefix: u8)
    ensures
        masked(masked(ip, prefix), prefix) == masked(ip, prefix),
{
    if let IpAddr::V6(bits) = ip {
        let low = pow2((128 - clamped_prefix(prefix)) as nat);
        vstd::arithmetic::power2::lemma_pow2_pos((128 - clamped_prefix(prefix)) as nat);
        vstd::arithmetic::div_mod::lemma_fundamental_div_mod(bits as int, low as int);
        let kept = bits as int - bits as int % low as int;
        assert(kept == low as int * (bits as int / low as int));
        vstd::arithmetic::div_mod::lemma_mod_multiples_basic(bits as int / low as int, low as int);
        assert(kept % low as int == 0) by {
            vstd::arithmetic::mul::lemma_mul_is_commutative(low as int, bits as int / low as int);
        }
    }
}

/// Two IPv6 addresses share a bucket exactly when their leading bits agree.
pub proof fn masked_equal_iff_same_prefix(a: u128, b: u128, prefix: u8)
    ensures
        masked(IpAddr::V6(a), prefix) == masked(IpAddr::V6(b), prefix) <==> same_prefix(
            a as nat,
            b as nat,
            (128 - clamped_prefix(prefix)) as nat,
        ),
{
    let low = pow2((128 - clamped_prefix(prefix)) as nat) as int;
    vstd::arithmetic::power2::lemma_pow2_pos((128 - clamped_prefix(prefix)) as nat);
    vstd::arithmetic::div_mod::lemma_fundamental_div_mod(a as int, low);
    vstd::arithmetic::div_mod::lemma_fundamental_div_mod(b as int, low);
    let qa = a as int / low;
    let qb = b as int / low;
    assert(low * qa == low * qb ==> qa == qb) by (nonlinear_arith)
        requires
            low > 0,
    ;
}

/// An IPv4 address is its own bucket, whatever the prefix.
pub proof fn ipv4_is_never_masked(a: u32, prefix: u8)
    ensures
        masked(IpAddr::V4(a), prefix) == IpAddr::V4(a),
{
}

/// Masking to one prefix and then to another is masking to the shorter of the two.
pub proof fn masking_twice_keeps_the_shorter_prefix(ip: IpAddr, p: u8, q: u8)
    ensures
        masked(masked(ip, p), q) == masked(
            ip,
            if p < q {
                p
            } else {
                q
            },
        ),
{
    if let IpAddr::V6(bits) = ip {
        let wide = clamped_prefix(p);
        let narrow = clamped_prefix(q);
        let lp = pow2((128 - wide) as nat) as int;
        let lq = pow2((128 - narrow) as nat) as int;
        let x = bits as int;
        vstd::arithmetic::power2::lemma_pow2_pos((128 - wide) as nat);
        vstd::arithmetic::power2::lemma_pow2_pos((128 - narrow) as nat);
        vstd::arithmetic::div_mod::lemma_fundamental_div_mod(x, lp);
        let n = x / lp;
        let m = x - x % lp;
        assert(m == lp * n);
        assert(0 <= m <= x) by {
            vstd::arithmetic::div_mod::lemma_mod_decreases(bits as nat, lp as nat);
        }
        if wide <= narrow {
            let c = pow2((narrow - wide) as nat) as int;
            vstd::arithmetic::power2::lemma_pow2_adds((128 - narrow) as nat, (narrow - wide) as nat);
            assert(m == (c * n) * lq) by (nonlinear_arith)
                requires
                    m == lp * n,
                    lp == lq * c,
            ;
            vstd::arithmetic::div_mod::lemma_mod_multiples_basic(c * n, lq);
        } else {
            let c = pow2((wide - narrow) as nat) as int;
            vstd::arithmetic::power2::lemma_pow2_pos((wide - narrow) as nat);
            vstd::arithmetic::power2::lemma_pow2_adds((128 - wide) as nat, (wide - narrow) as nat);
            assert(lq == lp * c);
            vstd::arithmetic::div_mod::lemma_div_denominator(x, lp, c);
            vstd::arithmetic::div_mod::lemma_div_denominator(m, lp, c);
            vstd::arithmetic::div_mod::lemma_div_multiples_vanish(n, lp);
            assert(m / lp == n);
            assert(m / lq == x / lq);
            vstd::arithmetic::div_mod::lemma_fundamental_div_mod(x, lq);
            vstd::arithmetic::div_mod::lemma_fundamental_div_mod(m, lq);
            assert(m - m % lq == x - x % lq);
        }
    }
}

proof fn lemma_block(a: nat, b: nat, bits: nat)
    ensures
        pow2(bits) > 0,
        same_prefix(a, b, bits) <==> a - a % pow2(bits) <= b < a - a % pow2(bits) + pow2(bits),
        a % pow2(bits) <= a,
{
    vstd::arithmetic::power2::lemma_pow2_pos(bits);
    let size = pow2(bits) as int;
    let (x, y) = (a as int, b as int);
    vstd::arithmetic::div_mod::lemma_fundamental_div_mod(x, size);
    vstd::arithmetic::div_mod::lemma_fundamental_div_mod(y, size);
    vstd::arithmetic::div_mod::lemma_mod_decreases(a, pow2(bits));
    let (p, q) = (x / size, y / size);
    let (r, s) = (x % size, y % size);
    assert(0 <= s < size);
    if p == q {
        assert(size * p == size * q);
    }
    assert(p != q ==> !(size * p <= y < size * p + size)) by (nonlinear_arith)
        requires
            y == size * q + s,
            0 <= s < size,
    ;
}

/// A network holds a block of addresses of its own family, and no others: as many as the bits
/// that do not count can tell apart, the first of them a multiple of their number, and its own
/// address among them.
pub proof fn a_network_holds_one_block(net: IpNet, v4: u32, v6: u128)
    requires
        net.wf(),
    ensures
        match net.address() {
            IpAddr::V4(a) => {
                let size = pow2((32 - net.prefix()) as nat);
                let start = a - a as nat % size;
                &&& net.holds(IpAddr::V4(v4)) <==> start <= v4 < start + size
                &&& net.holds(net.address())
                &&& !net.holds(IpAddr::V6(v6))
            },
            IpAddr::V6(a) => {
                let size = pow2((128 - net.prefix()) as nat);
                let start = a - a as nat % size;
                &&& net.holds(IpAddr::V6(v6)) <==> start <= v6 < start + size
                &&& net.holds(net.address())
                &&& !net.holds(IpAddr::V4(v4))
            },
        },
{
    match net.address() {
        IpAddr::V4(a) => {
            lemma_block(a as nat, v4 as nat, (32 - net.prefix()) as nat);
        },
        IpAddr::V6(a) => {
            lemma_block(a as nat, v6 as nat, (128 - net.prefix()) as nat);
        },
    }
}

/// A whole address as a network holds that address and no other.
pub proof fn a_whole_address_holds_itself_only(net: IpNet, ip: IpAddr)
    requires
        net.address() is V4 ==> net.prefix() == 32,
        net.address() is V6 ==> net.prefix() == 128,
    ensures
        net.holds(ip) <==> ip == net.address(),
{
    vstd::arithmetic::power2::lemma2_to64();
    match (net.address(), ip) {
        (IpAddr::V4(a), IpAddr::V4(b)) => {
            lemma_block(a as nat, b as nat, 0);
        },
        (IpAddr::V6(a), IpAddr::V6(b)) => {
            lemma_block(a as nat, b as nat, 0);
        },
        _ => {},
    }
}

/// A masked IPv6 address is the first of its block: the bits that do not count are cleared and
/// nothing else is.
pub proof fn masking_clears_the_bits_that_do_not_count(bits: u128, prefix: u8)
    ensures
        ({
            let size = pow2(
                if prefix > 128 {
                    0
                } else {
                    (128 - prefix) as nat
                },
            );
            masked(IpAddr::V6(bits), prefix) matches IpAddr::V6(m) && m as nat % size == 0 && m
                <= bits < m + size
        }),
{
    let free = (128 - clamped_prefix(prefix)) as nat;
    let size = pow2(free) as int;
    let x = bits as int;
    lemma_block(bits as nat, bits as nat, free);
    vstd::arithmetic::div_mod::lemma_fundamental_div_mod(x, size);
    let m = x - x % size;
    vstd::arithmetic::mul::lemma_mul_is_commutative(size, x / size);
    vstd::arithmetic::div_mod::lemma_mod_multiples_basic(x / size, size);
    assert(m % size == 0);
}

/// Two IPv6 addresses are masked alike exactly when the network of the one with as many bits
/// holds the other.
pub proof fn a_bucket_is_a_network(net: IpNet, a: u128, b: u128)
    requires
        net.address() == IpAddr::V6(a),
        net.wf(),
    ensures
        masked(IpAddr::V6(a), net.prefix()) == masked(IpAddr::V6(b), net.prefix()) <==> net.holds(
            IpAddr::V6(b),
        ),
{
    masked_equal_iff_same_prefix(a, b, net.prefix());
}

/// A list of networks holds what one of them holds, and nothing else.
pub proof fn a_list_holds_what_one_network_holds(a: Seq<IpNet>, net: IpNet, b: Seq<IpNet>, ip: IpAddr)
    ensures
        any_holds(a + b, ip) <==> any_holds(a, ip) || any_holds(b, ip),
        any_holds(seq![net], ip) <==> net.holds(ip),
        !any_holds(Seq::empty(), ip),
{
    let ab = a + b;
    if any_holds(a, ip) {
        let i = choose|i: int| 0 <= i < a.len() && (#[trigger] a[i]).holds(ip);
        assert(ab[i].holds(ip));
    }
    if any_holds(b, ip) {
        let i = choose|i: int| 0 <= i < b.len() && (#[trigger] b[i]).holds(ip);
        assert(ab[a.len() + i].holds(ip));
    }
    if any_holds(ab, ip) {
        let i = choose|i: int| 0 <= i < ab.len() && (#[trigger] ab[i]).holds(ip);
        if i < a.len() {
            assert(a[i].holds(ip));
        } else {
            assert(b[i - a.len()].holds(ip));
        }
    }
    if net.holds(ip) {
        assert(seq![net][0].holds(ip));
    }
}

/// Only a network of prefix 0 holds every IPv4 address.
pub proof fn only_the_whole_v4_network_holds_every_address(net: IpNet)
    requires
        net.wf(),
        net.address() is V4,
    ensures
        net.prefix() == 0 <==> forall|b: u32| #[trigger] net.holds(IpAddr::V4(b)),
{
    let a = net.address()->V4_0;
    if net.prefix() == 0 {
        assert forall|b: u32| #[trigger] net.holds(IpAddr::V4(b)) by {
            lemma_whole_v4(net, b);
        }
    } else {
        let far: u32 = if a >= 0x8000_0000 {
            0
        } else {
            0xffff_ffff
        };
        let bits = (32 - net.prefix()) as nat;
        vstd::arithmetic::power2::lemma2_to64();
        if bits < 31 {
            vstd::arithmetic::power2::lemma_pow2_strictly_increases(bits, 31);
        }
        lemma_block(a as nat, far as nat, bits);
        assert(a as nat % pow2(bits) < pow2(bits));
        assert(!net.holds(IpAddr::V4(far)));
    }
}

/// Only a network of prefix 0 holds every IPv6 address.
pub proof fn only_the_whole_v6_network_holds_every_address(net: IpNet)
    requires
        net.wf(),
        net.address() is V6,
    ensures
        net.prefix() == 0 <==> forall|b: u128| #[trigger] net.holds(IpAddr::V6(b)),
{
    let a = net.address()->V6_0;
    if net.prefix() == 0 {
        assert forall|b: u128| #[trigger] net.holds(IpAddr::V6(b)) by {
            lemma_whole_v6(net, b);
        }
    } else {
        let far: u128 = if a >= 0x8000_0000_0000_0000_0000_0000_0000_0000 {
            0
        } else {
            0xffff_ffff_ffff_ffff_ffff_ffff_ffff_ffff
        };
        let bits = (128 - net.prefix()) as nat;
        lemma_pow2_128();
        vstd::arithmetic::power2::lemma_pow2_unfold(128);
        assert(pow2(127) == 0x8000_0000_0000_0000_0000_0000_0000_0000);
        if bits < 127 {
            vstd::arithmetic::power2::lemma_pow2_strictly_increases(bits, 127);
        }
        lemma_block(a as nat, far as nat, bits);
        assert(a as nat % pow2(bits) < pow2(bits));
        assert(!net.holds(IpAddr::V6(far)));
    }
}

}
