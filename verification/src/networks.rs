//! CIDR networks, and the search for an unblocked neighbour inside one.
use vstd::prelude::*;
use crate::address::IpAddr;
use crate::blocklist::Blocklist;
use crate::text::{
    chars_of,
    copy_range,
    find_char,
    first_index,
    ip_text,
    lemma_first_index,
    lemma_split_append,
    lemma_split_step,
    lemma_split_without_sep,
    parse_ip,
    parse_u8,
    split,
    trim,
    trim_range,
    u8_text,
};

verus! {

/// An IPv4 or IPv6 network: a prefix length and the address its prefix bits spell.
#[allow(inconsistent_fields)]
#[derive(Debug, Clone, Copy, PartialEq, Eq, Structural)]
pub enum IpNetwork {
    V4 { network: u32, prefix_len: u8 },
    V6 { network: u128, prefix_len: u8 },
}

/// The IPv4 netmask with the top `prefix_len` bits set.
pub open spec fn mask4(prefix_len: u8) -> u32 {
    if prefix_len == 0 {
        0
    } else {
        u32::MAX << ((32 - prefix_len) as u32)
    }
}

/// The IPv6 netmask with the top `prefix_len` bits set.
pub open spec fn mask6(prefix_len: u8) -> u128 {
    if prefix_len == 0 {
        0
    } else {
        u128::MAX << ((128 - prefix_len) as u128)
    }
}

impl IpNetwork {
    /// The prefix length fits the address family.
    pub open spec fn prefix_ok(self) -> bool {
        match self {
            IpNetwork::V4 { prefix_len, .. } => prefix_len <= 32,
            IpNetwork::V6 { prefix_len, .. } => prefix_len <= 128,
        }
    }

    /// The prefix length fits, and no bit past the prefix is set.
    pub open spec fn wf(self) -> bool {
        &&& self.prefix_ok()
        &&& match self {
            IpNetwork::V4 { network, prefix_len } => network & mask4(prefix_len) == network,
            IpNetwork::V6 { network, prefix_len } => network & mask6(prefix_len) == network,
        }
    }

    /// `address` is of the network's family and agrees with it on the prefix bits.
    pub open spec fn spec_contains(self, address: IpAddr) -> bool {
        match (self, address) {
            (IpNetwork::V4 { network, prefix_len }, IpAddr::V4(a)) => a & mask4(prefix_len)
                == network,
            (IpNetwork::V6 { network, prefix_len }, IpAddr::V6(a)) => a & mask6(prefix_len)
                == network,
            _ => false,
        }
    }

    /// Whether `address` lies in this network.
    pub fn contains(&self, address: &IpAddr) -> (res: bool)
        requires
            self.prefix_ok(),
        ensures
            res == self.spec_contains(*address),
    {
        match (self, address) {
            (IpNetwork::V4 { network, prefix_len }, IpAddr::V4(a)) => {
                let mask = ipv4_mask(*prefix_len);
                *a & mask == *network
            },
            (IpNetwork::V6 { network, prefix_len }, IpAddr::V6(a)) => {
                let mask = ipv6_mask(*prefix_len);
                *a & mask == *network
            },
            _ => false,
        }
    }
}

/// The IPv4 netmask of a prefix length.
pub fn ipv4_mask(prefix_len: u8) -> (mask: u32)
    requires
        prefix_len <= 32,
    ensures
        mask == mask4(prefix_len),
{
    if prefix_len == 0 {
        0
    } else {
        u32::MAX << (32 - prefix_len) as u32
    }
}

/// The IPv6 netmask of a prefix length.
pub fn ipv6_mask(prefix_len: u8) -> (mask: u128)
    requires
        prefix_len <= 128,
    ensures
        mask == mask6(prefix_len),
{
    if prefix_len == 0 {
        0
    } else {
        u128::MAX << (128 - prefix_len) as u128
    }
}

/// The first network of `networks` that contains `address`.
pub open spec fn first_containing(networks: Seq<IpNetwork>, address: IpAddr) -> Option<IpNetwork>
    decreases networks.len(),
{
    if networks.len() == 0 {
        None
    } else if networks[0].spec_contains(address) {
        Some(networks[0])
    } else {
        first_containing(networks.drop_first(), address)
    }
}

/// An ordered list of networks.
#[derive(Debug)]
pub struct NetworkList {
    networks: Vec<IpNetwork>,
}

impl View for NetworkList {
    type V = Seq<IpNetwork>;

    closed spec fn view(&self) -> Seq<IpNetwork> {
        self.networks@
    }
}

impl NetworkList {
    #[verifier::type_invariant]
    closed spec fn inv(self) -> bool {
        forall|i: int| 0 <= i < self.networks@.len() ==> (#[trigger] self.networks@[i]).wf()
    }

    /// Whether some network of the list contains `address`.
    pub fn contains(&self, address: &IpAddr) -> (res: bool)
        ensures
            res == exists|i: int|
                0 <= i < self@.len() && (#[trigger] self@[i]).spec_contains(*address),
    {
        proof {
            use_type_invariant(self);
        }
        let mut i: usize = 0;
        while i < self.networks.len()
            invariant
                i <= self.networks@.len(),
                forall|j: int| 0 <= j < self.networks@.len() ==> (#[trigger] self.networks@[j]).wf(),
                forall|j: int| 0 <= j < i ==> !(#[trigger] self.networks@[j]).spec_contains(*address),
            decreases self.networks@.len() - i,
        {
            if self.networks[i].contains(address) {
                assert(self@[i as int].spec_contains(*address));
                return true;
            }
            i = i + 1;
        }
        false
    }

    /// The number of networks in the list.
    pub fn len(&self) -> (res: usize)
        ensures
            res == self@.len(),
    {
        self.networks.len()
    }
}


/// Candidates tried inside the address's own /24, nearest first: 254 distances, each
/// above and then below.
pub const V4_NEAR_CANDIDATES: u32 = 508;

/// All IPv4 candidates: those of the /24, then 65535 distances above and below.
pub const V4_CANDIDATES: u32 = 131578;

/// IPv6 candidates: 1023 distances, each above and then below.
pub const V6_CANDIDATES: u32 = 2046;

/// The `k`-th IPv4 address tried as a replacement for the address `value`, if that step names an
/// address at all. First come the addresses of the same /24 at distance 1, 2, ... 254
/// (above, then below), whose last octet is 1 to 254; then the addresses at distance
/// 1, 2, ... 65535 (above, then below), that exist and whose last octet is 1 to 254.
pub open spec fn v4_candidate(value: u32, k: int) -> Option<u32> {
    if k < V4_NEAR_CANDIDATES {
        let distance = k / 2 + 1;
        let last = value % 256;
        let candidate_last = if k % 2 == 0 {
            last + distance
        } else {
            last - distance
        };
        if 1 <= candidate_last <= 254 {
            Some((value - last + candidate_last) as u32)
        } else {
            None
        }
    } else {
        let j = k - V4_NEAR_CANDIDATES;
        let distance = j / 2 + 1;
        let candidate = if j % 2 == 0 {
            value + distance
        } else {
            value - distance
        };
        if 0 <= candidate <= u32::MAX && 1 <= candidate % 256 <= 254 {
            Some(candidate as u32)
        } else {
            None
        }
    }
}

/// The `k`-th IPv6 address tried as a replacement for the address `value`: the addresses at
/// distance 1, 2, ... 1023, above and then below, that exist.
pub open spec fn v6_candidate(value: u128, k: int) -> Option<u128> {
    let distance = k / 2 + 1;
    let candidate = if k % 2 == 0 {
        value + distance
    } else {
        value - distance
    };
    if 0 <= candidate <= u128::MAX {
        Some(candidate as u128)
    } else {
        None
    }
}

/// `address` may replace a blocked one: it is in `network` and not blocked.
pub open spec fn usable(network: IpNetwork, blocked: Set<IpAddr>, address: IpAddr) -> bool {
    network.spec_contains(address) && !blocked.contains(address)
}

/// The first usable IPv4 candidate from step `k` on.
pub open spec fn first_usable_v4(
    network: IpNetwork,
    blocked: Set<IpAddr>,
    value: u32,
    k: int,
) -> Option<u32>
    decreases V4_CANDIDATES - k,
{
    if k < 0 || k >= V4_CANDIDATES {
        None
    } else {
        match v4_candidate(value, k) {
            Some(c) => if usable(network, blocked, IpAddr::V4(c)) {
                Some(c)
            } else {
                first_usable_v4(network, blocked, value, k + 1)
            },
            None => first_usable_v4(network, blocked, value, k + 1),
        }
    }
}

/// The first usable IPv6 candidate from step `k` on.
pub open spec fn first_usable_v6(
    network: IpNetwork,
    blocked: Set<IpAddr>,
    value: u128,
    k: int,
) -> Option<u128>
    decreases V6_CANDIDATES - k,
{
    if k < 0 || k >= V6_CANDIDATES {
        None
    } else {
        match v6_candidate(value, k) {
            Some(c) => if usable(network, blocked, IpAddr::V6(c)) {
                Some(c)
            } else {
                first_usable_v6(network, blocked, value, k + 1)
            },
            None => first_usable_v6(network, blocked, value, k + 1),
        }
    }
}

/// The first candidate for `address`, in the order above, that lies in `network` and is
/// not blocked.
pub open spec fn spec_search_in(network: IpNetwork, address: IpAddr, blocked: Set<IpAddr>) -> Option<
    IpAddr,
> {
    match address {
        IpAddr::V4(value) => match first_usable_v4(network, blocked, value, 0) {
            Some(c) => Some(IpAddr::V4(c)),
            None => None,
        },
        IpAddr::V6(value) => match first_usable_v6(network, blocked, value, 0) {
            Some(c) => Some(IpAddr::V6(c)),
            None => None,
        },
    }
}

/// The replacement for `address`: none if no network of `networks` contains it;
/// otherwise the first candidate, in the order above, that lies in the first network
/// containing `address` and is not blocked.
pub open spec fn spec_find_evasive(
    address: IpAddr,
    networks: Seq<IpNetwork>,
    blocked: Set<IpAddr>,
) -> Option<IpAddr> {
    match first_containing(networks, address) {
        None => None,
        Some(network) => spec_search_in(network, address, blocked),
    }
}

/// Computes the `k`-th IPv4 candidate.
fn v4_candidate_at(value: u32, k: u32) -> (res: Option<u32>)
    requires
        k < V4_CANDIDATES,
    ensures
        res == v4_candidate(value, k as int),
{
    if k < V4_NEAR_CANDIDATES {
        let distance: i64 = (k / 2 + 1) as i64;
        let last: i64 = (value % 256) as i64;
        let candidate_last: i64 = if k % 2 == 0 {
            last + distance
        } else {
            last - distance
        };
        if 1 <= candidate_last && candidate_last <= 254 {
            let base: u32 = value - value % 256;
            Some(base + candidate_last as u32)
        } else {
            None
        }
    } else {
        let j = k - V4_NEAR_CANDIDATES;
        let distance: u32 = j / 2 + 1;
        let candidate = if j % 2 == 0 {
            value.checked_add(distance)
        } else {
            value.checked_sub(distance)
        };
        match candidate {
            Some(c) => if 1 <= c % 256 && c % 256 <= 254 {
                Some(c)
            } else {
                None
            },
            None => None,
        }
    }
}

/// Computes the `k`-th IPv6 candidate.
fn v6_candidate_at(value: u128, k: u32) -> (res: Option<u128>)
    ensures
        res == v6_candidate(value, k as int),
{
    let distance: u128 = (k / 2 + 1) as u128;
    if k % 2 == 0 {
        value.checked_add(distance)
    } else {
        value.checked_sub(distance)
    }
}

impl NetworkList {
    /// The first network of the list that contains `address`.
    pub fn first_containing(&self, address: &IpAddr) -> (res: Option<IpNetwork>)
        ensures
            res == first_containing(self@, *address),
            res matches Some(n) ==> n.wf(),
    {
        proof {
            use_type_invariant(self);
        }
        let mut i: usize = 0;
        assert(self@.subrange(0, self@.len() as int) =~= self@);
        while i < self.networks.len()
            invariant
                i <= self.networks@.len(),
                forall|j: int| 0 <= j < self.networks@.len() ==> (#[trigger] self.networks@[j]).wf(),
                first_containing(self@, *address) == first_containing(
                    self@.subrange(i as int, self@.len() as int),
                    *address,
                ),
            decreases self.networks@.len() - i,
        {
            let ghost rest = self@.subrange(i as int, self@.len() as int);
            assert(rest.drop_first() =~= self@.subrange(i + 1, self@.len() as int));
            if self.networks[i].contains(address) {
                return Some(self.networks[i]);
            }
            i = i + 1;
        }
        None
    }
}

/// Looks for an address to use in place of a blocked `address`: one in the same network
/// of `networks`, not in `blocked`, and near `address`. See `spec_find_evasive` for the
/// order in which candidates are tried.
pub fn find_evasive_address(address: &IpAddr, networks: &NetworkList, blocked: &Blocklist) -> (res:
    Option<IpAddr>)
    ensures
        res == spec_find_evasive(*address, networks@, blocked@),
{
    match networks.first_containing(address) {
        Some(network) => search_in_network(address, network, blocked),
        None => None,
    }
}

/// The first candidate for `address` that lies in `network` and is not blocked.
pub fn search_in_network(address: &IpAddr, network: IpNetwork, blocked: &Blocklist) -> (res: Option<
    IpAddr,
>)
    requires
        network.wf(),
    ensures
        res == spec_search_in(network, *address, blocked@),
{
    match address {
        IpAddr::V4(value) => {
            let mut k: u32 = 0;
            while k < V4_CANDIDATES
                invariant
                    network.wf(),
                    *address == IpAddr::V4(*value),
                    first_usable_v4(network, blocked@, *value, 0) == first_usable_v4(
                        network,
                        blocked@,
                        *value,
                        k as int,
                    ),
                decreases V4_CANDIDATES - k,
            {
                if let Some(c) = v4_candidate_at(*value, k) {
                    let candidate = IpAddr::V4(c);
                    if network.contains(&candidate) && !blocked.contains(&candidate) {
                        return Some(candidate);
                    }
                }
                k = k + 1;
            }
            None
        },
        IpAddr::V6(value) => {
            let mut k: u32 = 0;
            while k < V6_CANDIDATES
                invariant
                    network.wf(),
                    *address == IpAddr::V6(*value),
                    first_usable_v6(network, blocked@, *value, 0) == first_usable_v6(
                        network,
                        blocked@,
                        *value,
                        k as int,
                    ),
                decreases V6_CANDIDATES - k,
            {
                let c = v6_candidate_at(*value, k);
                if let Some(c) = c {
                    let candidate = IpAddr::V6(c);
                    if network.contains(&candidate) && !blocked.contains(&candidate) {
                        return Some(candidate);
                    }
                }
                k = k + 1;
            }
            None
        },
    }
}


proof fn lemma_first_containing(networks: Seq<IpNetwork>, address: IpAddr)
    requires
        first_containing(networks, address) is Some,
    ensures
        first_containing(networks, address)->0.spec_contains(address),
        exists|i: int|
            0 <= i < networks.len() && networks[i] == first_containing(networks, address)->0,
    decreases networks.len(),
{
    if !networks[0].spec_contains(address) {
        lemma_first_containing(networks.drop_first(), address);
        let i = choose|i: int|
            0 <= i < networks.drop_first().len() && networks.drop_first()[i] == first_containing(
                networks.drop_first(),
                address,
            )->0;
        assert(networks[i + 1] == networks.drop_first()[i]);
    }
}

/// The first network of `v4 + v6` containing `address` is the first of `v4` if there is
/// one, else the first of `v6`.
pub proof fn lemma_first_containing_concat(v4: Seq<IpNetwork>, v6: Seq<IpNetwork>, address: IpAddr)
    ensures
        first_containing(v4 + v6, address) == (match first_containing(v4, address) {
            Some(n) => Some(n),
            None => first_containing(v6, address),
        }),
    decreases v4.len(),
{
    if v4.len() == 0 {
        assert(v4 + v6 =~= v6);
    } else {
        assert((v4 + v6)[0] == v4[0]);
        assert((v4 + v6).drop_first() =~= v4.drop_first() + v6);
        lemma_first_containing_concat(v4.drop_first(), v6, address);
    }
}

proof fn lemma_first_usable_v4(network: IpNetwork, blocked: Set<IpAddr>, value: u32, k: int)
    requires
        first_usable_v4(network, blocked, value, k) is Some,
    ensures
        usable(network, blocked, IpAddr::V4(first_usable_v4(network, blocked, value, k)->0)),
        first_usable_v4(network, blocked, value, k)->0 != value,
    decreases V4_CANDIDATES - k,
{
    match v4_candidate(value, k) {
        Some(c) => {
            if !usable(network, blocked, IpAddr::V4(c)) {
                lemma_first_usable_v4(network, blocked, value, k + 1);
            }
        },
        None => {
            lemma_first_usable_v4(network, blocked, value, k + 1);
        },
    }
}

proof fn lemma_first_usable_v6(network: IpNetwork, blocked: Set<IpAddr>, value: u128, k: int)
    requires
        first_usable_v6(network, blocked, value, k) is Some,
    ensures
        usable(network, blocked, IpAddr::V6(first_usable_v6(network, blocked, value, k)->0)),
        first_usable_v6(network, blocked, value, k)->0 != value,
    decreases V6_CANDIDATES - k,
{
    match v6_candidate(value, k) {
        Some(c) => {
            if !usable(network, blocked, IpAddr::V6(c)) {
                lemma_first_usable_v6(network, blocked, value, k + 1);
            }
        },
        None => {
            lemma_first_usable_v6(network, blocked, value, k + 1);
        },
    }
}

/// A replacement is only ever found for an address inside one of the networks, and then
/// lies inside that same network, is not blocked, differs from the address it replaces
/// and is of the same family.
pub proof fn lemma_evasive_address_stays_in_network(
    address: IpAddr,
    networks: Seq<IpNetwork>,
    blocked: Set<IpAddr>,
)
    requires
        spec_find_evasive(address, networks, blocked) is Some,
    ensures
        ({
            let replacement = spec_find_evasive(address, networks, blocked)->0;
            exists|i: int|
                0 <= i < networks.len() && #[trigger] networks[i].spec_contains(address)
                    && networks[i].spec_contains(replacement)
        }),
        !blocked.contains(spec_find_evasive(address, networks, blocked)->0),
        spec_find_evasive(address, networks, blocked)->0 != address,
        (spec_find_evasive(address, networks, blocked)->0 is V4) == (address is V4),
{
    let network = first_containing(networks, address)->0;
    lemma_first_containing(networks, address);
    match address {
        IpAddr::V4(value) => {
            lemma_first_usable_v4(network, blocked, value, 0);
        },
        IpAddr::V6(value) => {
            lemma_first_usable_v6(network, blocked, value, 0);
        },
    }
    let i = choose|i: int| 0 <= i < networks.len() && networks[i] == network;
    assert(networks[i].spec_contains(address));
}

/// An IPv4 address lies in a well-formed network of prefix length `p` exactly when its
/// top `p` bits are those of the network address.
pub proof fn lemma_ipv4_contains_is_prefix_match(network: u32, prefix_len: u8, a: u32)
    requires
        (IpNetwork::V4 { network, prefix_len }).wf(),
        0 < prefix_len,
    ensures
        (IpNetwork::V4 { network, prefix_len }).spec_contains(IpAddr::V4(a)) <==> (a >> ((32
            - prefix_len) as u32) == network >> ((32 - prefix_len) as u32)),
{
    let s: u32 = (32 - prefix_len) as u32;
    assert(s < 32 && network & (u32::MAX << s) == network ==> ((a & (u32::MAX << s) == network)
        <==> (a >> s == network >> s))) by (bit_vector);
}

/// An IPv6 address lies in a well-formed network of prefix length `p` exactly when its
/// top `p` bits are those of the network address.
#[verifier::rlimit(100)]
pub proof fn lemma_ipv6_contains_is_prefix_match(network: u128, prefix_len: u8, a: u128)
    requires
        (IpNetwork::V6 { network, prefix_len }).wf(),
        0 < prefix_len,
    ensures
        (IpNetwork::V6 { network, prefix_len }).spec_contains(IpAddr::V6(a)) <==> (a >> ((128
            - prefix_len) as u128) == network >> ((128 - prefix_len) as u128)),
{
    let s: u128 = (128 - prefix_len) as u128;
    assert(s < 128 && network & (u128::MAX << s) == network ==> ((a & (u128::MAX << s)
        == network) <==> (a >> s == network >> s))) by (bit_vector);
}

/// The distance between two addresses.
pub open spec fn distance(a: int, b: int) -> int {
    if a >= b {
        a - b
    } else {
        b - a
    }
}

/// When the IPv4 candidate of step `j` is usable, the search from step `k` (at most `j`)
/// finds a usable one at a step between `k` and `j`.
proof fn lemma_first_usable_v4_reaches(
    network: IpNetwork,
    blocked: Set<IpAddr>,
    value: u32,
    k: int,
    j: int,
)
    requires
        0 <= k <= j < V4_CANDIDATES,
        v4_candidate(value, j) is Some,
        usable(network, blocked, IpAddr::V4(v4_candidate(value, j)->0)),
    ensures
        first_usable_v4(network, blocked, value, k) is Some,
        exists|i: int|
            k <= i <= j && v4_candidate(value, i) == Some(
                first_usable_v4(network, blocked, value, k)->0,
            ),
    decreases j - k,
{
    match v4_candidate(value, k) {
        Some(c) => {
            if usable(network, blocked, IpAddr::V4(c)) {
                assert(v4_candidate(value, k) == Some(first_usable_v4(network, blocked, value, k)->0));
            } else {
                lemma_first_usable_v4_reaches(network, blocked, value, k + 1, j);
            }
        },
        None => {
            lemma_first_usable_v4_reaches(network, blocked, value, k + 1, j);
        },
    }
}

proof fn lemma_first_usable_v6_reaches(
    network: IpNetwork,
    blocked: Set<IpAddr>,
    value: u128,
    k: int,
    j: int,
)
    requires
        0 <= k <= j < V6_CANDIDATES,
        v6_candidate(value, j) is Some,
        usable(network, blocked, IpAddr::V6(v6_candidate(value, j)->0)),
    ensures
        first_usable_v6(network, blocked, value, k) is Some,
        exists|i: int|
            k <= i <= j && v6_candidate(value, i) == Some(
                first_usable_v6(network, blocked, value, k)->0,
            ),
    decreases j - k,
{
    match v6_candidate(value, k) {
        Some(c) => {
            if usable(network, blocked, IpAddr::V6(c)) {
                assert(v6_candidate(value, k) == Some(first_usable_v6(network, blocked, value, k)->0));
            } else {
                lemma_first_usable_v6_reaches(network, blocked, value, k + 1, j);
            }
        },
        None => {
            lemma_first_usable_v6_reaches(network, blocked, value, k + 1, j);
        },
    }
}

/// A blocked IPv4 address is replaced inside its own /24 whenever that /24 holds a usable
/// address: one with last octet 1 to 254, other than it, inside the first network
/// containing it, and not blocked. The replacement is then such an address, none is
/// nearer, and of two at the same distance the higher one is taken.
pub proof fn lemma_evasive_v4_prefers_own_slash24(
    value: u32,
    networks: Seq<IpNetwork>,
    blocked: Set<IpAddr>,
    c: u32,
)
    requires
        first_containing(networks, IpAddr::V4(value)) is Some,
        c / 256 == value / 256,
        1 <= c % 256 <= 254,
        c != value,
        first_containing(networks, IpAddr::V4(value))->0.spec_contains(IpAddr::V4(c)),
        !blocked.contains(IpAddr::V4(c)),
    ensures
        spec_find_evasive(IpAddr::V4(value), networks, blocked) matches Some(IpAddr::V4(r)) && r
            / 256 == value / 256 && 1 <= r % 256 <= 254 && r != value && distance(r as int, value as int)
            <= distance(c as int, value as int) && (distance(r as int, value as int) == distance(
            c as int,
            value as int,
        ) && c > value ==> r == c),
{
    let network = first_containing(networks, IpAddr::V4(value))->0;
    let d = distance(c as int, value as int);
    let kc: int = if c > value {
        2 * (d - 1)
    } else {
        2 * (d - 1) + 1
    };
    assert(value == (value / 256) * 256 + value % 256);
    assert(c == (c / 256) * 256 + c % 256);
    assert(1 <= d <= 254);
    assert(kc / 2 + 1 == d);
    assert(v4_candidate(value, kc) == Some(c));
    lemma_first_usable_v4_reaches(network, blocked, value, 0, kc);
    let r = first_usable_v4(network, blocked, value, 0)->0;
    let i = choose|i: int| 0 <= i <= kc && v4_candidate(value, i) == Some(r);
    assert(i / 2 <= kc / 2);
    lemma_first_usable_v4(network, blocked, value, 0);
}

/// A blocked IPv6 address is replaced whenever an address within 1023 of it, other than
/// it, lies inside the first network containing it and is not blocked. The replacement
/// is then no farther from it, and of two at the same distance the higher one is taken.
pub proof fn lemma_evasive_v6_nearest(
    value: u128,
    networks: Seq<IpNetwork>,
    blocked: Set<IpAddr>,
    c: u128,
)
    requires
        first_containing(networks, IpAddr::V6(value)) is Some,
        c != value,
        distance(c as int, value as int) <= 1023,
        first_containing(networks, IpAddr::V6(value))->0.spec_contains(IpAddr::V6(c)),
        !blocked.contains(IpAddr::V6(c)),
    ensures
        spec_find_evasive(IpAddr::V6(value), networks, blocked) matches Some(IpAddr::V6(r)) && r
            != value && distance(r as int, value as int) <= distance(c as int, value as int) && (
        distance(r as int, value as int) == distance(c as int, value as int) && c > value ==> r
            == c),
{
    let network = first_containing(networks, IpAddr::V6(value))->0;
    let d = distance(c as int, value as int);
    let kc: int = if c > value {
        2 * (d - 1)
    } else {
        2 * (d - 1) + 1
    };
    assert(kc / 2 + 1 == d);
    assert(v6_candidate(value, kc) == Some(c));
    lemma_first_usable_v6_reaches(network, blocked, value, 0, kc);
    let r = first_usable_v6(network, blocked, value, 0)->0;
    let i = choose|i: int| 0 <= i <= kc && v6_candidate(value, i) == Some(r);
    assert(i / 2 <= kc / 2);
    lemma_first_usable_v6(network, blocked, value, 0);
}

/// A well-formed network contains its own network address.
pub proof fn lemma_network_contains_itself(network: IpNetwork)
    requires
        network.wf(),
    ensures
        network.spec_contains(
            match network {
                IpNetwork::V4 { network, .. } => IpAddr::V4(network),
                IpNetwork::V6 { network, .. } => IpAddr::V6(network),
            },
        ),
{
}


/// Why a line could not be read as a network in CIDR notation.
#[derive(Debug, Clone, Copy, PartialEq, Eq, Structural)]
pub enum NetworkError {
    /// There is no `/` before a prefix length.
    MissingPrefix,
    /// The text before the `/` is not an IP address.
    InvalidAddress,
    /// The text after the `/` is not a number from 0 to 255.
    InvalidPrefixLength,
    /// An IPv4 prefix longer than 32 bits.
    Ipv4PrefixTooLong { prefix_len: u8 },
    /// An IPv6 prefix longer than 128 bits.
    Ipv6PrefixTooLong { prefix_len: u8 },
}

/// The network written `address/prefix_len` in `text`, with the bits of the address
/// past the prefix cleared, or why it is not one.
pub open spec fn spec_parse_network(text: Seq<char>) -> Result<IpNetwork, NetworkError> {
    let slash = first_index(text, '/');
    if slash >= text.len() {
        Err(NetworkError::MissingPrefix)
    } else {
        match ip_text(text.take(slash as int)) {
            None => Err(NetworkError::InvalidAddress),
            Some(address) => match u8_text(text.skip(slash + 1 as int)) {
                None => Err(NetworkError::InvalidPrefixLength),
                Some(prefix_len) => match address {
                    IpAddr::V4(a) => if prefix_len > 32 {
                        Err(NetworkError::Ipv4PrefixTooLong { prefix_len })
                    } else {
                        Ok(IpNetwork::V4 { network: a & mask4(prefix_len), prefix_len })
                    },
                    IpAddr::V6(a) => if prefix_len > 128 {
                        Err(NetworkError::Ipv6PrefixTooLong { prefix_len })
                    } else {
                        Ok(IpNetwork::V6 { network: a & mask6(prefix_len), prefix_len })
                    },
                },
            },
        }
    }
}

/// Reads the network written in `cs[lo..hi]`.
pub fn parse_network_chars(cs: &[char], lo: usize, hi: usize) -> (res: Result<
    IpNetwork,
    NetworkError,
>)
    requires
        lo <= hi <= cs@.len(),
    ensures
        res == spec_parse_network(cs@.subrange(lo as int, hi as int)),
        res matches Ok(n) ==> n.wf(),
{
    let ghost t = cs@.subrange(lo as int, hi as int);
    let slash = find_char(cs, lo, hi, '/');
    if slash == hi {
        return Err(NetworkError::MissingPrefix);
    }
    proof {
        lemma_first_index(t, '/');
        assert(t.take(slash - lo) =~= cs@.subrange(lo as int, slash as int));
        assert(t.skip(slash - lo + 1) =~= cs@.subrange(slash + 1, hi as int));
    }
    let address = match parse_ip(cs, lo, slash) {
        Some(a) => a,
        None => {
            return Err(NetworkError::InvalidAddress);
        },
    };
    let prefix_len = match parse_u8(cs, slash + 1, hi) {
        Some(p) => p,
        None => {
            return Err(NetworkError::InvalidPrefixLength);
        },
    };
    match address {
        IpAddr::V4(a) => {
            if prefix_len > 32 {
                return Err(NetworkError::Ipv4PrefixTooLong { prefix_len });
            }
            let mask = ipv4_mask(prefix_len);
            let network = a & mask;
            assert(network & mask == network) by (bit_vector)
                requires
                    network == a & mask,
            ;
            Ok(IpNetwork::V4 { network, prefix_len })
        },
        IpAddr::V6(a) => {
            if prefix_len > 128 {
                return Err(NetworkError::Ipv6PrefixTooLong { prefix_len });
            }
            let mask = ipv6_mask(prefix_len);
            let network = a & mask;
            assert(network & mask == network) by (bit_vector)
                requires
                    network == a & mask,
            ;
            Ok(IpNetwork::V6 { network, prefix_len })
        },
    }
}

/// Reads a network written in CIDR notation, `address/prefix_len`. Bits of the address
/// past the prefix are cleared.
pub fn parse_network(value: &str) -> (res: Result<IpNetwork, NetworkError>)
    ensures
        res == spec_parse_network(value@),
        res matches Ok(n) ==> n.wf(),
{
    let cs = chars_of(value);
    assert(cs@.subrange(0, cs@.len() as int) =~= value@);
    parse_network_chars(cs.as_slice(), 0, cs.len())
}

/// Why the text of a network list could not be read.
#[derive(Debug, Clone, PartialEq, Eq)]
pub enum NetworkListError {
    /// Line `line` (counting from 1), which reads `text` without its surrounding white
    /// space, is not a network in CIDR notation, for the reason `error`.
    InvalidNetwork { line: usize, text: Vec<char>, error: NetworkError },
}

/// Whether a trimmed line is blank or a comment.
pub open spec fn ignored(line: Seq<char>) -> bool {
    line.len() == 0 || line[0] == '#'
}

/// The networks of `lines`, the first being line `number + 1`, or the number, the
/// trimmed text and the error of the first line that is not a network.
pub open spec fn spec_network_lines(lines: Seq<Seq<char>>, number: nat) -> Result<
    Seq<IpNetwork>,
    (usize, Seq<char>, NetworkError),
>
    decreases lines.len(),
{
    if lines.len() == 0 {
        Ok(Seq::empty())
    } else {
        let line = trim(lines[0]);
        let rest = spec_network_lines(lines.drop_first(), number + 1);
        if ignored(line) {
            rest
        } else {
            match spec_parse_network(line) {
                Err(error) => Err(((number + 1) as usize, line, error)),
                Ok(network) => match rest {
                    Ok(networks) => Ok(seq![network] + networks),
                    Err(e) => Err(e),
                },
            }
        }
    }
}

/// `found` before whatever `rest` holds.
pub open spec fn prefixed<T, E>(found: Seq<T>, rest: Result<Seq<T>, E>) -> Result<Seq<T>, E> {
    match rest {
        Ok(r) => Ok(found + r),
        Err(e) => Err(e),
    }
}

impl NetworkList {
    /// Reads a network list: one network in CIDR notation per line. White space around
    /// a line is ignored, and so are blank lines and lines starting with `#`.
    pub fn load(content: &str) -> (res: Result<NetworkList, NetworkListError>)
        ensures
            (match spec_network_lines(split(content@, '\n'), 0) {
                Ok(networks) => res is Ok && res->Ok_0@ == networks,
                Err((line, text, error)) => res matches Err(
                    NetworkListError::InvalidNetwork { line: l, text: t, error: e },
                ) && l == line && t@ == text && e == error,
            }),
    {
        let chars = chars_of(content);
        let cs = chars.as_slice();
        let n = cs.len();
        let ghost all = split(cs@, '\n');
        let mut networks: Vec<IpNetwork> = Vec::new();
        let mut pos: usize = 0;
        let mut number: usize = 0;
        assert(cs@.subrange(0, n as int) =~= cs@);
        assert(prefixed(networks@, spec_network_lines(all, 0)) == spec_network_lines(all, 0)) by {
            match spec_network_lines(all, 0) {
                Ok(r) => {
                    assert(networks@ + r =~= r);
                },
                Err(_) => {},
            }
        }
        loop
            invariant
                pos <= n == cs@.len(),
                cs@ == content@,
                all == split(cs@, '\n'),
                number <= pos,
                spec_network_lines(all, 0) == prefixed(
                    networks@,
                    spec_network_lines(split(cs@.subrange(pos as int, n as int), '\n'), number as nat),
                ),
                forall|i: int| 0 <= i < networks@.len() ==> (#[trigger] networks@[i]).wf(),
            decreases n - pos,
        {
            let ghost r = cs@.subrange(pos as int, n as int);
            let ghost before = networks@;
            let end = find_char(cs, pos, n, '\n');
            proof {
                lemma_split_step(r, '\n');
                assert(r.take(end - pos) =~= cs@.subrange(pos as int, end as int));
                if end < n {
                    assert(r.skip(end - pos + 1) =~= cs@.subrange(end + 1, n as int));
                    assert(split(r, '\n').drop_first() =~= split(cs@.subrange(end + 1, n as int), '\n'));
                } else {
                    assert(split(r, '\n').drop_first() =~= Seq::<Seq<char>>::empty());
                }
            }
            let (a, b) = trim_range(cs, pos, end);
            assert(split(r, '\n')[0] == cs@.subrange(pos as int, end as int));
            assert(trim(split(r, '\n')[0]) == cs@.subrange(a as int, b as int));
            assert(a < b ==> cs@.subrange(a as int, b as int)[0] == cs@[a as int]);
            if !(a == b || cs[a] == '#') {
                match parse_network_chars(cs, a, b) {
                    Ok(network) => {
                        networks.push(network);
                    },
                    Err(error) => {
                        let text = copy_range(cs, a, b);
                        return Err(NetworkListError::InvalidNetwork { line: number + 1, text, error });
                    },
                }
            }
            let ghost rest = if end < n {
                split(cs@.subrange(end + 1, n as int), '\n')
            } else {
                Seq::<Seq<char>>::empty()
            };
            proof {
                let added = networks@.subrange(before.len() as int, networks@.len() as int);
                assert(networks@ =~= before + added);
                let line = cs@.subrange(a as int, b as int);
                assert(spec_network_lines(split(r, '\n'), number as nat) == (if ignored(line) {
                    spec_network_lines(rest, (number + 1) as nat)
                } else {
                    match spec_parse_network(line) {
                        Err(error) => Err(((number + 1) as usize, line, error)),
                        Ok(network) => prefixed(seq![network], spec_network_lines(rest, (number + 1) as nat)),
                    }
                }));
                if ignored(line) {
                    assert(added =~= Seq::<IpNetwork>::empty());
                } else {
                    assert(added =~= seq![spec_parse_network(line)->Ok_0]);
                }
                match spec_network_lines(rest, (number + 1) as nat) {
                    Ok(x) => {
                        assert(before + (added + x) =~= (before + added) + x);
                    },
                    Err(_) => {},
                }
            }
            if end == n {
                assert(spec_network_lines(rest, (number + 1) as nat) == Ok::<
                    Seq<IpNetwork>,
                    (usize, Seq<char>, NetworkError),
                >(Seq::empty()));
                assert(networks@ + Seq::<IpNetwork>::empty() =~= networks@);
                return Ok(NetworkList { networks });
            }
            pos = end + 1;
            number = number + 1;
        }
    }
}

/// The lines of `lines` that are neither blank nor a comment once trimmed, in order.
pub open spec fn entry_lines(lines: Seq<Seq<char>>) -> Seq<Seq<char>> {
    lines.filter(|l: Seq<char>| !ignored(trim(l)))
}

/// The network that each of `lines` spells once trimmed, in order.
pub open spec fn networks_spelled(lines: Seq<Seq<char>>) -> Seq<IpNetwork> {
    lines.map_values(|l: Seq<char>| spec_parse_network(trim(l))->Ok_0)
}

/// Whether line `i` of `lines`, once trimmed, is blank, a comment or a network.
pub open spec fn network_line_readable(lines: Seq<Seq<char>>, i: int) -> bool {
    !ignored(trim(lines[i])) ==> spec_parse_network(trim(lines[i])) is Ok
}

proof fn lemma_network_lines_ok(lines: Seq<Seq<char>>, number: nat)
    ensures
        spec_network_lines(lines, number) is Ok <==> forall|i: int|
            0 <= i < lines.len() ==> #[trigger] network_line_readable(lines, i),
        spec_network_lines(lines, number) is Ok ==> spec_network_lines(lines, number)->Ok_0
            == networks_spelled(entry_lines(lines)),
    decreases lines.len(),
{
    if lines.len() == 0 {
        reveal(Seq::filter);
        assert(networks_spelled(entry_lines(lines)) =~= Seq::<IpNetwork>::empty());
    } else {
        let tail = lines.drop_first();
        let line = trim(lines[0]);
        lemma_network_lines_ok(tail, number + 1);
        if forall|i: int| 0 <= i < lines.len() ==> #[trigger] network_line_readable(lines, i) {
            assert forall|i: int| 0 <= i < tail.len() implies #[trigger] network_line_readable(
                tail,
                i,
            ) by {
                assert(network_line_readable(lines, i + 1));
                assert(tail[i] == lines[i + 1]);
            }
            assert(network_line_readable(lines, 0));
            assert(spec_network_lines(tail, number + 1) is Ok);
        }
        if spec_network_lines(lines, number) is Ok {
            assert(spec_network_lines(tail, number + 1) is Ok);
            assert forall|i: int| 0 <= i < lines.len() implies #[trigger] network_line_readable(
                lines,
                i,
            ) by {
                if i > 0 {
                    assert(network_line_readable(tail, i - 1));
                    assert(tail[i - 1] == lines[i]);
                }
            }
            assert(lines == seq![lines[0]] + tail);
            tail.lemma_filter_prepend(lines[0], |l: Seq<char>| !ignored(trim(l)));
            let front: Seq<Seq<char>> = if ignored(line) {
                Seq::empty()
            } else {
                seq![lines[0]]
            };
            assert(entry_lines(lines) == front + entry_lines(tail));
            assert(networks_spelled(front + entry_lines(tail)) =~= networks_spelled(front)
                + networks_spelled(entry_lines(tail)));
            if ignored(line) {
                assert(networks_spelled(front) =~= Seq::<IpNetwork>::empty());
                assert(spec_network_lines(lines, number)->Ok_0 =~= networks_spelled(
                    entry_lines(lines),
                ));
            } else {
                assert(networks_spelled(front) =~= seq![spec_parse_network(line)->Ok_0]);
                assert(spec_network_lines(lines, number)->Ok_0 =~= networks_spelled(
                    entry_lines(lines),
                ));
            }
        }
    }
}

proof fn lemma_network_lines_error(lines: Seq<Seq<char>>, number: nat)
    requires
        spec_network_lines(lines, number) is Err,
    ensures
        exists|i: int|
            0 <= i < lines.len() && !#[trigger] network_line_readable(lines, i)
                && spec_network_lines(lines, number)->Err_0 == (
                (number + i + 1) as usize,
                trim(lines[i]),
                spec_parse_network(trim(lines[i]))->Err_0,
            ) && forall|j: int| 0 <= j < i ==> network_line_readable(lines, j),
    decreases lines.len(),
{
    let tail = lines.drop_first();
    let line = trim(lines[0]);
    if !ignored(line) && spec_parse_network(line) is Err {
        assert(!network_line_readable(lines, 0));
    } else {
        assert(spec_network_lines(lines, number) == spec_network_lines(tail, number + 1)) by {
            if !ignored(line) {
                assert(spec_network_lines(tail, number + 1) is Err);
            }
        }
        lemma_network_lines_error(tail, number + 1);
        let i = choose|i: int|
            0 <= i < tail.len() && !#[trigger] network_line_readable(tail, i)
                && spec_network_lines(tail, number + 1)->Err_0 == (
                (number + 1 + i + 1) as usize,
                trim(tail[i]),
                spec_parse_network(trim(tail[i]))->Err_0,
            ) && forall|j: int| 0 <= j < i ==> network_line_readable(tail, j);
        assert(tail[i] == lines[i + 1]);
        assert(!network_line_readable(lines, i + 1));
        assert forall|j: int| 0 <= j < i + 1 implies network_line_readable(lines, j) by {
            if j > 0 {
                assert(network_line_readable(tail, j - 1));
                assert(tail[j - 1] == lines[j]);
            }
        }
    }
}

/// What the lines of a network list are read as. They are read when every line, the
/// last one included, is blank, a comment or a network once trimmed, and then the
/// networks read are those that these lines spell, one for each line that is not blank
/// or a comment, in the order of the lines. Otherwise the first line that is none of
/// these is reported, by its number, its trimmed text and why it is not a network.
pub proof fn lemma_network_lines_meaning(lines: Seq<Seq<char>>, number: nat)
    ensures
        spec_network_lines(lines, number) is Ok <==> forall|i: int|
            0 <= i < lines.len() ==> #[trigger] network_line_readable(lines, i),
        spec_network_lines(lines, number) is Ok ==> spec_network_lines(lines, number)->Ok_0
            == networks_spelled(entry_lines(lines)),
        spec_network_lines(lines, number) is Err ==> exists|i: int|
            0 <= i < lines.len() && !#[trigger] network_line_readable(lines, i)
                && spec_network_lines(lines, number)->Err_0 == (
                (number + i + 1) as usize,
                trim(lines[i]),
                spec_parse_network(trim(lines[i]))->Err_0,
            ) && forall|j: int| 0 <= j < i ==> network_line_readable(lines, j),
{
    lemma_network_lines_ok(lines, number);
    if spec_network_lines(lines, number) is Err {
        lemma_network_lines_error(lines, number);
    }
}

/// The last line of a network list is read whether or not a newline ends the text: when
/// the list is read, its last network is the one that the text after the last newline
/// spells, unless that text is blank or a comment.
pub proof fn lemma_network_list_reads_last_line(s: Seq<char>, t: Seq<char>)
    requires
        !t.contains('\n'),
        !ignored(trim(t)),
        spec_network_lines(split(s + seq!['\n'] + t, '\n'), 0) is Ok,
    ensures
        ({
            let networks = spec_network_lines(split(s + seq!['\n'] + t, '\n'), 0)->Ok_0;
            &&& networks.len() > 0
            &&& spec_parse_network(trim(t)) is Ok
            &&& networks.last() == spec_parse_network(trim(t))->Ok_0
        }),
{
    let lines = split(s + seq!['\n'] + t, '\n');
    lemma_split_append(s, '\n', t);
    lemma_network_lines_meaning(lines, 0);
    assert(lines.last() == t);
    assert(network_line_readable(lines, lines.len() - 1));
    reveal(Seq::filter);
    assert(lines.drop_last() == split(s, '\n'));
    assert(entry_lines(lines) == entry_lines(split(s, '\n')).push(t));
}

/// A network list of one line with no newline after it is that line's network, or the
/// report of why line 1 is not a network.
pub proof fn lemma_network_list_single_line(t: Seq<char>)
    requires
        !t.contains('\n'),
        !ignored(trim(t)),
    ensures
        spec_network_lines(split(t, '\n'), 0) == (match spec_parse_network(trim(t)) {
            Ok(network) => Ok(seq![network]),
            Err(error) => Err((1usize, trim(t), error)),
        }),
{
    lemma_split_without_sep(t, '\n');
    let lines = split(t, '\n');
    assert(lines.drop_first() =~= Seq::<Seq<char>>::empty());
    assert(lines[0] == t);
    assert(spec_network_lines(lines.drop_first(), 1) == Ok::<Seq<IpNetwork>, (usize, Seq<char>, NetworkError)>(Seq::empty()));
    if spec_parse_network(trim(t)) is Ok {
        assert(seq![spec_parse_network(trim(t))->Ok_0] + Seq::<IpNetwork>::empty() =~= seq![
            spec_parse_network(trim(t))->Ok_0,
        ]);
    }
}

} // verus!
