//! The rewrite policy applied to each DNS response.
//!
//! An address that is not blocked is left alone. A blocked address outside the
//! configured networks is reported and left alone. A blocked address inside them is
//! replaced, in place, by the first unblocked candidate of the same network, or reported
//! as having none. When anything was replaced, the AD flag is cleared.
use vstd::prelude::*;
use crate::address::IpAddr;
use crate::blocklist::Blocklist;
use crate::dns::{
    AddressRecord,
    DnsError,
    spec_extract,
    spec_rewrite,
    extract_address_records,
    rewrite_address_record,
    clear_authenticated_data,
};
use crate::dns_proofs::{
    lemma_extract_frame,
    lemma_rewrite_then_extract,
    lemma_clear_ad_keeps_records,
    within,
};
use crate::networks::{
    IpNetwork,
    NetworkList,
    first_containing,
    spec_find_evasive,
    search_in_network,
    lemma_first_containing_concat,
    lemma_evasive_v6_nearest,
    distance,
    lemma_evasive_address_stays_in_network,
};

verus! {

/// What the policy did about one blocked address.
#[derive(Debug, Clone, Copy, PartialEq, Eq, Structural)]
pub enum AddressEvent {
    /// The address is blocked but lies in none of the networks; it was left as it was.
    BlockedOutsideNetworks { address: IpAddr },
    /// The address is blocked and lies in a network, but no candidate of that network is
    /// unblocked; it was left as it was.
    NoReplacement { address: IpAddr },
    /// The address is blocked and was replaced.
    Rewritten { address: IpAddr, replacement: IpAddr },
}

/// The networks a blocked address is checked against: the IPv4 list, then the IPv6
/// list. Either list may hold networks of either family.
pub open spec fn all_networks(v4: Seq<IpNetwork>, v6: Seq<IpNetwork>) -> Seq<IpNetwork> {
    v4 + v6
}

/// What the policy does about `address`: nothing if it is not blocked.
pub open spec fn spec_decide(
    address: IpAddr,
    blocked: Set<IpAddr>,
    v4: Seq<IpNetwork>,
    v6: Seq<IpNetwork>,
) -> Option<AddressEvent> {
    let networks = all_networks(v4, v6);
    if !blocked.contains(address) {
        None
    } else if first_containing(networks, address) is None {
        Some(AddressEvent::BlockedOutsideNetworks { address })
    } else {
        match spec_find_evasive(address, networks, blocked) {
            None => Some(AddressEvent::NoReplacement { address }),
            Some(replacement) => Some(AddressEvent::Rewritten { address, replacement }),
        }
    }
}

/// The address that replaces `address`, if the policy replaces it.
pub open spec fn replacement_for(
    address: IpAddr,
    blocked: Set<IpAddr>,
    v4: Seq<IpNetwork>,
    v6: Seq<IpNetwork>,
) -> Option<IpAddr> {
    match spec_decide(address, blocked, v4, v6) {
        Some(AddressEvent::Rewritten { replacement, .. }) => Some(replacement),
        _ => None,
    }
}

/// The events of the records `records`, in order.
pub open spec fn spec_events(
    records: Seq<AddressRecord>,
    blocked: Set<IpAddr>,
    v4: Seq<IpNetwork>,
    v6: Seq<IpNetwork>,
) -> Seq<AddressEvent>
    decreases records.len(),
{
    if records.len() == 0 {
        Seq::empty()
    } else {
        let before = spec_events(records.drop_last(), blocked, v4, v6);
        match spec_decide(records.last().spec_address(), blocked, v4, v6) {
            Some(event) => before.push(event),
            None => before,
        }
    }
}

/// `p` with each of the first `n` records given its replacement, where it has one.
pub open spec fn spec_patched(
    p: Seq<u8>,
    records: Seq<AddressRecord>,
    n: nat,
    blocked: Set<IpAddr>,
    v4: Seq<IpNetwork>,
    v6: Seq<IpNetwork>,
) -> Seq<u8>
    decreases n,
{
    if n == 0 {
        p
    } else {
        let q = spec_patched(p, records, (n - 1) as nat, blocked, v4, v6);
        let r = records[n - 1];
        match replacement_for(r.spec_address(), blocked, v4, v6) {
            Some(c) => spec_rewrite(q, r, c)->Ok_0,
            None => q,
        }
    }
}

/// Whether some record among `records` gets a replacement.
pub open spec fn any_replaced(
    records: Seq<AddressRecord>,
    blocked: Set<IpAddr>,
    v4: Seq<IpNetwork>,
    v6: Seq<IpNetwork>,
) -> bool {
    exists|i: int|
        0 <= i < records.len() && (#[trigger] replacement_for(
            records[i].spec_address(),
            blocked,
            v4,
            v6,
        )) is Some
}

/// The response after the policy: every record with a replacement rewritten, and the AD
/// flag cleared if any was.
pub open spec fn spec_rewritten_response(
    p: Seq<u8>,
    records: Seq<AddressRecord>,
    blocked: Set<IpAddr>,
    v4: Seq<IpNetwork>,
    v6: Seq<IpNetwork>,
) -> Seq<u8> {
    let q = spec_patched(p, records, records.len(), blocked, v4, v6);
    if any_replaced(records, blocked, v4, v6) {
        q.update(3, q[3] & 0xdf)
    } else {
        q
    }
}

/// The records as the policy leaves them: each with its replacement, where it has one.
pub open spec fn spec_replaced_records(
    records: Seq<AddressRecord>,
    blocked: Set<IpAddr>,
    v4: Seq<IpNetwork>,
    v6: Seq<IpNetwork>,
) -> Seq<AddressRecord> {
    records.map_values(
        |r: AddressRecord|
            match replacement_for(r.spec_address(), blocked, v4, v6) {
                Some(c) => r.with_address(c),
                None => r,
            },
    )
}

/// A replacement is of the address's own family.
proof fn lemma_replacement_family(
    address: IpAddr,
    blocked: Set<IpAddr>,
    v4: Seq<IpNetwork>,
    v6: Seq<IpNetwork>,
)
    requires
        replacement_for(address, blocked, v4, v6) is Some,
    ensures
        (replacement_for(address, blocked, v4, v6)->0 is V4) == (address is V4),
{
    lemma_evasive_address_stays_in_network(address, all_networks(v4, v6), blocked);
}

/// Patching the first `n` records keeps the length of the message, and the message
/// reads as the records with the first `n` replaced.
proof fn lemma_patched(
    p: Seq<u8>,
    n: nat,
    blocked: Set<IpAddr>,
    v4: Seq<IpNetwork>,
    v6: Seq<IpNetwork>,
)
    requires
        p.len() <= usize::MAX,
        spec_extract(p) is Ok,
        n <= spec_extract(p)->Ok_0.len(),
    ensures
        ({
            let records = spec_extract(p)->Ok_0;
            let q = spec_patched(p, records, n, blocked, v4, v6);
            let replaced = spec_replaced_records(records, blocked, v4, v6);
            &&& q.len() == p.len()
            &&& spec_extract(q) == Ok::<Seq<AddressRecord>, DnsError>(
                replaced.take(n as int) + records.skip(n as int),
            )
        }),
    decreases n,
{
    let records = spec_extract(p)->Ok_0;
    let replaced = spec_replaced_records(records, blocked, v4, v6);
    if n == 0 {
        assert(replaced.take(0) + records.skip(0) =~= records);
    } else {
        lemma_patched(p, (n - 1) as nat, blocked, v4, v6);
        let q = spec_patched(p, records, (n - 1) as nat, blocked, v4, v6);
        let now = replaced.take(n - 1) + records.skip(n - 1);
        let r = records[n - 1];
        assert(now[n - 1] == r);
        match replacement_for(r.spec_address(), blocked, v4, v6) {
            Some(c) => {
                lemma_replacement_family(r.spec_address(), blocked, v4, v6);
                lemma_rewrite_then_extract(q, n - 1, c);
                lemma_extract_frame(q, q, 0, 0);
                assert(now.update(n - 1, r.with_address(c)) =~= replaced.take(n as int) + records.skip(
                    n as int,
                ));
                assert(within(now, 12, q.len() as int));
                assert(r.spec_offset() + r.width() <= q.len());
                lemma_rewrite_len(q, r, c);
            },
            None => {
                assert(now =~= replaced.take(n as int) + records.skip(n as int));
            },
        }
    }
}

proof fn lemma_rewrite_len(q: Seq<u8>, r: AddressRecord, c: IpAddr)
    requires
        spec_rewrite(q, r, c) is Ok,
    ensures
        spec_rewrite(q, r, c)->Ok_0.len() == q.len(),
{
    crate::address::lemma_be_bytes_len(
        match c {
            IpAddr::V4(x) => x as nat,
            IpAddr::V6(x) => x as nat,
        },
        r.width(),
    );
}

/// Applying the policy to a readable response yields a response that reads as the same
/// records at the same offsets, each replaced address carrying its replacement and every
/// other record its old address.
pub proof fn lemma_rewritten_response_reads_back(
    p: Seq<u8>,
    blocked: Set<IpAddr>,
    v4: Seq<IpNetwork>,
    v6: Seq<IpNetwork>,
)
    requires
        p.len() <= usize::MAX,
        spec_extract(p) is Ok,
    ensures
        spec_extract(spec_rewritten_response(p, spec_extract(p)->Ok_0, blocked, v4, v6)) == Ok::<
            Seq<AddressRecord>,
            DnsError,
        >(spec_replaced_records(spec_extract(p)->Ok_0, blocked, v4, v6)),
{
    let records = spec_extract(p)->Ok_0;
    lemma_patched(p, records.len(), blocked, v4, v6);
    let q = spec_patched(p, records, records.len(), blocked, v4, v6);
    let replaced = spec_replaced_records(records, blocked, v4, v6);
    assert(replaced.take(records.len() as int) + records.skip(records.len() as int) =~= replaced);
    if any_replaced(records, blocked, v4, v6) {
        assert(p.len() >= 12);
        lemma_clear_ad_keeps_records(q);
    }
}


/// What the policy does about `address`.
pub fn decide(address: IpAddr, blocked: &Blocklist, v4: &NetworkList, v6: &NetworkList) -> (res:
    Option<AddressEvent>)
    ensures
        res == spec_decide(address, blocked@, v4@, v6@),
{
    if !blocked.contains(&address) {
        return None;
    }
    proof {
        lemma_first_containing_concat(v4@, v6@, address);
    }
    let found = match v4.first_containing(&address) {
        Some(network) => Some(network),
        None => v6.first_containing(&address),
    };
    match found {
        None => Some(AddressEvent::BlockedOutsideNetworks { address }),
        Some(network) => match search_in_network(&address, network, blocked) {
            None => Some(AddressEvent::NoReplacement { address }),
            Some(replacement) => Some(AddressEvent::Rewritten { address, replacement }),
        },
    }
}

/// Applies the rewrite policy to a DNS response in place and reports what it did about
/// each blocked address, in the order the addresses occur. `v4` and `v6` are the
/// networks inside which blocked addresses are replaced, searched in that order. A response that cannot be read
/// is refused and left as it was.
pub fn rewrite_response(
    packet: &mut [u8],
    blocked: &Blocklist,
    v4: &NetworkList,
    v6: &NetworkList,
) -> (res: Result<Vec<AddressEvent>, DnsError>)
    ensures
        (match spec_extract(old(packet)@) {
            Err(e) => res == Err::<Vec<AddressEvent>, DnsError>(e) && final(packet)@ == old(
                packet,
            )@,
            Ok(records) => res is Ok && res->Ok_0@ == spec_events(records, blocked@, v4@, v6@)
                && final(packet)@ == spec_rewritten_response(
                old(packet)@,
                records,
                blocked@,
                v4@,
                v6@,
            ),
        }),
{
    let ghost p = packet@;
    let _ = packet.len();
    let records = extract_address_records(packet)?;
    let ghost rs = records@;
    let mut events: Vec<AddressEvent> = Vec::new();
    let mut modified = false;
    let mut i: usize = 0;
    assert(rs.take(0) =~= Seq::<AddressRecord>::empty());
    while i < records.len()
        invariant
            p.len() <= usize::MAX,
            spec_extract(p) == Ok::<Seq<AddressRecord>, DnsError>(rs),
            rs == records@,
            i <= rs.len(),
            packet@ == spec_patched(p, rs, i as nat, blocked@, v4@, v6@),
            events@ == spec_events(rs.take(i as int), blocked@, v4@, v6@),
            modified == exists|j: int|
                0 <= j < i && (#[trigger] replacement_for(rs[j].spec_address(), blocked@, v4@, v6@))
                    is Some,
        decreases rs.len() - i,
    {
        let record = records[i];
        let address = record.address();
        let ghost before = packet@;
        proof {
            lemma_patched(p, i as nat, blocked@, v4@, v6@);
            assert(rs.take(i + 1).drop_last() =~= rs.take(i as int));
            assert(rs.take(i + 1).last() == rs[i as int]);
        }
        match decide(address, blocked, v4, v6) {
            Some(event) => {
                if let AddressEvent::Rewritten { replacement, .. } = event {
                    proof {
                        let replaced = spec_replaced_records(rs, blocked@, v4@, v6@);
                        let now = replaced.take(i as int) + rs.skip(i as int);
                        assert(now[i as int] == record);
                        lemma_replacement_family(address, blocked@, v4@, v6@);
                        lemma_rewrite_then_extract(before, i as int, replacement);
                    }
                    match rewrite_address_record(packet, &record, replacement) {
                        Ok(()) => {},
                        Err(e) => {
                            return Err(e);
                        },
                    }
                    modified = true;
                }
                events.push(event);
            },
            None => {},
        }
        i = i + 1;
    }
    assert(rs.take(rs.len() as int) =~= rs);
    if modified {
        proof {
            lemma_patched(p, rs.len(), blocked@, v4@, v6@);
        }
        match clear_authenticated_data(packet) {
            Ok(()) => {},
            Err(e) => {
                return Err(e);
            },
        }
    }
    Ok(events)
}


/// An address is replaced only when it is blocked and lies in one of the networks; its
/// replacement then lies in that same network, is not blocked, differs from it and is of
/// its family.
pub proof fn lemma_only_blocked_addresses_in_networks_are_replaced(
    address: IpAddr,
    blocked: Set<IpAddr>,
    v4: Seq<IpNetwork>,
    v6: Seq<IpNetwork>,
)
    requires
        replacement_for(address, blocked, v4, v6) is Some,
    ensures
        blocked.contains(address),
        ({
            let networks = all_networks(v4, v6);
            let replacement = replacement_for(address, blocked, v4, v6)->0;
            exists|i: int|
                0 <= i < networks.len() && #[trigger] networks[i].spec_contains(address)
                    && networks[i].spec_contains(replacement)
        }),
        !blocked.contains(replacement_for(address, blocked, v4, v6)->0),
        replacement_for(address, blocked, v4, v6)->0 != address,
        (replacement_for(address, blocked, v4, v6)->0 is V4) == (address is V4),
{
    lemma_evasive_address_stays_in_network(address, all_networks(v4, v6), blocked);
}

proof fn lemma_patched_unchanged(
    p: Seq<u8>,
    records: Seq<AddressRecord>,
    n: nat,
    blocked: Set<IpAddr>,
    v4: Seq<IpNetwork>,
    v6: Seq<IpNetwork>,
)
    requires
        n <= records.len(),
        !any_replaced(records, blocked, v4, v6),
    ensures
        spec_patched(p, records, n, blocked, v4, v6) == p,
    decreases n,
{
    if n > 0 {
        lemma_patched_unchanged(p, records, (n - 1) as nat, blocked, v4, v6);
        assert(replacement_for(records[n - 1].spec_address(), blocked, v4, v6) is None);
    }
}

/// A response in which no address gets a replacement is left exactly as it was; one in
/// which some address does keeps its length and has its AD flag cleared.
pub proof fn lemma_response_modified_only_when_replaced(
    p: Seq<u8>,
    blocked: Set<IpAddr>,
    v4: Seq<IpNetwork>,
    v6: Seq<IpNetwork>,
)
    requires
        p.len() <= usize::MAX,
        spec_extract(p) is Ok,
    ensures
        ({
            let records = spec_extract(p)->Ok_0;
            let q = spec_rewritten_response(p, records, blocked, v4, v6);
            &&& q.len() == p.len()
            &&& !any_replaced(records, blocked, v4, v6) ==> q == p
            &&& any_replaced(records, blocked, v4, v6) ==> q[3] & 0x20 == 0
        }),
{
    let records = spec_extract(p)->Ok_0;
    lemma_patched(p, records.len(), blocked, v4, v6);
    if !any_replaced(records, blocked, v4, v6) {
        lemma_patched_unchanged(p, records, records.len(), blocked, v4, v6);
    } else {
        let q = spec_patched(p, records, records.len(), blocked, v4, v6);
        let b = q[3];
        assert(b & 0xdf & 0x20 == 0) by (bit_vector);
    }
}


/// The decision about an address follows the neighbour search over the IPv4 list followed
/// by the IPv6 list: nothing for an unblocked address; `BlockedOutsideNetworks` for a
/// blocked one in none of the networks; otherwise `Rewritten` with the address the search
/// finds, and `NoReplacement` exactly when it finds none. This holds for both families.
pub proof fn lemma_decision_follows_search(
    address: IpAddr,
    blocked: Set<IpAddr>,
    v4: Seq<IpNetwork>,
    v6: Seq<IpNetwork>,
)
    ensures
        !blocked.contains(address) ==> spec_decide(address, blocked, v4, v6) is None,
        blocked.contains(address) && first_containing(v4 + v6, address) is None ==> spec_decide(
            address,
            blocked,
            v4,
            v6,
        ) == Some(AddressEvent::BlockedOutsideNetworks { address }),
        blocked.contains(address) && first_containing(v4 + v6, address) is Some ==> spec_decide(
            address,
            blocked,
            v4,
            v6,
        ) == (match spec_find_evasive(address, v4 + v6, blocked) {
            Some(replacement) => Some(AddressEvent::Rewritten { address, replacement }),
            None => Some(AddressEvent::NoReplacement { address }),
        }),
{
}

/// A blocked IPv6 address inside the networks is rewritten whenever an unblocked address
/// within 1023 of it lies in the first network containing it; its replacement is then no
/// farther than that address.
pub proof fn lemma_ipv6_addresses_are_rewritten(
    value: u128,
    blocked: Set<IpAddr>,
    v4: Seq<IpNetwork>,
    v6: Seq<IpNetwork>,
    c: u128,
)
    requires
        blocked.contains(IpAddr::V6(value)),
        first_containing(v4 + v6, IpAddr::V6(value)) is Some,
        c != value,
        distance(c as int, value as int) <= 1023,
        first_containing(v4 + v6, IpAddr::V6(value))->0.spec_contains(IpAddr::V6(c)),
        !blocked.contains(IpAddr::V6(c)),
    ensures
        spec_decide(IpAddr::V6(value), blocked, v4, v6) matches Some(
            AddressEvent::Rewritten { address, replacement: IpAddr::V6(r) },
        ) && address == IpAddr::V6(value) && distance(r as int, value as int) <= distance(
            c as int,
            value as int,
        ),
{
    lemma_evasive_v6_nearest(value, v4 + v6, blocked, c);
    lemma_decision_follows_search(IpAddr::V6(value), blocked, v4, v6);
}

} // verus!
