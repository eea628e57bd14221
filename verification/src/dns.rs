//! Locating the address-bearing parts of a DNS message and rewriting them in place.
//!
//! The wire format is read as RFC 1035 lays it out: a 12-byte header, the question
//! section, then the answer, authority and additional records. Addresses are found in
//! `A` (type 1) and `AAAA` (type 28) records, and in the `ipv4hint` (key 4) and
//! `ipv6hint` (key 6) parameters of `SVCB` (type 64) and `HTTPS` (type 65) records.
use vstd::prelude::*;
use crate::address::{IpAddr, be_value, be_bytes, read_be, write_be, lemma_pow256_facts};

verus! {

pub const DNS_HEADER_LEN: usize = 12;

pub const TYPE_A: u16 = 1;

pub const TYPE_AAAA: u16 = 28;

pub const TYPE_SVCB: u16 = 64;

pub const TYPE_HTTPS: u16 = 65;

pub const SVC_PARAM_IPV4HINT: u16 = 4;

pub const SVC_PARAM_IPV6HINT: u16 = 6;

/// An address found in a DNS message, with the offset of its first byte.
#[allow(inconsistent_fields)]
#[derive(Debug, Clone, Copy, PartialEq, Eq, Structural)]
pub enum AddressRecord {
    A { offset: usize, address: u32 },
    Aaaa { offset: usize, address: u128 },
    Ipv4Hint { offset: usize, address: u32 },
    Ipv6Hint { offset: usize, address: u128 },
}

/// Why a DNS message could not be read or changed.
#[derive(Debug, Clone, Copy, PartialEq, Eq, Structural)]
pub enum DnsError {
    /// The message is shorter than the 12-byte header.
    ShortHeader,
    /// The message is too short to hold its flags word.
    ShortFlags,
    /// `offset + length` does not fit in a `usize`.
    OffsetOverflow,
    /// The bytes `offset .. offset + length` lie past the end of the message.
    Truncated { offset: usize, length: usize },
    /// The answer, authority and additional counts add up to more than `u16::MAX`.
    RecordCountOverflow,
    /// A label length byte at `offset` uses the reserved `0b01` or `0b10` prefix.
    UnsupportedLabel { offset: usize },
    /// SVCB/HTTPS RDATA shorter than three bytes.
    SvcbTooShort,
    /// The SVCB/HTTPS TargetName runs past the end of the RDATA.
    SvcbTargetOverrun,
    /// Fewer than four RDATA bytes remain for an SvcParam's key and length.
    SvcParamHeaderTruncated,
    /// An SvcParam value runs past the end of the RDATA.
    SvcParamOverrun,
    /// An `ipv4hint` whose length is zero or not a multiple of 4.
    InvalidIpv4Hint { length: usize },
    /// An `ipv6hint` whose length is zero or not a multiple of 16.
    InvalidIpv6Hint { length: usize },
    /// An IPv4 record was to be given an IPv6 address.
    Ipv4RecordGivenIpv6,
    /// An IPv6 record was to be given an IPv4 address.
    Ipv6RecordGivenIpv4,
}

impl AddressRecord {
    /// The offset of the first address byte.
    pub open spec fn spec_offset(self) -> usize {
        match self {
            AddressRecord::A { offset, .. } => offset,
            AddressRecord::Aaaa { offset, .. } => offset,
            AddressRecord::Ipv4Hint { offset, .. } => offset,
            AddressRecord::Ipv6Hint { offset, .. } => offset,
        }
    }

    /// Whether the record carries an IPv4 address.
    pub open spec fn is_v4(self) -> bool {
        self is A || self is Ipv4Hint
    }

    /// The number of bytes the address takes: 4 or 16.
    pub open spec fn width(self) -> nat {
        if self.is_v4() {
            4
        } else {
            16
        }
    }

    pub open spec fn spec_address(self) -> IpAddr {
        match self {
            AddressRecord::A { address, .. } => IpAddr::V4(address),
            AddressRecord::Aaaa { address, .. } => IpAddr::V6(address),
            AddressRecord::Ipv4Hint { address, .. } => IpAddr::V4(address),
            AddressRecord::Ipv6Hint { address, .. } => IpAddr::V6(address),
        }
    }

    /// The same record, carrying `address` in place of its own.
    pub open spec fn with_address(self, address: IpAddr) -> AddressRecord {
        match (self, address) {
            (AddressRecord::A { offset, .. }, IpAddr::V4(a)) => AddressRecord::A {
                offset,
                address: a,
            },
            (AddressRecord::Ipv4Hint { offset, .. }, IpAddr::V4(a)) => AddressRecord::Ipv4Hint {
                offset,
                address: a,
            },
            (AddressRecord::Aaaa { offset, .. }, IpAddr::V6(a)) => AddressRecord::Aaaa {
                offset,
                address: a,
            },
            (AddressRecord::Ipv6Hint { offset, .. }, IpAddr::V6(a)) => AddressRecord::Ipv6Hint {
                offset,
                address: a,
            },
            _ => self,
        }
    }

    /// The address the record carries.
    pub fn address(&self) -> (res: IpAddr)
        ensures
            res == self.spec_address(),
    {
        match self {
            AddressRecord::A { address, .. } => IpAddr::V4(*address),
            AddressRecord::Ipv4Hint { address, .. } => IpAddr::V4(*address),
            AddressRecord::Aaaa { address, .. } => IpAddr::V6(*address),
            AddressRecord::Ipv6Hint { address, .. } => IpAddr::V6(*address),
        }
    }

    /// The offset of the first address byte.
    pub fn offset(&self) -> (res: usize)
        ensures
            res == self.spec_offset(),
    {
        match self {
            AddressRecord::A { offset, .. } => *offset,
            AddressRecord::Ipv4Hint { offset, .. } => *offset,
            AddressRecord::Aaaa { offset, .. } => *offset,
            AddressRecord::Ipv6Hint { offset, .. } => *offset,
        }
    }
}

/// The error, if any, of asking for the bytes `offset .. offset + length`.
pub open spec fn spec_unavailable(p: Seq<u8>, offset: int, length: int) -> Option<DnsError> {
    if offset + length > usize::MAX {
        Some(DnsError::OffsetOverflow)
    } else if offset + length > p.len() {
        Some(DnsError::Truncated { offset: offset as usize, length: length as usize })
    } else {
        None
    }
}

/// The big-endian 16-bit value at `offset`.
pub open spec fn be16(p: Seq<u8>, offset: int) -> int {
    p[offset] * 256 + p[offset + 1]
}

/// The big-endian value of the `width` bytes at `offset`.
pub open spec fn value_at(p: Seq<u8>, offset: int, width: int) -> nat {
    be_value(p.subrange(offset, offset + width))
}

/// Where the domain name that starts at `offset` ends. A compression pointer ends the
/// name; it is not followed.
pub open spec fn spec_skip_name(p: Seq<u8>, offset: int) -> Result<int, DnsError>
    decreases p.len() - offset,
{
    if let Some(e) = spec_unavailable(p, offset, 1) {
        Err(e)
    } else if offset < 0 {
        Err(DnsError::OffsetOverflow)
    } else {
        let length = p[offset];
        if length == 0 {
            Ok(offset + 1)
        } else if length >= 0xC0 {
            if let Some(e) = spec_unavailable(p, offset, 2) {
                Err(e)
            } else {
                Ok(offset + 2)
            }
        } else if length >= 0x40 {
            Err(DnsError::UnsupportedLabel { offset: offset as usize })
        } else if let Some(e) = spec_unavailable(p, offset + 1, length as int) {
            Err(e)
        } else {
            spec_skip_name(p, offset + 1 + length)
        }
    }
}

/// Where the question section ends, when `count` questions start at `offset`.
pub open spec fn spec_skip_questions(p: Seq<u8>, offset: int, count: nat) -> Result<
    int,
    DnsError,
>
    decreases count,
{
    if count == 0 {
        Ok(offset)
    } else {
        match spec_skip_name(p, offset) {
            Err(e) => Err(e),
            Ok(end) => if let Some(e) = spec_unavailable(p, end, 4) {
                Err(e)
            } else {
                spec_skip_questions(p, end + 4, (count - 1) as nat)
            },
        }
    }
}

/// The `count` IPv4 hints whose addresses start at `offset`.
pub open spec fn spec_ipv4_hints(p: Seq<u8>, offset: int, count: nat) -> Seq<AddressRecord> {
    Seq::new(
        count,
        |i: int|
            AddressRecord::Ipv4Hint {
                offset: (offset + 4 * i) as usize,
                address: value_at(p, offset + 4 * i, 4) as u32,
            },
    )
}

/// The `count` IPv6 hints whose addresses start at `offset`.
pub open spec fn spec_ipv6_hints(p: Seq<u8>, offset: int, count: nat) -> Seq<AddressRecord> {
    Seq::new(
        count,
        |i: int|
            AddressRecord::Ipv6Hint {
                offset: (offset + 16 * i) as usize,
                address: value_at(p, offset + 16 * i, 16) as u128,
            },
    )
}

/// The address hints of the SvcParams from `offset` to `end`.
pub open spec fn spec_svc_params(p: Seq<u8>, offset: int, end: int) -> Result<
    Seq<AddressRecord>,
    DnsError,
>
    decreases end - offset,
{
    if offset >= end {
        Ok(Seq::empty())
    } else if end - offset < 4 {
        Err(DnsError::SvcParamHeaderTruncated)
    } else {
        let key = be16(p, offset);
        let length = be16(p, offset + 2);
        let value_end = offset + 4 + length;
        if value_end > usize::MAX {
            Err(DnsError::OffsetOverflow)
        } else if value_end > end {
            Err(DnsError::SvcParamOverrun)
        } else {
            let hints = if key == SVC_PARAM_IPV4HINT {
                if length == 0 || length % 4 != 0 {
                    Err(DnsError::InvalidIpv4Hint { length: length as usize })
                } else {
                    Ok(spec_ipv4_hints(p, offset + 4, (length / 4) as nat))
                }
            } else if key == SVC_PARAM_IPV6HINT {
                if length == 0 || length % 16 != 0 {
                    Err(DnsError::InvalidIpv6Hint { length: length as usize })
                } else {
                    Ok(spec_ipv6_hints(p, offset + 4, (length / 16) as nat))
                }
            } else {
                Ok(Seq::empty())
            };
            match hints {
                Err(e) => Err(e),
                Ok(hints) => match spec_svc_params(p, value_end, end) {
                    Err(e) => Err(e),
                    Ok(rest) => Ok(hints + rest),
                },
            }
        }
    }
}

/// The hints read from the SvcParams from `offset` to `end` before the reading stops:
/// all of them when it succeeds; when it fails, those of the parameters before the one
/// that fails.
pub open spec fn spec_svc_params_appended(p: Seq<u8>, offset: int, end: int) -> Seq<AddressRecord>
    decreases end - offset,
{
    if offset >= end || end - offset < 4 {
        Seq::empty()
    } else {
        let key = be16(p, offset);
        let length = be16(p, offset + 2);
        let value_end = offset + 4 + length;
        if value_end > usize::MAX || value_end > end {
            Seq::empty()
        } else if key == SVC_PARAM_IPV4HINT {
            if length == 0 || length % 4 != 0 {
                Seq::empty()
            } else {
                spec_ipv4_hints(p, offset + 4, (length / 4) as nat) + spec_svc_params_appended(
                    p,
                    value_end,
                    end,
                )
            }
        } else if key == SVC_PARAM_IPV6HINT {
            if length == 0 || length % 16 != 0 {
                Seq::empty()
            } else {
                spec_ipv6_hints(p, offset + 4, (length / 16) as nat) + spec_svc_params_appended(
                    p,
                    value_end,
                    end,
                )
            }
        } else {
            spec_svc_params_appended(p, value_end, end)
        }
    }
}

/// The hints read from SVCB/HTTPS RDATA of `length` bytes at `offset` before the reading
/// stops: none when the RDATA is refused before its first SvcParam.
pub open spec fn spec_svcb_appended(p: Seq<u8>, offset: int, length: int) -> Seq<AddressRecord> {
    if spec_unavailable(p, offset, length) is Some || length < 3 {
        Seq::empty()
    } else {
        match spec_skip_name(p, offset + 2) {
            Err(_) => Seq::empty(),
            Ok(params) => if params > offset + length {
                Seq::empty()
            } else {
                spec_svc_params_appended(p, params, offset + length)
            },
        }
    }
}

/// The address hints of SVCB/HTTPS RDATA of `length` bytes at `offset`.
pub open spec fn spec_svcb_hints(p: Seq<u8>, offset: int, length: int) -> Result<
    Seq<AddressRecord>,
    DnsError,
> {
    if let Some(e) = spec_unavailable(p, offset, length) {
        Err(e)
    } else if length < 3 {
        Err(DnsError::SvcbTooShort)
    } else {
        match spec_skip_name(p, offset + 2) {
            Err(e) => Err(e),
            Ok(params) => if params > offset + length {
                Err(DnsError::SvcbTargetOverrun)
            } else {
                spec_svc_params(p, params, offset + length)
            },
        }
    }
}

/// The resource record at `offset`: where it ends, and the addresses it carries.
pub open spec fn spec_record(p: Seq<u8>, offset: int) -> Result<
    (int, Seq<AddressRecord>),
    DnsError,
> {
    match spec_skip_name(p, offset) {
        Err(e) => Err(e),
        Ok(fixed) => if let Some(e) = spec_unavailable(p, fixed, 10) {
            Err(e)
        } else {
            let rtype = be16(p, fixed);
            let rdlength = be16(p, fixed + 8);
            let rdata = fixed + 10;
            let end = rdata + rdlength;
            if let Some(e) = spec_unavailable(p, rdata, rdlength) {
                Err(e)
            } else if rtype == TYPE_A && rdlength == 4 {
                Ok(
                    (
                        end,
                        seq![
                            AddressRecord::A {
                                offset: rdata as usize,
                                address: value_at(p, rdata, 4) as u32,
                            },
                        ],
                    ),
                )
            } else if rtype == TYPE_AAAA && rdlength == 16 {
                Ok(
                    (
                        end,
                        seq![
                            AddressRecord::Aaaa {
                                offset: rdata as usize,
                                address: value_at(p, rdata, 16) as u128,
                            },
                        ],
                    ),
                )
            } else if rtype == TYPE_SVCB || rtype == TYPE_HTTPS {
                match spec_svcb_hints(p, rdata, rdlength) {
                    Err(e) => Err(e),
                    Ok(hints) => Ok((end, hints)),
                }
            } else {
                Ok((end, Seq::empty()))
            }
        },
    }
}

/// The addresses carried by `count` resource records starting at `offset`, in order.
pub open spec fn spec_records(p: Seq<u8>, offset: int, count: nat) -> Result<
    Seq<AddressRecord>,
    DnsError,
>
    decreases count,
{
    if count == 0 {
        Ok(Seq::empty())
    } else {
        match spec_record(p, offset) {
            Err(e) => Err(e),
            Ok((end, found)) => match spec_records(p, end, (count - 1) as nat) {
                Err(e) => Err(e),
                Ok(rest) => Ok(found + rest),
            },
        }
    }
}

/// The address records of a DNS message, in the order they occur, or why it could not
/// be read.
pub open spec fn spec_extract(p: Seq<u8>) -> Result<Seq<AddressRecord>, DnsError> {
    if p.len() < DNS_HEADER_LEN {
        Err(DnsError::ShortHeader)
    } else {
        match spec_skip_questions(p, DNS_HEADER_LEN as int, be16(p, 4) as nat) {
            Err(e) => Err(e),
            Ok(answers) => {
                let count = be16(p, 6) + be16(p, 8) + be16(p, 10);
                if count > u16::MAX {
                    Err(DnsError::RecordCountOverflow)
                } else {
                    spec_records(p, answers, count as nat)
                }
            },
        }
    }
}

/// `found` put before whatever `rest` holds.
pub open spec fn prepend(
    found: Seq<AddressRecord>,
    rest: Result<Seq<AddressRecord>, DnsError>,
) -> Result<
    Seq<AddressRecord>,
    DnsError,
> {
    match rest {
        Err(e) => Err(e),
        Ok(rest) => Ok(found + rest),
    }
}

/// Checks that the bytes `offset .. offset + length` are in the packet.
pub fn ensure_available(packet: &[u8], offset: usize, length: usize) -> (res: Result<(), DnsError>)
    ensures
        (match spec_unavailable(packet@, offset as int, length as int) {
            None => res is Ok,
            Some(e) => res == Err::<(), DnsError>(e),
        }),
{
    let end = match offset.checked_add(length) {
        Some(end) => end,
        None => {
            return Err(DnsError::OffsetOverflow);
        },
    };
    if end > packet.len() {
        return Err(DnsError::Truncated { offset, length });
    }
    Ok(())
}

/// Reads the big-endian 16-bit value at `offset`.
pub fn read_u16(packet: &[u8], offset: usize) -> (res: Result<u16, DnsError>)
    ensures
        (match spec_unavailable(packet@, offset as int, 2) {
            None => res == Ok::<u16, DnsError>(be16(packet@, offset as int) as u16),
            Some(e) => res == Err::<u16, DnsError>(e),
        }),
        res is Ok ==> be16(packet@, offset as int) <= u16::MAX,
{
    ensure_available(packet, offset, 2)?;
    Ok(packet[offset] as u16 * 256 + packet[offset + 1] as u16)
}

/// Skips the domain name that starts at `offset` and returns where it ends.
pub fn skip_name(packet: &[u8], offset: usize) -> (res: Result<usize, DnsError>)
    ensures
        (match spec_skip_name(packet@, offset as int) {
            Ok(end) => res is Ok && res->Ok_0 == end && offset < end <= packet@.len(),
            Err(e) => res == Err::<usize, DnsError>(e),
        }),
{
    let mut pos = offset;
    let ghost start = offset as int;
    loop
        invariant
            spec_skip_name(packet@, start) == spec_skip_name(packet@, pos as int),
            start == offset as int,
            start <= pos,
        decreases packet@.len() - pos,
    {
        ensure_available(packet, pos, 1)?;
        let length = packet[pos];
        if length == 0 {
            return Ok(pos + 1);
        }
        if length >= 0xC0 {
            ensure_available(packet, pos, 2)?;
            return Ok(pos + 2);
        }
        if length >= 0x40 {
            return Err(DnsError::UnsupportedLabel { offset: pos });
        }
        pos = pos + 1;
        let label_len = length as usize;
        ensure_available(packet, pos, label_len)?;
        pos = pos + label_len;
    }
}


/// Reads the IPv4 address at `offset`.
fn read_ipv4(packet: &[u8], offset: usize) -> (res: u32)
    requires
        offset + 4 <= packet@.len(),
    ensures
        res == value_at(packet@, offset as int, 4) as u32,
        value_at(packet@, offset as int, 4) < 0x1_0000_0000,
{
    proof {
        lemma_pow256_facts();
    }
    read_be(packet, offset, 4) as u32
}

/// Reads the IPv6 address at `offset`.
fn read_ipv6(packet: &[u8], offset: usize) -> (res: u128)
    requires
        offset + 16 <= packet@.len(),
    ensures
        res == value_at(packet@, offset as int, 16) as u128,
        value_at(packet@, offset as int, 16) < 0x1_0000_0000_0000_0000_0000_0000_0000_0000,
{
    proof {
        lemma_pow256_facts();
    }
    read_be(packet, offset, 16)
}

/// Appends to `records` the address hints of the SVCB/HTTPS RDATA of `rdlength` bytes
/// at `rdata_offset`. On an error, the hints of the parameters before the failing one
/// stay appended.
fn extract_svcb_address_hints(
    packet: &[u8],
    rdata_offset: usize,
    rdlength: usize,
    records: &mut Vec<AddressRecord>,
) -> (res: Result<(), DnsError>)
    ensures
        (match spec_svcb_hints(packet@, rdata_offset as int, rdlength as int) {
            Ok(hints) => res is Ok && final(records)@ == old(records)@ + hints,
            Err(e) => res == Err::<(), DnsError>(e),
        }),
        final(records)@ == old(records)@ + spec_svcb_appended(
            packet@,
            rdata_offset as int,
            rdlength as int,
        ),
{
    let ghost p = packet@;
    let ghost base = records@;
    assert(base =~= base + Seq::<AddressRecord>::empty());
    let rdata_end = match rdata_offset.checked_add(rdlength) {
        Some(end) => end,
        None => {
            return Err(DnsError::OffsetOverflow);
        },
    };
    ensure_available(packet, rdata_offset, rdlength)?;
    if rdlength < 3 {
        return Err(DnsError::SvcbTooShort);
    }
    let target_offset = rdata_offset + 2;
    let mut param_offset = skip_name(packet, target_offset)?;
    if param_offset > rdata_end {
        return Err(DnsError::SvcbTargetOverrun);
    }
    assert(records@.subrange(0, base.len() as int) =~= base);
    assert(records@.subrange(base.len() as int, records@.len() as int) =~= Seq::<AddressRecord>::empty());
    proof {
        match spec_svc_params(p, param_offset as int, rdata_end as int) {
            Ok(rest) => {
                assert(Seq::<AddressRecord>::empty() + rest =~= rest);
            },
            Err(_) => {},
        }
        assert(Seq::<AddressRecord>::empty() + spec_svc_params_appended(
            p,
            param_offset as int,
            rdata_end as int,
        ) =~= spec_svc_params_appended(p, param_offset as int, rdata_end as int));
    }
    while param_offset < rdata_end
        invariant
            p == packet@,
            rdata_end == rdata_offset + rdlength,
            rdata_end <= packet@.len(),
            base == old(records)@,
            records@.len() >= base.len(),
            records@.subrange(0, base.len() as int) == base,
            spec_svcb_hints(p, rdata_offset as int, rdlength as int) == prepend(
                records@.subrange(base.len() as int, records@.len() as int),
                spec_svc_params(p, param_offset as int, rdata_end as int),
            ),
            spec_svcb_appended(p, rdata_offset as int, rdlength as int) == records@.subrange(
                base.len() as int,
                records@.len() as int,
            ) + spec_svc_params_appended(p, param_offset as int, rdata_end as int),
        decreases rdata_end - param_offset,
    {
        let ghost done = records@.subrange(base.len() as int, records@.len() as int);
        assert(records@ =~= base + done);
        assert(done + Seq::<AddressRecord>::empty() =~= done);
        if rdata_end - param_offset < 4 {
            return Err(DnsError::SvcParamHeaderTruncated);
        }
        let key = read_u16(packet, param_offset)?;
        let value_len = read_u16(packet, param_offset + 2)? as usize;
        let value_offset = param_offset + 4;
        let value_end = match value_offset.checked_add(value_len) {
            Some(end) => end,
            None => {
                return Err(DnsError::OffsetOverflow);
            },
        };
        if value_end > rdata_end {
            return Err(DnsError::SvcParamOverrun);
        }
        let ghost before = records@;
        if key == SVC_PARAM_IPV4HINT {
            if value_len == 0 || value_len % 4 != 0 {
                return Err(DnsError::InvalidIpv4Hint { length: value_len });
            }
            let count = value_len / 4;
            let mut k: usize = 0;
            while k < count
                invariant
                    p == packet@,
                    count == value_len / 4,
                    value_len % 4 == 0,
                    value_end == value_offset + value_len,
                    value_end <= packet@.len(),
                    k <= count,
                    records@ == before + spec_ipv4_hints(p, value_offset as int, k as nat),
                decreases count - k,
            {
                let address_offset = value_offset + 4 * k;
                let address = read_ipv4(packet, address_offset);
                records.push(AddressRecord::Ipv4Hint { offset: address_offset, address });
                assert(spec_ipv4_hints(p, value_offset as int, (k + 1) as nat) =~= spec_ipv4_hints(
                    p,
                    value_offset as int,
                    k as nat,
                ).push(AddressRecord::Ipv4Hint { offset: address_offset, address }));
                k = k + 1;
            }
        } else if key == SVC_PARAM_IPV6HINT {
            if value_len == 0 || value_len % 16 != 0 {
                return Err(DnsError::InvalidIpv6Hint { length: value_len });
            }
            let count = value_len / 16;
            let mut k: usize = 0;
            while k < count
                invariant
                    p == packet@,
                    count == value_len / 16,
                    value_len % 16 == 0,
                    value_end == value_offset + value_len,
                    value_end <= packet@.len(),
                    k <= count,
                    records@ == before + spec_ipv6_hints(p, value_offset as int, k as nat),
                decreases count - k,
            {
                let address_offset = value_offset + 16 * k;
                let address = read_ipv6(packet, address_offset);
                records.push(AddressRecord::Ipv6Hint { offset: address_offset, address });
                assert(spec_ipv6_hints(p, value_offset as int, (k + 1) as nat) =~= spec_ipv6_hints(
                    p,
                    value_offset as int,
                    k as nat,
                ).push(AddressRecord::Ipv6Hint { offset: address_offset, address }));
                k = k + 1;
            }
        }
        proof {
            let added = records@.subrange(before.len() as int, records@.len() as int);
            assert(records@ =~= before + added);
            assert(records@.subrange(0, base.len() as int) =~= base);
            assert(records@.subrange(base.len() as int, records@.len() as int) =~= done + added);
            if key == SVC_PARAM_IPV4HINT {
                assert(added =~= spec_ipv4_hints(p, value_offset as int, (value_len / 4) as nat));
            } else if key == SVC_PARAM_IPV6HINT {
                assert(added =~= spec_ipv6_hints(p, value_offset as int, (value_len / 16) as nat));
            } else {
                assert(added =~= Seq::<AddressRecord>::empty());
            }
            match spec_svc_params(p, value_end as int, rdata_end as int) {
                Ok(rest) => {
                    assert(done + (added + rest) =~= (done + added) + rest);
                },
                Err(_) => {},
            }
            let later = spec_svc_params_appended(p, value_end as int, rdata_end as int);
            assert(done + (added + later) =~= (done + added) + later);
        }
        param_offset = value_end;
    }
    proof {
        let found = records@.subrange(base.len() as int, records@.len() as int);
        assert(found + Seq::empty() =~= found);
        assert(records@ =~= base + found);
    }
    Ok(())
}


/// Reads the resource record at `offset`, appends the addresses it carries to `records`,
/// and returns where the record ends.
fn extract_record(packet: &[u8], offset: usize, records: &mut Vec<AddressRecord>) -> (res: Result<
    usize,
    DnsError,
>)
    ensures
        (match spec_record(packet@, offset as int) {
            Ok((end, found)) => res is Ok && res->Ok_0 == end && end <= packet@.len()
                && final(records)@ == old(records)@ + found,
            Err(e) => res == Err::<usize, DnsError>(e),
        }),
{
    let ghost done = records@;
    let ghost start = offset as int;
    let ghost p = packet@;
    let mut offset = skip_name(packet, offset)?;
    let ghost fixed = offset as int;
    ensure_available(packet, offset, 10)?;
    let record_type = read_u16(packet, offset)?;
    let rdlength = read_u16(packet, offset + 8)? as usize;
    offset = offset + 10;
    ensure_available(packet, offset, rdlength)?;
    assert(spec_skip_name(p, start) == Ok::<int, DnsError>(fixed));
    assert(record_type == be16(p, fixed));
    assert(rdlength == be16(p, fixed + 8));
    if record_type == TYPE_A && rdlength == 4 {
        let address = read_ipv4(packet, offset);
        records.push(AddressRecord::A { offset, address });
        assert(records@.subrange(done.len() as int, records@.len() as int) =~= seq![AddressRecord::A { offset, address }]);
        assert(spec_record(p, start) == Ok::<(int, Seq<AddressRecord>), DnsError>(
            (offset + rdlength, seq![AddressRecord::A { offset, address }]),
        ));
    } else if record_type == TYPE_AAAA && rdlength == 16 {
        let address = read_ipv6(packet, offset);
        records.push(AddressRecord::Aaaa { offset, address });
        assert(records@.subrange(done.len() as int, records@.len() as int) =~= seq![AddressRecord::Aaaa { offset, address }]);
        assert(spec_record(p, start) == Ok::<(int, Seq<AddressRecord>), DnsError>(
            (offset + rdlength, seq![AddressRecord::Aaaa { offset, address }]),
        ));
    } else if record_type == TYPE_SVCB || record_type == TYPE_HTTPS {
        extract_svcb_address_hints(packet, offset, rdlength, records)?;
        assert(records@.subrange(done.len() as int, records@.len() as int) =~= spec_svcb_hints(
            p,
            offset as int,
            rdlength as int,
        )->Ok_0);
        assert(spec_record(p, start) == Ok::<(int, Seq<AddressRecord>), DnsError>(
            (offset + rdlength, records@.subrange(done.len() as int, records@.len() as int)),
        ));
    } else {
        assert(records@.subrange(done.len() as int, records@.len() as int) =~= Seq::<AddressRecord>::empty());
        assert(spec_record(p, start) == Ok::<(int, Seq<AddressRecord>), DnsError>(
            (offset + rdlength, Seq::<AddressRecord>::empty()),
        ));
    }
    proof {
        let found = records@.subrange(done.len() as int, records@.len() as int);
        assert(records@ =~= done + found);
        assert(spec_record(p, start) == Ok::<(int, Seq<AddressRecord>), DnsError>(
            (offset + rdlength, found),
        ));
    }
    Ok(offset + rdlength)
}

/// Lists the address records of a DNS message in the order they occur: `A` and `AAAA`
/// answers, and the `ipv4hint`/`ipv6hint` addresses of `SVCB` and `HTTPS` records, from
/// the answer, authority and additional sections.
pub fn extract_address_records(packet: &[u8]) -> (res: Result<Vec<AddressRecord>, DnsError>)
    ensures
        (match spec_extract(packet@) {
            Ok(records) => res is Ok && res->Ok_0@ == records,
            Err(e) => res == Err::<Vec<AddressRecord>, DnsError>(e),
        }),
{
    let ghost p = packet@;
    if packet.len() < DNS_HEADER_LEN {
        return Err(DnsError::ShortHeader);
    }
    let qdcount = read_u16(packet, 4)?;
    let ancount = read_u16(packet, 6)?;
    let nscount = read_u16(packet, 8)?;
    let arcount = read_u16(packet, 10)?;

    let mut offset = DNS_HEADER_LEN;
    let mut i: u16 = 0;
    while i < qdcount
        invariant
            p == packet@,
            offset <= packet@.len(),
            i <= qdcount,
            p.len() >= DNS_HEADER_LEN,
            qdcount == be16(p, 4),
            spec_skip_questions(p, DNS_HEADER_LEN as int, qdcount as nat) == spec_skip_questions(
                p,
                offset as int,
                (qdcount - i) as nat,
            ),
        decreases qdcount - i,
    {
        offset = skip_name(packet, offset)?;
        ensure_available(packet, offset, 4)?;
        offset = offset + 4;
        i = i + 1;
    }
    let ghost answers = offset as int;
    assert(spec_skip_questions(p, DNS_HEADER_LEN as int, qdcount as nat) == Ok::<int, DnsError>(answers));

    let record_count = match ancount.checked_add(nscount) {
        Some(partial) => match partial.checked_add(arcount) {
            Some(total) => total,
            None => {
                return Err(DnsError::RecordCountOverflow);
            },
        },
        None => {
            return Err(DnsError::RecordCountOverflow);
        },
    };

    let mut records: Vec<AddressRecord> = Vec::new();
    let mut j: u16 = 0;
    assert(records@ + Seq::<AddressRecord>::empty() =~= records@);
    proof {
        match spec_records(p, offset as int, record_count as nat) {
            Ok(rest) => {
                assert(records@ + rest =~= rest);
            },
            Err(_) => {},
        }
    }
    while j < record_count
        invariant
            p == packet@,
            offset <= packet@.len(),
            j <= record_count,
            spec_extract(p) == spec_records(p, answers, record_count as nat),
            spec_records(p, answers, record_count as nat) == prepend(
                records@,
                spec_records(p, offset as int, (record_count - j) as nat),
            ),
        decreases record_count - j,
    {
        let ghost done = records@;
        let ghost start = offset as int;
        offset = extract_record(packet, offset, &mut records)?;
        proof {
            let found = records@.subrange(done.len() as int, records@.len() as int);
            assert(spec_record(p, start) is Ok);
            assert(found =~= spec_record(p, start)->Ok_0.1);
            assert(records@ =~= done + found);
            match spec_records(p, offset as int, (record_count - j - 1) as nat) {
                Ok(rest) => {
                    assert(done + (found + rest) =~= (done + found) + rest);
                },
                Err(_) => {},
            }
        }
        j = j + 1;
    }
    Ok(records)
}


/// `p` with the `width` bytes at `offset` replaced by the big-endian encoding of `value`.
pub open spec fn splice_be(p: Seq<u8>, offset: int, width: nat, value: nat) -> Seq<u8> {
    p.subrange(0, offset) + be_bytes(value, width) + p.subrange(offset + width, p.len() as int)
}

/// The message that results from giving `record` the address `replacement`, or why that
/// cannot be done.
pub open spec fn spec_rewrite(p: Seq<u8>, record: AddressRecord, replacement: IpAddr) -> Result<
    Seq<u8>,
    DnsError,
> {
    let offset = record.spec_offset() as int;
    match replacement {
        IpAddr::V4(a) => if !record.is_v4() {
            Err(DnsError::Ipv6RecordGivenIpv4)
        } else if let Some(e) = spec_unavailable(p, offset, 4) {
            Err(e)
        } else {
            Ok(splice_be(p, offset, 4, a as nat))
        },
        IpAddr::V6(a) => if record.is_v4() {
            Err(DnsError::Ipv4RecordGivenIpv6)
        } else if let Some(e) = spec_unavailable(p, offset, 16) {
            Err(e)
        } else {
            Ok(splice_be(p, offset, 16, a as nat))
        },
    }
}

/// Overwrites, in place, the address bytes of `record` with `replacement`, which must be
/// of the same address family. On an error the message is left as it was.
pub fn rewrite_address_record(
    packet: &mut [u8],
    record: &AddressRecord,
    replacement: IpAddr,
) -> (res: Result<(), DnsError>)
    ensures
        (match spec_rewrite(old(packet)@, *record, replacement) {
            Ok(rewritten) => res is Ok && final(packet)@ == rewritten,
            Err(e) => res == Err::<(), DnsError>(e) && final(packet)@ == old(packet)@,
        }),
{
    match (record, replacement) {
        (AddressRecord::A { offset, .. }, IpAddr::V4(address))
        | (AddressRecord::Ipv4Hint { offset, .. }, IpAddr::V4(address)) => {
            ensure_available(packet, *offset, 4)?;
            write_be(packet, *offset, address as u128, 4);
            Ok(())
        },
        (AddressRecord::Aaaa { offset, .. }, IpAddr::V6(address))
        | (AddressRecord::Ipv6Hint { offset, .. }, IpAddr::V6(address)) => {
            ensure_available(packet, *offset, 16)?;
            write_be(packet, *offset, address, 16);
            Ok(())
        },
        (AddressRecord::A { .. }, IpAddr::V6(_))
        | (AddressRecord::Ipv4Hint { .. }, IpAddr::V6(_)) => {
            Err(DnsError::Ipv4RecordGivenIpv6)
        },
        (AddressRecord::Aaaa { .. }, IpAddr::V4(_))
        | (AddressRecord::Ipv6Hint { .. }, IpAddr::V4(_)) => {
            Err(DnsError::Ipv6RecordGivenIpv4)
        },
    }
}

/// Clears the AD (Authenticated Data) flag, bit `0x20` of header byte 3, leaving every
/// other bit of the message as it was. A message too short to hold the flags is refused
/// and left as it was.
pub fn clear_authenticated_data(packet: &mut [u8]) -> (res: Result<(), DnsError>)
    ensures
        old(packet)@.len() < 4 ==> res == Err::<(), DnsError>(DnsError::ShortFlags)
            && final(packet)@ == old(packet)@,
        old(packet)@.len() >= 4 ==> res is Ok && final(packet)@ == old(packet)@.update(
            3,
            old(packet)@[3] & 0xdf,
        ),
{
    if packet.len() < 4 {
        return Err(DnsError::ShortFlags);
    }
    packet[3] = packet[3] & 0xdf;
    Ok(())
}

} // verus!
