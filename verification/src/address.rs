//! IP addresses as plain integers, and their big-endian byte encoding.
use vstd::prelude::*;

verus! {

/// An IPv4 or IPv6 address, held as the big-endian integer value of its octets.
#[derive(Debug, Clone, Copy, PartialEq, Eq, Hash, Structural)]
pub enum IpAddr {
    V4(u32),
    V6(u128),
}

/// `256` raised to the power `n`.
pub open spec fn pow256(n: nat) -> nat
    decreases n,
{
    if n == 0 {
        1
    } else {
        256 * pow256((n - 1) as nat)
    }
}

/// The unsigned integer that a byte sequence denotes, most significant byte first.
pub open spec fn be_value(bytes: Seq<u8>) -> nat
    decreases bytes.len(),
{
    if bytes.len() == 0 {
        0
    } else {
        be_value(bytes.drop_last()) * 256 + bytes.last() as nat
    }
}

/// The `n` bytes, most significant first, that encode `x` modulo `256^n`.
pub open spec fn be_bytes(x: nat, n: nat) -> Seq<u8>
    decreases n,
{
    if n == 0 {
        Seq::empty()
    } else {
        be_bytes(x / 256, (n - 1) as nat).push((x % 256) as u8)
    }
}

/// The IPv4 address whose four octets are `a.b.c.d`.
pub open spec fn ipv4_value(a: u8, b: u8, c: u8, d: u8) -> nat {
    be_value(seq![a, b, c, d])
}

/// The IPv6 address whose eight 16-bit segments are given, most significant first.
pub open spec fn ipv6_value(segments: Seq<u16>) -> nat
    decreases segments.len(),
{
    if segments.len() == 0 {
        0
    } else {
        ipv6_value(segments.drop_last()) * 65536 + segments.last() as nat
    }
}

pub proof fn lemma_pow256_facts()
    ensures
        pow256(0) == 1,
        pow256(1) == 256,
        pow256(2) == 0x1_0000,
        pow256(4) == 0x1_0000_0000,
        pow256(16) == 0x1_0000_0000_0000_0000_0000_0000_0000_0000,
{
    reveal_with_fuel(pow256, 17);
}

pub proof fn lemma_pow256_positive(n: nat)
    ensures
        pow256(n) >= 1,
    decreases n,
{
    if n > 0 {
        lemma_pow256_positive((n - 1) as nat);
    }
}

/// A byte sequence of length `n` denotes a value below `256^n`.
pub proof fn lemma_be_value_bound(bytes: Seq<u8>)
    ensures
        be_value(bytes) < pow256(bytes.len()),
    decreases bytes.len(),
{
    if bytes.len() > 0 {
        lemma_be_value_bound(bytes.drop_last());
    }
}

/// Encoding yields exactly `n` bytes.
pub proof fn lemma_be_bytes_len(x: nat, n: nat)
    ensures
        be_bytes(x, n).len() == n,
    decreases n,
{
    if n > 0 {
        lemma_be_bytes_len(x / 256, (n - 1) as nat);
    }
}

/// Decoding the encoding of a value that fits gives the value back.
pub proof fn lemma_be_roundtrip(x: nat, n: nat)
    requires
        x < pow256(n),
    ensures
        be_value(be_bytes(x, n)) == x,
        be_bytes(x, n).len() == n,
    decreases n,
{
    lemma_be_bytes_len(x, n);
    if n > 0 {
        assert(x / 256 < pow256((n - 1) as nat)) by (nonlinear_arith)
            requires
                x < pow256(n),
                pow256(n) == 256 * pow256((n - 1) as nat),
        ;
        lemma_be_roundtrip(x / 256, (n - 1) as nat);
        let s = be_bytes(x, n);
        assert(s.drop_last() =~= be_bytes(x / 256, (n - 1) as nat));
        assert(x == (x / 256) * 256 + x % 256) by (nonlinear_arith);
    }
}

/// Encoding the value that `bytes` denotes gives `bytes` back.
pub proof fn lemma_be_bytes_of_value(bytes: Seq<u8>)
    ensures
        be_bytes(be_value(bytes), bytes.len()) =~= bytes,
    decreases bytes.len(),
{
    if bytes.len() > 0 {
        let v = be_value(bytes.drop_last());
        let x = be_value(bytes);
        assert(x / 256 == v && x % 256 == bytes.last() as nat) by (nonlinear_arith)
            requires
                x == v * 256 + bytes.last(),
                bytes.last() < 256,
        ;
        lemma_be_bytes_of_value(bytes.drop_last());
    }
}

impl IpAddr {
    /// The IPv4 address `a.b.c.d`.
    pub fn v4(a: u8, b: u8, c: u8, d: u8) -> (res: IpAddr)
        ensures
            res == IpAddr::V4(ipv4_value(a, b, c, d) as u32),
            ipv4_value(a, b, c, d) < 0x1_0000_0000,
    {
        proof {
            lemma_pow256_facts();
            lemma_be_value_bound(seq![a, b, c, d]);
            reveal_with_fuel(be_value, 5);
            assert(seq![a, b, c, d].drop_last() =~= seq![a, b, c]);
            assert(seq![a, b, c].drop_last() =~= seq![a, b]);
            assert(seq![a, b].drop_last() =~= seq![a]);
            assert(seq![a].drop_last() =~= Seq::<u8>::empty());
        }
        let value: u32 = ((a as u32 * 256 + b as u32) * 256 + c as u32) * 256 + d as u32;
        IpAddr::V4(value)
    }

    /// The IPv6 address with the eight 16-bit segments `s0:s1:...:s7`.
    pub fn v6(s0: u16, s1: u16, s2: u16, s3: u16, s4: u16, s5: u16, s6: u16, s7: u16) -> (res:
        IpAddr)
        ensures
            res == IpAddr::V6(ipv6_value(seq![s0, s1, s2, s3, s4, s5, s6, s7]) as u128),
            ipv6_value(seq![s0, s1, s2, s3, s4, s5, s6, s7]) < pow256(16),
    {
        let segments: [u16; 8] = [s0, s1, s2, s3, s4, s5, s6, s7];
        let ghost all = seq![s0, s1, s2, s3, s4, s5, s6, s7];
        assert(segments@ =~= all);
        let mut value: u128 = 0;
        let mut i: usize = 0;
        proof {
            lemma_pow256_facts();
        }
        while i < 8
            invariant
                0 <= i <= 8,
                segments@ =~= all,
                value == ipv6_value(all.take(i as int)),
                value < pow256(2 * i as nat),
                pow256(16) == 0x1_0000_0000_0000_0000_0000_0000_0000_0000,
            decreases 8 - i,
        {
            proof {
                assert(all.take(i + 1).drop_last() =~= all.take(i as int));
                assert(pow256(2 * (i + 1) as nat) == 65536 * pow256(2 * i as nat)) by {
                    reveal_with_fuel(pow256, 3);
                }
                lemma_pow256_monotone(2 * (i + 1) as nat, 16);
            }
            value = value * 65536 + segments[i] as u128;
            i = i + 1;
        }
        assert(all.take(8) =~= all);
        IpAddr::V6(value)
    }

    /// Whether this is an IPv4 address.
    pub fn is_ipv4(&self) -> (res: bool)
        ensures
            res == (self is V4),
    {
        match self {
            IpAddr::V4(_) => true,
            IpAddr::V6(_) => false,
        }
    }
}

pub proof fn lemma_pow256_monotone(m: nat, n: nat)
    requires
        m <= n,
    ensures
        pow256(m) <= pow256(n),
    decreases n,
{
    if m < n {
        lemma_pow256_monotone(m, (n - 1) as nat);
    }
}

/// Reads the `n` bytes at `offset` as a big-endian integer.
pub fn read_be(bytes: &[u8], offset: usize, n: usize) -> (value: u128)
    requires
        n <= 16,
        offset + n <= bytes@.len(),
    ensures
        value == be_value(bytes@.subrange(offset as int, offset + n)),
        value < pow256(n as nat),
{
    let len = bytes.len();
    let mut value: u128 = 0;
    let mut i: usize = 0;
    proof {
        lemma_pow256_facts();
    }
    while i < n
        invariant
            i <= n <= 16,
            len == bytes@.len(),
            offset + n <= bytes@.len(),
            value == be_value(bytes@.subrange(offset as int, offset + i)),
            value < pow256(i as nat),
            pow256(16) == 0x1_0000_0000_0000_0000_0000_0000_0000_0000,
        decreases n - i,
    {
        proof {
            assert(bytes@.subrange(offset as int, offset + i + 1).drop_last() =~= bytes@.subrange(
                offset as int,
                offset + i,
            ));
            lemma_pow256_monotone((i + 1) as nat, 16);
        }
        value = value * 256 + bytes[offset + i] as u128;
        i = i + 1;
    }
    value
}

/// Overwrites the `n` bytes at `offset` with the big-endian encoding of `value`.
pub fn write_be(bytes: &mut [u8], offset: usize, value: u128, n: usize)
    requires
        offset + n <= old(bytes)@.len(),
    ensures
        final(bytes)@.len() == old(bytes)@.len(),
        final(bytes)@ =~= old(bytes)@.subrange(0, offset as int) + be_bytes(value as nat, n as nat)
            + old(bytes)@.subrange(offset + n, old(bytes)@.len() as int),
{
    let len = bytes.len();
    let mut v: u128 = value;
    let mut j: usize = 0;
    proof {
        lemma_be_bytes_len(value as nat, n as nat);
    }
    while j < n
        invariant
            j <= n,
            offset + n <= old(bytes)@.len(),
            bytes@.len() == old(bytes)@.len(),
            len == old(bytes)@.len(),
            be_bytes(value as nat, n as nat) =~= be_bytes(v as nat, (n - j) as nat)
                + bytes@.subrange(offset + n - j, offset + n),
            forall|k: int| 0 <= k < offset + n - j ==> bytes@[k] == old(bytes)@[k],
            forall|k: int| offset + n <= k < bytes@.len() ==> bytes@[k] == old(bytes)@[k],
        decreases n - j,
    {
        let pos = offset + n - j - 1;
        let ghost before = bytes@;
        bytes[pos] = (v % 256) as u8;
        proof {
            let rest = before.subrange(offset + n - j, offset + n);
            assert(bytes@.subrange(offset + n - (j + 1), offset + n) =~= seq![(v % 256) as u8]
                + rest);
            assert(be_bytes(v as nat, (n - j) as nat) =~= be_bytes(
                (v / 256) as nat,
                (n - j - 1) as nat,
            ).push((v % 256) as u8));
        }
        v = v / 256;
        j = j + 1;
    }
    proof {
        assert(be_bytes(v as nat, 0) =~= Seq::<u8>::empty());
    }
}

} // verus!
