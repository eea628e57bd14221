//! What rewriting an address does to what the message is read as.
//!
//! The reading of a message depends on its structural bytes (lengths, types, keys) and
//! on the address bytes only through the addresses it reports. So a change confined to
//! the bytes of one reported address leaves every record where it was, and changes
//! only the address that record carries.
use vstd::prelude::*;
use crate::address::{
    IpAddr,
    be_value,
    be_bytes,
    lemma_be_roundtrip,
    lemma_be_bytes_of_value,
    lemma_be_bytes_len,
    lemma_pow256_facts,
};
use crate::dns::{
    AddressRecord,
    DnsError,
    DNS_HEADER_LEN,
    be16,
    value_at,
    splice_be,
    spec_skip_name,
    spec_skip_questions,
    spec_ipv4_hints,
    spec_ipv6_hints,
    spec_svc_params,
    spec_svc_params_appended,
    prepend,
    spec_svcb_hints,
    spec_record,
    spec_records,
    spec_extract,
    spec_rewrite,
};

verus! {

/// `r` with its address read afresh from the bytes of `q` at its offset.
pub open spec fn reread_one(r: AddressRecord, q: Seq<u8>) -> AddressRecord {
    match r {
        AddressRecord::A { offset, .. } => AddressRecord::A {
            offset,
            address: value_at(q, offset as int, 4) as u32,
        },
        AddressRecord::Aaaa { offset, .. } => AddressRecord::Aaaa {
            offset,
            address: value_at(q, offset as int, 16) as u128,
        },
        AddressRecord::Ipv4Hint { offset, .. } => AddressRecord::Ipv4Hint {
            offset,
            address: value_at(q, offset as int, 4) as u32,
        },
        AddressRecord::Ipv6Hint { offset, .. } => AddressRecord::Ipv6Hint {
            offset,
            address: value_at(q, offset as int, 16) as u128,
        },
    }
}

/// Every record of `found` with its address read afresh from `q`.
pub open spec fn reread(found: Seq<AddressRecord>, q: Seq<u8>) -> Seq<AddressRecord> {
    found.map_values(|r: AddressRecord| reread_one(r, q))
}

/// The address bytes of every record of `found` lie in `lo .. hi`.
pub open spec fn within(found: Seq<AddressRecord>, lo: int, hi: int) -> bool {
    forall|j: int|
        0 <= j < found.len() ==> lo <= #[trigger] found[j].spec_offset() && found[j].spec_offset()
            + found[j].width() <= hi
}

/// The address bytes of the records of `found` come one after another without overlap.
pub open spec fn ordered(found: Seq<AddressRecord>) -> bool {
    forall|j: int, k: int|
        0 <= j < k < found.len() ==> #[trigger] found[j].spec_offset() + found[j].width()
            <= #[trigger] found[k].spec_offset()
}

/// `p` and `q` have one length and differ at most in the bytes `a .. a + w`.
pub open spec fn same_except(p: Seq<u8>, q: Seq<u8>, a: int, w: int) -> bool {
    &&& p.len() == q.len()
    &&& forall|k: int| 0 <= k < p.len() && !(a <= k < a + w) ==> #[trigger] p[k] == q[k]
}

/// The bytes `a .. a + w` lie outside `lo .. hi`.
pub open spec fn apart(a: int, w: int, lo: int, hi: int) -> bool {
    w <= 0 || a + w <= lo || hi <= a
}

/// The bytes `a .. a + w` are exactly the address bytes of some record of `found`.
pub open spec fn has_field(found: Seq<AddressRecord>, a: int, w: int) -> bool {
    exists|j: int|
        0 <= j < found.len() && #[trigger] found[j].spec_offset() == a && found[j].width() == w
}

proof fn lemma_skip_name_shape(p: Seq<u8>, off: int)
    requires
        spec_skip_name(p, off) is Ok,
    ensures
        0 <= off < spec_skip_name(p, off)->Ok_0 <= p.len(),
    decreases p.len() - off,
{
    let length = p[off];
    if length != 0 && length < 0x40 {
        lemma_skip_name_shape(p, off + 1 + length);
    }
}

proof fn lemma_skip_name_frame(p: Seq<u8>, q: Seq<u8>, off: int, a: int, w: int)
    requires
        spec_skip_name(p, off) is Ok,
        same_except(p, q, a, w),
        apart(a, w, off, spec_skip_name(p, off)->Ok_0),
    ensures
        spec_skip_name(q, off) == spec_skip_name(p, off),
    decreases p.len() - off,
{
    lemma_skip_name_shape(p, off);
    assert(p[off] == q[off]);
    let length = p[off];
    if length != 0 && length < 0x40 {
        lemma_skip_name_frame(p, q, off + 1 + length, a, w);
    }
}

proof fn lemma_concat(
    x: Seq<AddressRecord>,
    y: Seq<AddressRecord>,
    lo: int,
    mid: int,
    hi: int,
    q: Seq<u8>,
)
    requires
        lo <= mid <= hi,
        within(x, lo, mid),
        within(y, mid, hi),
        ordered(x),
        ordered(y),
    ensures
        within(x + y, lo, hi),
        ordered(x + y),
        reread(x + y, q) =~= reread(x, q) + reread(y, q),
{
    let s = x + y;
    assert forall|j: int, k: int| 0 <= j < k < s.len() implies #[trigger] s[j].spec_offset()
        + s[j].width() <= #[trigger] s[k].spec_offset() by {
        if k < x.len() {
            assert(s[j] == x[j] && s[k] == x[k]);
        } else if j >= x.len() {
            assert(s[j] == y[j - x.len()] && s[k] == y[k - x.len()]);
        } else {
            assert(s[j] == x[j] && s[k] == y[k - x.len()]);
        }
    }
    assert forall|j: int| 0 <= j < s.len() implies lo <= #[trigger] s[j].spec_offset()
        && s[j].spec_offset() + s[j].width() <= hi by {
        if j < x.len() {
            assert(s[j] == x[j]);
        } else {
            assert(s[j] == y[j - x.len()]);
        }
    }
}

proof fn lemma_has_field_split(x: Seq<AddressRecord>, y: Seq<AddressRecord>, a: int, w: int)
    requires
        has_field(x + y, a, w),
    ensures
        has_field(x, a, w) || has_field(y, a, w),
{
    let s = x + y;
    let j = choose|j: int|
        0 <= j < s.len() && #[trigger] s[j].spec_offset() == a && s[j].width() == w;
    if j < x.len() {
        assert(s[j] == x[j]);
    } else {
        assert(s[j] == y[j - x.len()]);
    }
}

proof fn lemma_has_field_within(found: Seq<AddressRecord>, a: int, w: int, lo: int, hi: int)
    requires
        has_field(found, a, w),
        within(found, lo, hi),
    ensures
        lo <= a && a + w <= hi,
{
    let j = choose|j: int|
        0 <= j < found.len() && #[trigger] found[j].spec_offset() == a && found[j].width() == w;
    assert(lo <= found[j].spec_offset());
}

proof fn lemma_empty_shape()
    ensures
        within(Seq::<AddressRecord>::empty(), 0, 0),
        ordered(Seq::<AddressRecord>::empty()),
        forall|a: int, w: int| !has_field(Seq::<AddressRecord>::empty(), a, w),
{
}

proof fn lemma_v4_hints(p: Seq<u8>, q: Seq<u8>, off: int, n: nat)
    requires
        0 <= off,
        off + 4 * n <= usize::MAX,
    ensures
        within(spec_ipv4_hints(p, off, n), off, off + 4 * n),
        ordered(spec_ipv4_hints(p, off, n)),
        reread(spec_ipv4_hints(p, off, n), q) =~= spec_ipv4_hints(q, off, n),
{
    let h = spec_ipv4_hints(p, off, n);
    assert forall|j: int| 0 <= j < h.len() implies off <= #[trigger] h[j].spec_offset()
        && h[j].spec_offset() + h[j].width() <= off + 4 * n by {
        assert(h[j].spec_offset() == off + 4 * j);
    }
    assert forall|j: int, k: int| 0 <= j < k < h.len() implies #[trigger] h[j].spec_offset()
        + h[j].width() <= #[trigger] h[k].spec_offset() by {
        assert(h[j].spec_offset() == off + 4 * j);
        assert(h[k].spec_offset() == off + 4 * k);
    }
}

proof fn lemma_v6_hints(p: Seq<u8>, q: Seq<u8>, off: int, n: nat)
    requires
        0 <= off,
        off + 16 * n <= usize::MAX,
    ensures
        within(spec_ipv6_hints(p, off, n), off, off + 16 * n),
        ordered(spec_ipv6_hints(p, off, n)),
        reread(spec_ipv6_hints(p, off, n), q) =~= spec_ipv6_hints(q, off, n),
{
    let h = spec_ipv6_hints(p, off, n);
    assert forall|j: int| 0 <= j < h.len() implies off <= #[trigger] h[j].spec_offset()
        && h[j].spec_offset() + h[j].width() <= off + 16 * n by {
        assert(h[j].spec_offset() == off + 16 * j);
    }
    assert forall|j: int, k: int| 0 <= j < k < h.len() implies #[trigger] h[j].spec_offset()
        + h[j].width() <= #[trigger] h[k].spec_offset() by {
        assert(h[j].spec_offset() == off + 16 * j);
        assert(h[k].spec_offset() == off + 16 * k);
    }
}

/// The hints of one SvcParam: its own, before those of the rest.
proof fn lemma_svc_params(p: Seq<u8>, q: Seq<u8>, off: int, end: int, a: int, w: int)
    requires
        spec_svc_params(p, off, end) is Ok,
        0 <= off,
        end <= p.len() <= usize::MAX,
        same_except(p, q, a, w),
        apart(a, w, off, end) || has_field(spec_svc_params(p, off, end)->Ok_0, a, w),
    ensures
        within(spec_svc_params(p, off, end)->Ok_0, off, end),
        ordered(spec_svc_params(p, off, end)->Ok_0),
        spec_svc_params(q, off, end) == Ok::<Seq<AddressRecord>, DnsError>(
            reread(spec_svc_params(p, off, end)->Ok_0, q),
        ),
    decreases end - off,
{
    let all = spec_svc_params(p, off, end)->Ok_0;
    if off >= end {
        lemma_empty_shape();
        assert(reread(all, q) =~= Seq::<AddressRecord>::empty());
    } else {
        let key = be16(p, off);
        let length = be16(p, off + 2);
        let value_end = off + 4 + length;
        let own = if key == 4 {
            spec_ipv4_hints(p, off + 4, (length / 4) as nat)
        } else if key == 6 {
            spec_ipv6_hints(p, off + 4, (length / 16) as nat)
        } else {
            Seq::<AddressRecord>::empty()
        };
        let rest = spec_svc_params(p, value_end, end)->Ok_0;
        assert(all == own + rest);
        if key == 4 {
            lemma_v4_hints(p, q, off + 4, (length / 4) as nat);
        } else if key == 6 {
            lemma_v6_hints(p, q, off + 4, (length / 16) as nat);
        } else {
            lemma_empty_shape();
        }
        assert(within(own, off + 4, value_end));
        // the region is apart from the rest, or is one of its fields
        if has_field(all, a, w) && !apart(a, w, off, end) {
            lemma_has_field_split(own, rest, a, w);
            if has_field(own, a, w) {
                lemma_has_field_within(own, a, w, off + 4, value_end);
            }
        }
        lemma_svc_params(p, q, value_end, end, a, w);
        lemma_concat(own, rest, off + 4, value_end, end, q);
        // the key and length bytes are not in the region
        if has_field(all, a, w) && !apart(a, w, off, end) {
            if has_field(own, a, w) {
                lemma_has_field_within(own, a, w, off + 4, value_end);
            } else {
                lemma_has_field_within(rest, a, w, value_end, end);
            }
        }
        assert(p[off] == q[off] && p[off + 1] == q[off + 1]);
        assert(p[off + 2] == q[off + 2] && p[off + 3] == q[off + 3]);
        assert(be16(q, off) == key && be16(q, off + 2) == length);
        if key == 4 {
            assert(reread(own, q) =~= spec_ipv4_hints(q, off + 4, (length / 4) as nat));
        } else if key == 6 {
            assert(reread(own, q) =~= spec_ipv6_hints(q, off + 4, (length / 16) as nat));
        } else {
            assert(reread(own, q) =~= Seq::<AddressRecord>::empty());
        }
    }
}


proof fn lemma_svcb_hints(p: Seq<u8>, q: Seq<u8>, rdata: int, length: int, a: int, w: int)
    requires
        spec_svcb_hints(p, rdata, length) is Ok,
        0 <= rdata,
        p.len() <= usize::MAX,
        same_except(p, q, a, w),
        apart(a, w, rdata, rdata + length) || has_field(
            spec_svcb_hints(p, rdata, length)->Ok_0,
            a,
            w,
        ),
    ensures
        within(spec_svcb_hints(p, rdata, length)->Ok_0, rdata, rdata + length),
        ordered(spec_svcb_hints(p, rdata, length)->Ok_0),
        spec_svcb_hints(q, rdata, length) == Ok::<Seq<AddressRecord>, DnsError>(
            reread(spec_svcb_hints(p, rdata, length)->Ok_0, q),
        ),
{
    let params = spec_skip_name(p, rdata + 2)->Ok_0;
    lemma_skip_name_shape(p, rdata + 2);
    lemma_svc_params(p, p, params, rdata + length, 0, 0);
    let found = spec_svcb_hints(p, rdata, length)->Ok_0;
    if has_field(found, a, w) && !apart(a, w, rdata, rdata + length) {
        lemma_has_field_within(found, a, w, params, rdata + length);
    }
    lemma_svc_params(p, q, params, rdata + length, a, w);
    lemma_skip_name_frame(p, q, rdata + 2, a, w);
}

proof fn lemma_record(p: Seq<u8>, q: Seq<u8>, off: int, a: int, w: int)
    requires
        spec_record(p, off) is Ok,
        0 <= off,
        p.len() <= usize::MAX,
        same_except(p, q, a, w),
        apart(a, w, off, spec_record(p, off)->Ok_0.0) || has_field(
            spec_record(p, off)->Ok_0.1,
            a,
            w,
        ),
    ensures
        off < spec_record(p, off)->Ok_0.0 <= p.len(),
        within(spec_record(p, off)->Ok_0.1, off, spec_record(p, off)->Ok_0.0),
        ordered(spec_record(p, off)->Ok_0.1),
        spec_record(q, off) == Ok::<(int, Seq<AddressRecord>), DnsError>(
            (spec_record(p, off)->Ok_0.0, reread(spec_record(p, off)->Ok_0.1, q)),
        ),
{
    let (end, found) = spec_record(p, off)->Ok_0;
    lemma_skip_name_shape(p, off);
    let fixed = spec_skip_name(p, off)->Ok_0;
    let rtype = be16(p, fixed);
    let rdlength = be16(p, fixed + 8);
    let rdata = fixed + 10;
    // the found addresses lie in the RDATA
    if rtype == 1 && rdlength == 4 {
        assert(within(found, rdata, end));
        assert(reread(found, q) =~= seq![
            AddressRecord::A { offset: rdata as usize, address: value_at(q, rdata, 4) as u32 },
        ]);
    } else if rtype == 28 && rdlength == 16 {
        assert(within(found, rdata, end));
        assert(reread(found, q) =~= seq![
            AddressRecord::Aaaa {
                offset: rdata as usize,
                address: value_at(q, rdata, 16) as u128,
            },
        ]);
    } else if rtype == 64 || rtype == 65 {
        lemma_svcb_hints(p, p, rdata, rdlength, 0, 0);
        if has_field(found, a, w) && !apart(a, w, off, end) {
            lemma_has_field_within(found, a, w, rdata, end);
        }
        lemma_svcb_hints(p, q, rdata, rdlength, a, w);
    } else {
        lemma_empty_shape();
        assert(reread(found, q) =~= Seq::<AddressRecord>::empty());
    }
    assert(within(found, rdata, end));
    if has_field(found, a, w) && !apart(a, w, off, end) {
        lemma_has_field_within(found, a, w, rdata, end);
    }
    // the name and the fixed fields are outside the region
    lemma_skip_name_frame(p, q, off, a, w);
    assert(p[fixed] == q[fixed] && p[fixed + 1] == q[fixed + 1]);
    assert(p[fixed + 8] == q[fixed + 8] && p[fixed + 9] == q[fixed + 9]);
}

proof fn lemma_records(p: Seq<u8>, q: Seq<u8>, off: int, n: nat, a: int, w: int)
    requires
        spec_records(p, off, n) is Ok,
        0 <= off <= p.len(),
        p.len() <= usize::MAX,
        same_except(p, q, a, w),
        apart(a, w, off, p.len() as int) || has_field(spec_records(p, off, n)->Ok_0, a, w),
    ensures
        within(spec_records(p, off, n)->Ok_0, off, p.len() as int),
        ordered(spec_records(p, off, n)->Ok_0),
        spec_records(q, off, n) == Ok::<Seq<AddressRecord>, DnsError>(
            reread(spec_records(p, off, n)->Ok_0, q),
        ),
    decreases n,
{
    let all = spec_records(p, off, n)->Ok_0;
    if n == 0 {
        lemma_empty_shape();
        assert(reread(all, q) =~= Seq::<AddressRecord>::empty());
    } else {
        let (end, found) = spec_record(p, off)->Ok_0;
        let rest = spec_records(p, end, (n - 1) as nat)->Ok_0;
        assert(all == found + rest);
        lemma_record(p, p, off, 0, 0);
        lemma_records(p, p, end, (n - 1) as nat, 0, 0);
        if has_field(all, a, w) && !apart(a, w, off, p.len() as int) {
            lemma_has_field_split(found, rest, a, w);
            if has_field(found, a, w) {
                lemma_has_field_within(found, a, w, off, end);
            } else {
                lemma_has_field_within(rest, a, w, end, p.len() as int);
            }
        }
        lemma_record(p, q, off, a, w);
        lemma_records(p, q, end, (n - 1) as nat, a, w);
        lemma_concat(found, rest, off, end, p.len() as int, q);
    }
}

proof fn lemma_skip_questions(p: Seq<u8>, q: Seq<u8>, off: int, n: nat, a: int, w: int)
    requires
        spec_skip_questions(p, off, n) is Ok,
        0 <= off <= p.len(),
        same_except(p, q, a, w),
        apart(a, w, off, spec_skip_questions(p, off, n)->Ok_0),
    ensures
        off <= spec_skip_questions(p, off, n)->Ok_0 <= p.len(),
        spec_skip_questions(q, off, n) == spec_skip_questions(p, off, n),
    decreases n,
{
    if n > 0 {
        lemma_skip_name_shape(p, off);
        let end = spec_skip_name(p, off)->Ok_0;
        lemma_skip_questions(p, p, end + 4, (n - 1) as nat, 0, 0);
        lemma_skip_name_frame(p, q, off, a, w);
        lemma_skip_questions(p, q, end + 4, (n - 1) as nat, a, w);
    }
}

/// Reading a message that differs from `p` only in the address bytes of one of the
/// records read from `p` finds the same records, each carrying the address now in its
/// bytes.
pub proof fn lemma_extract_frame(p: Seq<u8>, q: Seq<u8>, a: int, w: int)
    requires
        spec_extract(p) is Ok,
        p.len() <= usize::MAX,
        same_except(p, q, a, w),
        has_field(spec_extract(p)->Ok_0, a, w) || w == 0,
    ensures
        within(spec_extract(p)->Ok_0, DNS_HEADER_LEN as int, p.len() as int),
        ordered(spec_extract(p)->Ok_0),
        spec_extract(q) == Ok::<Seq<AddressRecord>, DnsError>(reread(spec_extract(p)->Ok_0, q)),
{
    let qd = be16(p, 4);
    lemma_skip_questions(p, p, 12, qd as nat, 0, 0);
    let answers = spec_skip_questions(p, 12, qd as nat)->Ok_0;
    let count = be16(p, 6) + be16(p, 8) + be16(p, 10);
    let all = spec_extract(p)->Ok_0;
    lemma_records(p, p, answers, count as nat, 0, 0);
    if w != 0 {
        lemma_has_field_within(all, a, w, answers, p.len() as int);
    }
    assert(p[4] == q[4] && p[5] == q[5] && p[6] == q[6] && p[7] == q[7]);
    assert(p[8] == q[8] && p[9] == q[9] && p[10] == q[10] && p[11] == q[11]);
    lemma_skip_questions(p, q, 12, qd as nat, a, w);
    lemma_records(p, q, answers, count as nat, a, w);
}


/// Splicing `width` bytes at `offset` changes nothing outside them.
proof fn lemma_splice_same_except(p: Seq<u8>, offset: int, width: nat, value: nat)
    requires
        0 <= offset,
        offset + width <= p.len(),
    ensures
        same_except(p, splice_be(p, offset, width, value), offset, width as int),
        splice_be(p, offset, width, value).subrange(offset, offset + width) =~= be_bytes(
            value,
            width,
        ),
{
    lemma_be_bytes_len(value, width);
    let q = splice_be(p, offset, width, value);
    assert forall|k: int| 0 <= k < p.len() && !(offset <= k < offset + width) implies #[trigger] p[k]
        == q[k] by {
        if k < offset {
            assert(q[k] == p.subrange(0, offset)[k]);
        } else {
            assert(q[k] == p.subrange(offset + width, p.len() as int)[k - offset - width]);
        }
    }
}

/// Giving a record read from a message an address of its own family succeeds, and the
/// rewritten message is read as the same records at the same offsets, that record now
/// carrying the new address and every other record its old one.
pub proof fn lemma_rewrite_then_extract(p: Seq<u8>, i: int, replacement: IpAddr)
    requires
        p.len() <= usize::MAX,
        spec_extract(p) is Ok,
        0 <= i < spec_extract(p)->Ok_0.len(),
        spec_extract(p)->Ok_0[i].is_v4() == (replacement is V4),
    ensures
        spec_rewrite(p, spec_extract(p)->Ok_0[i], replacement) is Ok,
        spec_extract(spec_rewrite(p, spec_extract(p)->Ok_0[i], replacement)->Ok_0) == Ok::<
            Seq<AddressRecord>,
            DnsError,
        >(
            spec_extract(p)->Ok_0.update(
                i,
                spec_extract(p)->Ok_0[i].with_address(replacement),
            ),
        ),
{
    let records = spec_extract(p)->Ok_0;
    let r = records[i];
    let o = r.spec_offset() as int;
    let width = r.width();
    let value: nat = match replacement {
        IpAddr::V4(x) => x as nat,
        IpAddr::V6(x) => x as nat,
    };
    lemma_extract_frame(p, p, 0, 0);
    assert(r.spec_offset() + r.width() <= p.len());
    let q = splice_be(p, o, width, value);
    assert(spec_rewrite(p, r, replacement) == Ok::<Seq<u8>, DnsError>(q));
    lemma_splice_same_except(p, o, width, value);
    assert(has_field(records, o, width as int));
    lemma_extract_frame(p, q, o, width as int);
    lemma_pow256_facts();
    lemma_be_roundtrip(value, width);
    assert(value_at(q, o, width as int) == value);
    let expected = records.update(i, r.with_address(replacement));
    assert forall|j: int| 0 <= j < records.len() implies #[trigger] reread(records, q)[j]
        == expected[j] by {
        if j != i {
            let rj = records[j];
            let oj = rj.spec_offset() as int;
            let wj = rj.width() as int;
            if j < i {
                assert(rj.spec_offset() + rj.width() <= r.spec_offset());
            } else {
                assert(r.spec_offset() + r.width() <= rj.spec_offset());
            }
            assert(q.subrange(oj, oj + wj) =~= p.subrange(oj, oj + wj));
            assert(reread(records, p)[j] == rj);
        }
    }
    assert(reread(records, q) =~= expected);
}

/// Giving a record read from a message the address it already carries leaves the
/// message as it was.
pub proof fn lemma_rewrite_with_own_address(p: Seq<u8>, i: int)
    requires
        p.len() <= usize::MAX,
        spec_extract(p) is Ok,
        0 <= i < spec_extract(p)->Ok_0.len(),
    ensures
        spec_rewrite(p, spec_extract(p)->Ok_0[i], spec_extract(p)->Ok_0[i].spec_address())
            == Ok::<Seq<u8>, DnsError>(p),
{
    let records = spec_extract(p)->Ok_0;
    let r = records[i];
    let o = r.spec_offset() as int;
    let w = r.width();
    lemma_extract_frame(p, p, 0, 0);
    assert(reread(records, p)[i] == r);
    let bytes = p.subrange(o, o + w);
    lemma_be_bytes_of_value(bytes);
    lemma_pow256_facts();
    crate::address::lemma_be_value_bound(bytes);
    assert(splice_be(p, o, w, be_value(bytes)) =~= p);
}

/// `p` and `q` have one length and agree on every byte from `lo` on.
pub open spec fn agree_from(p: Seq<u8>, q: Seq<u8>, lo: int) -> bool {
    &&& p.len() == q.len()
    &&& forall|k: int| lo <= k < p.len() ==> #[trigger] p[k] == q[k]
}

proof fn lemma_skip_name_suffix(p: Seq<u8>, q: Seq<u8>, off: int, lo: int)
    requires
        agree_from(p, q, lo),
        0 <= lo <= off,
    ensures
        spec_skip_name(q, off) == spec_skip_name(p, off),
    decreases p.len() - off,
{
    if off + 1 <= p.len() && off >= 0 {
        assert(p[off] == q[off]);
        let length = p[off];
        if length != 0 && length < 0x40 && off + 1 + length <= p.len() {
            lemma_skip_name_suffix(p, q, off + 1 + length, lo);
        }
    }
}

proof fn lemma_skip_questions_suffix(p: Seq<u8>, q: Seq<u8>, off: int, n: nat, lo: int)
    requires
        agree_from(p, q, lo),
        0 <= lo <= off,
    ensures
        spec_skip_questions(q, off, n) == spec_skip_questions(p, off, n),
    decreases n,
{
    if n > 0 {
        lemma_skip_name_suffix(p, q, off, lo);
        if spec_skip_name(p, off) is Ok {
            lemma_skip_name_shape(p, off);
            let end = spec_skip_name(p, off)->Ok_0;
            lemma_skip_questions_suffix(p, q, end + 4, (n - 1) as nat, lo);
        }
    }
}

proof fn lemma_svc_params_suffix(p: Seq<u8>, q: Seq<u8>, off: int, end: int, lo: int)
    requires
        agree_from(p, q, lo),
        0 <= lo <= off,
        end <= p.len(),
    ensures
        spec_svc_params(q, off, end) == spec_svc_params(p, off, end),
    decreases end - off,
{
    if off < end && end - off >= 4 {
        assert(p[off] == q[off] && p[off + 1] == q[off + 1]);
        assert(p[off + 2] == q[off + 2] && p[off + 3] == q[off + 3]);
        let key = be16(p, off);
        let length = be16(p, off + 2);
        let value_end = off + 4 + length;
        if value_end <= end {
            lemma_svc_params_suffix(p, q, value_end, end, lo);
            if key == 4 {
                let n = (length / 4) as nat;
                assert forall|j: int| 0 <= j < n implies #[trigger] spec_ipv4_hints(q, off + 4, n)[j]
                    == spec_ipv4_hints(p, off + 4, n)[j] by {
                    assert(4 * j + 4 <= length) by (nonlinear_arith)
                        requires
                            0 <= j < n,
                            n == length / 4,
                            length >= 0,
                    ;
                    assert(q.subrange(off + 4 + 4 * j, off + 8 + 4 * j) =~= p.subrange(
                        off + 4 + 4 * j,
                        off + 8 + 4 * j,
                    ));
                }
                assert(spec_ipv4_hints(q, off + 4, n) =~= spec_ipv4_hints(p, off + 4, n));
            } else if key == 6 {
                let n = (length / 16) as nat;
                assert forall|j: int| 0 <= j < n implies #[trigger] spec_ipv6_hints(q, off + 4, n)[j]
                    == spec_ipv6_hints(p, off + 4, n)[j] by {
                    assert(16 * j + 16 <= length) by (nonlinear_arith)
                        requires
                            0 <= j < n,
                            n == length / 16,
                            length >= 0,
                    ;
                    assert(q.subrange(off + 4 + 16 * j, off + 20 + 16 * j) =~= p.subrange(
                        off + 4 + 16 * j,
                        off + 20 + 16 * j,
                    ));
                }
                assert(spec_ipv6_hints(q, off + 4, n) =~= spec_ipv6_hints(p, off + 4, n));
            }
        }
    }
}

proof fn lemma_record_suffix(p: Seq<u8>, q: Seq<u8>, off: int, lo: int)
    requires
        agree_from(p, q, lo),
        0 <= lo <= off,
    ensures
        spec_record(q, off) == spec_record(p, off),
{
    lemma_skip_name_suffix(p, q, off, lo);
    if spec_skip_name(p, off) is Ok {
        lemma_skip_name_shape(p, off);
        let fixed = spec_skip_name(p, off)->Ok_0;
        if fixed + 10 <= p.len() {
            assert(p[fixed] == q[fixed] && p[fixed + 1] == q[fixed + 1]);
            assert(p[fixed + 8] == q[fixed + 8] && p[fixed + 9] == q[fixed + 9]);
            let rdata = fixed + 10;
            let rdlength = be16(p, fixed + 8);
            if rdata + rdlength <= p.len() {
                if rdlength == 4 {
                    assert(q.subrange(rdata, rdata + 4) =~= p.subrange(rdata, rdata + 4));
                }
                if rdlength == 16 {
                    assert(q.subrange(rdata, rdata + 16) =~= p.subrange(rdata, rdata + 16));
                }
                lemma_skip_name_suffix(p, q, rdata + 2, lo);
                if spec_skip_name(p, rdata + 2) is Ok {
                    let params = spec_skip_name(p, rdata + 2)->Ok_0;
                    lemma_skip_name_shape(p, rdata + 2);
                    lemma_svc_params_suffix(p, q, params, rdata + rdlength, lo);
                }
            }
        }
    }
}

proof fn lemma_records_suffix(p: Seq<u8>, q: Seq<u8>, off: int, n: nat, lo: int)
    requires
        agree_from(p, q, lo),
        0 <= lo <= off,
    ensures
        spec_records(q, off, n) == spec_records(p, off, n),
    decreases n,
{
    if n > 0 {
        lemma_record_suffix(p, q, off, lo);
        if spec_record(p, off) is Ok {
            lemma_skip_name_shape(p, off);
            let end = spec_record(p, off)->Ok_0.0;
            assert(end >= off) by {
                lemma_skip_name_shape(p, off);
            }
            lemma_records_suffix(p, q, end, (n - 1) as nat, lo);
        }
    }
}

/// Clearing the AD flag does not change what the message is read as, nor whether it can
/// be read.
pub proof fn lemma_clear_ad_keeps_records(p: Seq<u8>)
    requires
        p.len() >= 4,
    ensures
        spec_extract(p.update(3, p[3] & 0xdf)) == spec_extract(p),
{
    let q = p.update(3, p[3] & 0xdf);
    assert(agree_from(p, q, 4));
    if p.len() >= DNS_HEADER_LEN {
        assert(q[4] == p[4] && q[5] == p[5] && q[6] == p[6] && q[7] == p[7]);
        assert(q[8] == p[8] && q[9] == p[9] && q[10] == p[10] && q[11] == p[11]);
        let qd = be16(p, 4);
        lemma_skip_questions_suffix(p, q, 12, qd as nat, 4);
        if spec_skip_questions(p, 12, qd as nat) is Ok {
            lemma_skip_questions(p, p, 12, qd as nat, 0, 0);
            let answers = spec_skip_questions(p, 12, qd as nat)->Ok_0;
            let count = be16(p, 6) + be16(p, 8) + be16(p, 10);
            lemma_records_suffix(p, q, answers, count as nat, 4);
        }
    }
}

/// An `ipv6hint` parameter (key 6) whose value is a non-zero multiple of 16 bytes long is
/// accepted: it gives one `Ipv6Hint` for each 16 bytes of its value, in order, each at
/// the offset of its bytes and carrying their big-endian value, before the hints of the
/// parameters that follow it.
pub proof fn lemma_ipv6hint_gives_one_hint_per_16_bytes(p: Seq<u8>, off: int, end: int)
    requires
        0 <= off,
        off + 4 <= end <= p.len() <= usize::MAX,
        p[off] == 0,
        p[off + 1] == 6,
        p[off + 2] * 256 + p[off + 3] > 0,
        (p[off + 2] * 256 + p[off + 3]) % 16 == 0,
        off + 4 + p[off + 2] * 256 + p[off + 3] <= end,
    ensures
        ({
            let length = p[off + 2] * 256 + p[off + 3];
            let hints = Seq::new(
                (length / 16) as nat,
                |i: int|
                    AddressRecord::Ipv6Hint {
                        offset: (off + 4 + 16 * i) as usize,
                        address: be_value(p.subrange(off + 4 + 16 * i, off + 20 + 16 * i)) as u128,
                    },
            );
            &&& spec_svc_params(p, off, end) == prepend(
                hints,
                spec_svc_params(p, off + 4 + length, end),
            )
            &&& spec_svc_params_appended(p, off, end) == hints + spec_svc_params_appended(
                p,
                off + 4 + length,
                end,
            )
        }),
{
    let length = p[off + 2] * 256 + p[off + 3];
    assert(be16(p, off) == 6);
    assert(be16(p, off + 2) == length);
    assert(spec_ipv6_hints(p, off + 4, (length / 16) as nat) =~= Seq::new(
        (length / 16) as nat,
        |i: int|
            AddressRecord::Ipv6Hint {
                offset: (off + 4 + 16 * i) as usize,
                address: be_value(p.subrange(off + 4 + 16 * i, off + 20 + 16 * i)) as u128,
            },
    ));
}

/// An `ipv4hint` parameter (key 4) whose value is a non-zero multiple of 4 bytes long is
/// accepted: it gives one `Ipv4Hint` for each 4 bytes of its value, in order, each at the
/// offset of its bytes and carrying their big-endian value, before the hints of the
/// parameters that follow it.
pub proof fn lemma_ipv4hint_gives_one_hint_per_4_bytes(p: Seq<u8>, off: int, end: int)
    requires
        0 <= off,
        off + 4 <= end <= p.len() <= usize::MAX,
        p[off] == 0,
        p[off + 1] == 4,
        p[off + 2] * 256 + p[off + 3] > 0,
        (p[off + 2] * 256 + p[off + 3]) % 4 == 0,
        off + 4 + p[off + 2] * 256 + p[off + 3] <= end,
    ensures
        ({
            let length = p[off + 2] * 256 + p[off + 3];
            let hints = Seq::new(
                (length / 4) as nat,
                |i: int|
                    AddressRecord::Ipv4Hint {
                        offset: (off + 4 + 4 * i) as usize,
                        address: be_value(p.subrange(off + 4 + 4 * i, off + 8 + 4 * i)) as u32,
                    },
            );
            &&& spec_svc_params(p, off, end) == prepend(
                hints,
                spec_svc_params(p, off + 4 + length, end),
            )
            &&& spec_svc_params_appended(p, off, end) == hints + spec_svc_params_appended(
                p,
                off + 4 + length,
                end,
            )
        }),
{
    let length = p[off + 2] * 256 + p[off + 3];
    assert(be16(p, off) == 4);
    assert(be16(p, off + 2) == length);
    assert(spec_ipv4_hints(p, off + 4, (length / 4) as nat) =~= Seq::new(
        (length / 4) as nat,
        |i: int|
            AddressRecord::Ipv4Hint {
                offset: (off + 4 + 4 * i) as usize,
                address: be_value(p.subrange(off + 4 + 4 * i, off + 8 + 4 * i)) as u32,
            },
    ));
}

} // verus!
