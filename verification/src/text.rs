//! Lines of text, and the textual notation of IP addresses and prefix lengths.
//!
//! The notation accepted is that of Rust's standard library: an IPv4 address is four
//! decimal octets (0 to 255, no leading zero) joined by dots; an IPv6 address is eight
//! groups of one to four hex digits joined by colons, where one run of groups may be
//! replaced by `::` and the last two groups may be written as an IPv4 address.
use vstd::prelude::*;
use crate::address::{IpAddr, be_value, ipv6_value};

verus! {

broadcast use vstd::string::axiom_spec_iter;

/// The characters of `s`, in order.
pub fn chars_of(s: &str) -> (res: Vec<char>)
    ensures
        res@ == s@,
{
    let mut v: Vec<char> = Vec::new();
    for c in it: s.chars()
        invariant
            v@ == it.seq().take(it.index() as int),
    {
        v.push(c);
    }
    v
}

/// Unicode White_Space, the set that `char::is_whitespace` tests for.
pub open spec fn is_whitespace(c: char) -> bool {
    let u = c as u32;
    ||| 0x09 <= u <= 0x0D
    ||| u == 0x20
    ||| u == 0x85
    ||| u == 0xA0
    ||| u == 0x1680
    ||| 0x2000 <= u <= 0x200A
    ||| u == 0x2028
    ||| u == 0x2029
    ||| u == 0x202F
    ||| u == 0x205F
    ||| u == 0x3000
}

/// `s` without its leading white space.
pub open spec fn trim_start(s: Seq<char>) -> Seq<char>
    decreases s.len(),
{
    if s.len() > 0 && is_whitespace(s[0]) {
        trim_start(s.drop_first())
    } else {
        s
    }
}

/// `s` without its trailing white space.
pub open spec fn trim_end(s: Seq<char>) -> Seq<char>
    decreases s.len(),
{
    if s.len() > 0 && is_whitespace(s.last()) {
        trim_end(s.drop_last())
    } else {
        s
    }
}

/// `s` without leading and trailing white space.
pub open spec fn trim(s: Seq<char>) -> Seq<char> {
    trim_end(trim_start(s))
}

/// The number of characters of `s` before the first `sep`, or its length if none.
pub open spec fn first_index(s: Seq<char>, sep: char) -> nat
    decreases s.len(),
{
    if s.len() == 0 {
        0
    } else if s[0] == sep {
        0
    } else {
        1 + first_index(s.drop_first(), sep)
    }
}

/// The pieces of `s` between occurrences of `sep`: one more than there are `sep`s.
pub open spec fn split(s: Seq<char>, sep: char) -> Seq<Seq<char>>
    decreases s.len(),
{
    let i = first_index(s, sep);
    if i >= s.len() {
        seq![s]
    } else {
        seq![s.take(i as int)] + split(s.skip(i + 1 as int), sep)
    }
}

pub proof fn lemma_first_index(s: Seq<char>, sep: char)
    ensures
        first_index(s, sep) <= s.len(),
        first_index(s, sep) < s.len() ==> s[first_index(s, sep) as int] == sep,
        forall|k: int| 0 <= k < first_index(s, sep) ==> s[k] != sep,
    decreases s.len(),
{
    if s.len() > 0 && s[0] != sep {
        lemma_first_index(s.drop_first(), sep);
        assert forall|k: int| 0 <= k < first_index(s, sep) implies s[k] != sep by {
            if k > 0 {
                assert(s[k] == s.drop_first()[k - 1]);
            }
        }
    }
}

proof fn lemma_first_index_append(s: Seq<char>, x: Seq<char>, sep: char)
    ensures
        first_index(s, sep) < s.len() ==> first_index(s + x, sep) == first_index(s, sep),
        first_index(s, sep) == s.len() ==> first_index(s + x, sep) == s.len() + first_index(
            x,
            sep,
        ),
    decreases s.len(),
{
    lemma_first_index(s, sep);
    if s.len() > 0 {
        assert((s + x).drop_first() =~= s.drop_first() + x);
        lemma_first_index_append(s.drop_first(), x, sep);
    } else {
        assert(s + x =~= x);
    }
}

/// Text without `sep` is a single piece.
pub proof fn lemma_split_without_sep(t: Seq<char>, sep: char)
    requires
        !t.contains(sep),
    ensures
        split(t, sep) == seq![t],
{
    lemma_first_index(t, sep);
    if first_index(t, sep) < t.len() {
        assert(t[first_index(t, sep) as int] == sep);
    }
}

/// Appending `sep` and then text without `sep` adds that text as one more piece, after
/// the pieces of what came before: the text after the last `sep` is the last piece,
/// whether or not it is empty.
pub proof fn lemma_split_append(s: Seq<char>, sep: char, t: Seq<char>)
    requires
        !t.contains(sep),
    ensures
        split(s + seq![sep] + t, sep) == split(s, sep).push(t),
    decreases s.len(),
{
    let u = s + seq![sep] + t;
    let i = first_index(s, sep);
    lemma_first_index(s, sep);
    lemma_first_index_append(s, seq![sep] + t, sep);
    assert(u =~= s + (seq![sep] + t));
    lemma_split_step(u, sep);
    lemma_split_step(s, sep);
    if i < s.len() {
        assert(u.take(i as int) =~= s.take(i as int));
        assert(u.skip(i + 1 as int) =~= s.skip(i + 1 as int) + seq![sep] + t);
        lemma_split_append(s.skip(i + 1 as int), sep, t);
        assert(split(u, sep) =~= split(s, sep).push(t));
    } else {
        assert((seq![sep] + t)[0] == sep);
        assert(u.take(s.len() as int) =~= s);
        assert(u.skip(s.len() + 1 as int) =~= t);
        lemma_split_without_sep(t, sep);
        assert(split(u, sep) =~= split(s, sep).push(t));
    }
}

/// Whether `c` is an ASCII decimal digit.
pub open spec fn is_dec_digit(c: char) -> bool {
    '0' <= c <= '9'
}

/// Whether `c` is an ASCII hex digit, of either case.
pub open spec fn is_hex_digit(c: char) -> bool {
    ||| '0' <= c <= '9'
    ||| 'a' <= c <= 'f'
    ||| 'A' <= c <= 'F'
}

/// The value of a hex digit.
pub open spec fn hex_digit_value(c: char) -> nat {
    if '0' <= c <= '9' {
        (c as u32 - '0' as u32) as nat
    } else if 'a' <= c <= 'f' {
        (c as u32 - 'a' as u32 + 10) as nat
    } else {
        (c as u32 - 'A' as u32 + 10) as nat
    }
}

/// The value of a string of decimal digits.
pub open spec fn dec_value(s: Seq<char>) -> nat
    decreases s.len(),
{
    if s.len() == 0 {
        0
    } else {
        dec_value(s.drop_last()) * 10 + hex_digit_value(s.last())
    }
}

/// The value of a string of hex digits.
pub open spec fn hex_value(s: Seq<char>) -> nat
    decreases s.len(),
{
    if s.len() == 0 {
        0
    } else {
        hex_value(s.drop_last()) * 16 + hex_digit_value(s.last())
    }
}

pub open spec fn all_dec(s: Seq<char>) -> bool {
    forall|i: int| 0 <= i < s.len() ==> #[trigger] is_dec_digit(s[i])
}

pub open spec fn all_hex(s: Seq<char>) -> bool {
    forall|i: int| 0 <= i < s.len() ==> #[trigger] is_hex_digit(s[i])
}

/// A decimal octet: one to three digits, no leading zero, at most 255.
pub open spec fn dec_octet(s: Seq<char>) -> Option<u8> {
    if 1 <= s.len() <= 3 && all_dec(s) && (s.len() == 1 || s[0] != '0') && dec_value(s) <= 255 {
        Some(dec_value(s) as u8)
    } else {
        None
    }
}

/// An IPv6 group: one to four hex digits.
pub open spec fn hex_group(s: Seq<char>) -> Option<u16> {
    if 1 <= s.len() <= 4 && all_hex(s) {
        Some(hex_value(s) as u16)
    } else {
        None
    }
}

/// The IPv4 address written `a.b.c.d` in `s`.
pub open spec fn ipv4_text(s: Seq<char>) -> Option<u32> {
    let pieces = split(s, '.');
    if pieces.len() == 4 && forall|i: int| 0 <= i < 4 ==> (#[trigger] dec_octet(pieces[i])) is Some {
        Some(
            be_value(
                seq![
                    dec_octet(pieces[0])->0,
                    dec_octet(pieces[1])->0,
                    dec_octet(pieces[2])->0,
                    dec_octet(pieces[3])->0,
                ],
            ) as u32,
        )
    } else {
        None
    }
}

/// The 16-bit groups written in `s`, colon-separated; if `v4_last`, the last two may be
/// written as an IPv4 address. The empty string holds no groups.
pub open spec fn groups(s: Seq<char>, v4_last: bool) -> Option<Seq<u16>> {
    if s.len() == 0 {
        Some(Seq::empty())
    } else {
        let pieces = split(s, ':');
        let init = pieces.drop_last();
        let last = pieces.last();
        if forall|i: int| 0 <= i < init.len() ==> (#[trigger] hex_group(init[i])) is Some {
            let head = Seq::new(init.len(), |i: int| hex_group(init[i])->0);
            match hex_group(last) {
                Some(g) => Some(head.push(g)),
                None => if v4_last {
                    match ipv4_text(last) {
                        Some(v) => Some(head + seq![(v / 0x1_0000) as u16, (v % 0x1_0000) as u16]),
                        None => None,
                    }
                } else {
                    None
                },
            }
        } else {
            None
        }
    }
}

/// Where the first `::` of `s` starts, searching from `i`.
pub open spec fn double_colon_from(s: Seq<char>, i: int) -> Option<int>
    decreases s.len() - i,
{
    if i < 0 || i + 1 >= s.len() {
        None
    } else if s[i] == ':' && s[i + 1] == ':' {
        Some(i)
    } else {
        double_colon_from(s, i + 1)
    }
}

/// The eight groups of the IPv6 address written in `s`.
pub open spec fn ipv6_groups(s: Seq<char>) -> Option<Seq<u16>> {
    match double_colon_from(s, 0) {
        None => match groups(s, true) {
            Some(g) => if g.len() == 8 {
                Some(g)
            } else {
                None
            },
            None => None,
        },
        Some(d) => match (groups(s.take(d), false), groups(s.skip(d + 2), true)) {
            (Some(head), Some(tail)) => if head.len() + tail.len() <= 7 {
                Some(head + Seq::new((8 - head.len() - tail.len()) as nat, |i: int| 0u16) + tail)
            } else {
                None
            },
            _ => None,
        },
    }
}

/// The IPv6 address written in `s`.
pub open spec fn ipv6_text(s: Seq<char>) -> Option<u128> {
    match ipv6_groups(s) {
        Some(g) => Some(ipv6_value(g) as u128),
        None => None,
    }
}

/// The IPv4 or IPv6 address written in `s`, if `s` is exactly such an address.
pub open spec fn ip_text(s: Seq<char>) -> Option<IpAddr> {
    match ipv4_text(s) {
        Some(v) => Some(IpAddr::V4(v)),
        None => match ipv6_text(s) {
            Some(v) => Some(IpAddr::V6(v)),
            None => None,
        },
    }
}

/// The `u8` written in `s`: an optional `+`, then one or more decimal digits, with a
/// value of at most 255.
pub open spec fn u8_text(s: Seq<char>) -> Option<u8> {
    let digits = if s.len() > 0 && s[0] == '+' {
        s.drop_first()
    } else {
        s
    };
    if digits.len() >= 1 && all_dec(digits) && dec_value(digits) <= 255 {
        Some(dec_value(digits) as u8)
    } else {
        None
    }
}


/// Whether `c` is white space, as `char::is_whitespace` has it.
pub fn char_is_whitespace(c: char) -> (res: bool)
    ensures
        res == is_whitespace(c),
{
    let u = c as u32;
    (0x09 <= u && u <= 0x0D) || u == 0x20 || u == 0x85 || u == 0xA0 || u == 0x1680 || (0x2000 <= u
        && u <= 0x200A) || u == 0x2028 || u == 0x2029 || u == 0x202F || u == 0x205F || u == 0x3000
}

/// The position of the first `c` in `cs[lo..hi]`, or `hi` if there is none.
pub fn find_char(cs: &[char], lo: usize, hi: usize, c: char) -> (res: usize)
    requires
        lo <= hi <= cs@.len(),
    ensures
        lo <= res <= hi,
        res - lo == first_index(cs@.subrange(lo as int, hi as int), c),
{
    let mut i = lo;
    while i < hi
        invariant
            lo <= i <= hi <= cs@.len(),
            first_index(cs@.subrange(lo as int, hi as int), c) == (i - lo) + first_index(
                cs@.subrange(i as int, hi as int),
                c,
            ),
        decreases hi - i,
    {
        if cs[i] == c {
            return i;
        }
        assert(cs@.subrange(i as int, hi as int).drop_first() =~= cs@.subrange(i + 1, hi as int));
        i = i + 1;
    }
    i
}

/// The bounds of `cs[lo..hi]` without its leading and trailing white space.
pub fn trim_range(cs: &[char], lo: usize, hi: usize) -> (res: (usize, usize))
    requires
        lo <= hi <= cs@.len(),
    ensures
        lo <= res.0 <= res.1 <= hi,
        cs@.subrange(res.0 as int, res.1 as int) == trim(cs@.subrange(lo as int, hi as int)),
{
    let mut a = lo;
    while a < hi && char_is_whitespace(cs[a])
        invariant
            lo <= a <= hi <= cs@.len(),
            trim_start(cs@.subrange(lo as int, hi as int)) == trim_start(
                cs@.subrange(a as int, hi as int),
            ),
        decreases hi - a,
    {
        assert(cs@.subrange(a as int, hi as int).drop_first() =~= cs@.subrange(a + 1, hi as int));
        a = a + 1;
    }
    let mut b = hi;
    while b > a && char_is_whitespace(cs[b - 1])
        invariant
            lo <= a <= b <= hi <= cs@.len(),
            trim_end(cs@.subrange(a as int, hi as int)) == trim_end(
                cs@.subrange(a as int, b as int),
            ),
        decreases b - a,
    {
        assert(cs@.subrange(a as int, b as int).drop_last() =~= cs@.subrange(a as int, b - 1));
        b = b - 1;
    }
    (a, b)
}

/// The value of the digit `c`, for a decimal or hex digit.
fn digit_value(c: char) -> (res: u32)
    requires
        is_hex_digit(c),
    ensures
        res == hex_digit_value(c),
        res < 16,
{
    let u = c as u32;
    if '0' <= c && c <= '9' {
        u - '0' as u32
    } else if 'a' <= c && c <= 'f' {
        u - 'a' as u32 + 10
    } else {
        u - 'A' as u32 + 10
    }
}

fn char_is_dec_digit(c: char) -> (res: bool)
    ensures
        res == is_dec_digit(c),
{
    '0' <= c && c <= '9'
}

fn char_is_hex_digit(c: char) -> (res: bool)
    ensures
        res == is_hex_digit(c),
{
    ('0' <= c && c <= '9') || ('a' <= c && c <= 'f') || ('A' <= c && c <= 'F')
}

/// Reads `cs[lo..hi]` as a decimal octet.
pub fn parse_dec_octet(cs: &[char], lo: usize, hi: usize) -> (res: Option<u8>)
    requires
        lo <= hi <= cs@.len(),
    ensures
        res == dec_octet(cs@.subrange(lo as int, hi as int)),
{
    let ghost s = cs@.subrange(lo as int, hi as int);
    if hi - lo < 1 || hi - lo > 3 {
        return None;
    }
    let mut value: u32 = 0;
    let mut i = lo;
    while i < hi
        invariant
            lo <= i <= hi <= cs@.len(),
            hi - lo <= 3,
            s == cs@.subrange(lo as int, hi as int),
            all_dec(cs@.subrange(lo as int, i as int)),
            value == dec_value(cs@.subrange(lo as int, i as int)),
            value < 1000,
            i - lo <= 1 ==> value < 10,
            i - lo <= 2 ==> value < 100,
        decreases hi - i,
    {
        if !char_is_dec_digit(cs[i]) {
            assert(!all_dec(s)) by {
                assert(s[i - lo] == cs@[i as int]);
            }
            return None;
        }
        assert(cs@.subrange(lo as int, i + 1).drop_last() =~= cs@.subrange(lo as int, i as int));
        value = value * 10 + digit_value(cs[i]);
        i = i + 1;
    }
    assert(cs@.subrange(lo as int, i as int) =~= s);
    if hi - lo > 1 && cs[lo] == '0' {
        return None;
    }
    if value > 255 {
        return None;
    }
    Some(value as u8)
}

/// Reads `cs[lo..hi]` as an IPv6 group of hex digits.
pub fn parse_hex_group(cs: &[char], lo: usize, hi: usize) -> (res: Option<u16>)
    requires
        lo <= hi <= cs@.len(),
    ensures
        res == hex_group(cs@.subrange(lo as int, hi as int)),
{
    let ghost s = cs@.subrange(lo as int, hi as int);
    if hi - lo < 1 || hi - lo > 4 {
        return None;
    }
    let mut value: u32 = 0;
    let mut i = lo;
    while i < hi
        invariant
            lo <= i <= hi <= cs@.len(),
            hi - lo <= 4,
            s == cs@.subrange(lo as int, hi as int),
            all_hex(cs@.subrange(lo as int, i as int)),
            value == hex_value(cs@.subrange(lo as int, i as int)),
            i - lo <= 0 ==> value < 1,
            i - lo <= 1 ==> value < 0x10,
            i - lo <= 2 ==> value < 0x100,
            i - lo <= 3 ==> value < 0x1000,
            value < 0x1_0000,
        decreases hi - i,
    {
        if !char_is_hex_digit(cs[i]) {
            assert(!all_hex(s)) by {
                assert(s[i - lo] == cs@[i as int]);
            }
            return None;
        }
        assert(cs@.subrange(lo as int, i + 1).drop_last() =~= cs@.subrange(lo as int, i as int));
        value = value * 16 + digit_value(cs[i]);
        i = i + 1;
    }
    assert(cs@.subrange(lo as int, i as int) =~= s);
    Some(value as u16)
}


/// The first piece of `r` split on `sep`, and what follows it.
pub proof fn lemma_split_step(r: Seq<char>, sep: char)
    ensures
        ({
            let i = first_index(r, sep);
            &&& i <= r.len()
            &&& split(r, sep).len() >= 1
            &&& split(r, sep)[0] =~= r.take(i as int)
            &&& i == r.len() ==> split(r, sep) =~= seq![r]
            &&& i < r.len() ==> split(r, sep) =~= seq![r.take(i as int)] + split(
                r.skip(i + 1 as int),
                sep,
            )
        }),
{
    lemma_first_index(r, sep);
    if first_index(r, sep) == r.len() {
        assert(r.take(r.len() as int) =~= r);
    }
}

/// Reads `cs[lo..hi]` as an IPv4 address.
pub fn parse_ipv4(cs: &[char], lo: usize, hi: usize) -> (res: Option<u32>)
    requires
        lo <= hi <= cs@.len(),
    ensures
        res == ipv4_text(cs@.subrange(lo as int, hi as int)),
{
    let ghost t = cs@.subrange(lo as int, hi as int);
    let ghost pieces = split(t, '.');
    let mut octets: Vec<u8> = Vec::new();
    let mut pos = lo;
    let ghost mut done: Seq<Seq<char>> = Seq::empty();
    assert(t =~= cs@.subrange(pos as int, hi as int));
    assert(done + split(t, '.') =~= split(t, '.'));
    loop
        invariant
            lo <= pos <= hi <= cs@.len(),
            t == cs@.subrange(lo as int, hi as int),
            pieces == split(t, '.'),
            done + split(cs@.subrange(pos as int, hi as int), '.') == pieces,
            octets@.len() == done.len() <= 3,
            forall|i: int| 0 <= i < done.len() ==> (#[trigger] dec_octet(done[i])) == Some(
                octets@[i],
            ),
        decreases hi - pos,
    {
        let ghost r = cs@.subrange(pos as int, hi as int);
        let end = find_char(cs, pos, hi, '.');
        proof {
            lemma_split_step(r, '.');
            assert(r.take(end - pos) =~= cs@.subrange(pos as int, end as int));
            assert(pieces[done.len() as int] == split(r, '.')[0]);
        }
        let octet = match parse_dec_octet(cs, pos, end) {
            Some(o) => o,
            None => {
                assert(dec_octet(pieces[done.len() as int]) is None);
                return None;
            },
        };
        octets.push(octet);
        proof {
            done = done.push(cs@.subrange(pos as int, end as int));
        }
        if end == hi {
            assert(pieces =~= done);
            if octets.len() != 4 {
                return None;
            }
            let value = crate::address::IpAddr::v4(octets[0], octets[1], octets[2], octets[3]);
            proof {
                assert(forall|i: int| 0 <= i < 4 ==> dec_octet(#[trigger] pieces[i]) == Some(octets@[i]));
                assert(seq![octets@[0], octets@[1], octets@[2], octets@[3]] =~= seq![
                    dec_octet(pieces[0])->0,
                    dec_octet(pieces[1])->0,
                    dec_octet(pieces[2])->0,
                    dec_octet(pieces[3])->0,
                ]);
            }
            return match value {
                IpAddr::V4(v) => Some(v),
                IpAddr::V6(_) => None,
            };
        }
        if octets.len() == 4 {
            proof {
                lemma_split_step(cs@.subrange(end + 1, hi as int), '.');
                assert(r.skip(end - pos + 1) =~= cs@.subrange(end + 1, hi as int));
                assert(pieces.len() > 4);
            }
            return None;
        }
        proof {
            assert(r.skip(end - pos + 1) =~= cs@.subrange(end + 1, hi as int));
            assert(done + split(cs@.subrange(end + 1, hi as int), '.') =~= pieces);
        }
        pos = end + 1;
    }
}


/// Appends to `out` the 16-bit groups written in `cs[lo..hi]` (see `groups`) and says
/// whether they were well written.
fn parse_groups(cs: &[char], lo: usize, hi: usize, v4_last: bool, out: &mut Vec<u16>) -> (ok:
    bool)
    requires
        lo <= hi <= cs@.len(),
    ensures
        (match groups(cs@.subrange(lo as int, hi as int), v4_last) {
            Some(g) => ok && final(out)@ == old(out)@ + g,
            None => !ok,
        }),
{
    let ghost t = cs@.subrange(lo as int, hi as int);
    let ghost base = out@;
    if lo == hi {
        assert(out@ =~= base + Seq::<u16>::empty());
        return true;
    }
    let ghost pieces = split(t, ':');
    let mut pos = lo;
    let ghost mut done: Seq<Seq<char>> = Seq::empty();
    assert(t =~= cs@.subrange(pos as int, hi as int));
    assert(done + split(t, ':') =~= split(t, ':'));
    assert(out@ =~= base + Seq::new(0, |i: int| hex_group(done[i])->0));
    loop
        invariant
            lo <= pos <= hi <= cs@.len(),
            lo < hi,
            t == cs@.subrange(lo as int, hi as int),
            pieces == split(t, ':'),
            base == old(out)@,
            done + split(cs@.subrange(pos as int, hi as int), ':') == pieces,
            forall|i: int| 0 <= i < done.len() ==> (#[trigger] hex_group(done[i])) is Some,
            out@ == base + Seq::new(done.len(), |i: int| hex_group(done[i])->0),
        decreases hi - pos,
    {
        let ghost r = cs@.subrange(pos as int, hi as int);
        let end = find_char(cs, pos, hi, ':');
        proof {
            lemma_split_step(r, ':');
            assert(r.take(end - pos) =~= cs@.subrange(pos as int, end as int));
            assert(pieces[done.len() as int] == split(r, ':')[0]);
        }
        let ghost head = Seq::new(done.len(), |i: int| hex_group(done[i])->0);
        if end == hi {
            proof {
                assert(pieces =~= done.push(r));
                assert(pieces.drop_last() =~= done);
                assert(pieces.last() == r);
                assert(Seq::new(pieces.drop_last().len(), |i: int| hex_group(pieces.drop_last()[i])->0) =~= head);
            }
            match parse_hex_group(cs, pos, hi) {
                Some(g) => {
                    out.push(g);
                    assert(out@ =~= base + head.push(g));
                    return true;
                },
                None => {},
            }
            if v4_last {
                match parse_ipv4(cs, pos, hi) {
                    Some(v) => {
                        out.push((v / 0x1_0000) as u16);
                        out.push((v % 0x1_0000) as u16);
                        assert(out@ =~= base + (head + seq![(v / 0x1_0000) as u16, (v % 0x1_0000) as u16]));
                        return true;
                    },
                    None => {
                        return false;
                    },
                }
            }
            return false;
        }
        proof {
            assert(r.skip(end - pos + 1) =~= cs@.subrange(end + 1, hi as int));
            lemma_split_step(cs@.subrange(end + 1, hi as int), ':');
            assert(pieces.len() >= done.len() + 2);
            assert(pieces.drop_last()[done.len() as int] == pieces[done.len() as int]);
        }
        let g = match parse_hex_group(cs, pos, end) {
            Some(g) => g,
            None => {
                return false;
            },
        };
        out.push(g);
        proof {
            let piece = cs@.subrange(pos as int, end as int);
            done = done.push(piece);
            assert(Seq::new(done.len(), |i: int| hex_group(done[i])->0) =~= head.push(g));
            assert(done + split(cs@.subrange(end + 1, hi as int), ':') =~= pieces);
        }
        pos = end + 1;
    }
}


/// Where the first `::` of `cs[lo..hi]` starts.
pub fn find_double_colon(cs: &[char], lo: usize, hi: usize) -> (res: Option<usize>)
    requires
        lo <= hi <= cs@.len(),
    ensures
        (match double_colon_from(cs@.subrange(lo as int, hi as int), 0) {
            Some(d) => res == Some((lo + d) as usize) && lo + d + 2 <= hi,
            None => res is None,
        }),
{
    let ghost t = cs@.subrange(lo as int, hi as int);
    let mut i = lo;
    while hi - i > 1
        invariant
            lo <= i <= hi <= cs@.len(),
            t == cs@.subrange(lo as int, hi as int),
            double_colon_from(t, 0) == double_colon_from(t, i - lo),
        decreases hi - i,
    {
        if cs[i] == ':' && cs[i + 1] == ':' {
            assert(t[i - lo] == cs@[i as int] && t[i - lo + 1] == cs@[i + 1]);
            return Some(i);
        }
        assert(t[i - lo] == cs@[i as int] && t[i - lo + 1] == cs@[i + 1]);
        proof {
            if double_colon_from(t, 0) is Some {
                lemma_double_colon_from(t, i - lo);
            }
        }
        i = i + 1;
    }
    None
}

proof fn lemma_double_colon_from(s: Seq<char>, i: int)
    requires
        double_colon_from(s, i) is Some,
    ensures
        0 <= i <= double_colon_from(s, i)->0,
        double_colon_from(s, i)->0 + 2 <= s.len(),
    decreases s.len() - i,
{
    if !(s[i] == ':' && s[i + 1] == ':') {
        lemma_double_colon_from(s, i + 1);
    }
}

/// `head`, then zeros, then `tail`: eight groups in all.
fn fill_zeros(head: Vec<u16>, tail: &Vec<u16>) -> (res: Vec<u16>)
    requires
        head@.len() + tail@.len() <= 7,
    ensures
        res@ == head@ + Seq::new((8 - head@.len() - tail@.len()) as nat, |i: int| 0u16) + tail@,
{
    let ghost h = head@;
    let mut segments = head;
    let zeros = 8 - segments.len() - tail.len();
    let mut k: usize = 0;
    while k < zeros
        invariant
            k <= zeros,
            zeros == 8 - h.len() - tail@.len(),
            segments@ =~= h + Seq::new(k as nat, |i: int| 0u16),
        decreases zeros - k,
    {
        segments.push(0);
        k = k + 1;
    }
    let mut j: usize = 0;
    while j < tail.len()
        invariant
            j <= tail@.len(),
            zeros == 8 - h.len() - tail@.len(),
            segments@ =~= h + Seq::new(zeros as nat, |i: int| 0u16) + tail@.take(j as int),
        decreases tail@.len() - j,
    {
        segments.push(tail[j]);
        j = j + 1;
    }
    assert(tail@.take(tail@.len() as int) =~= tail@);
    segments
}

/// The IPv6 address whose eight groups are `segments`.
fn segments_value(segments: &Vec<u16>) -> (res: u128)
    requires
        segments@.len() == 8,
    ensures
        res == ipv6_value(segments@) as u128,
{
    let value = IpAddr::v6(
        segments[0],
        segments[1],
        segments[2],
        segments[3],
        segments[4],
        segments[5],
        segments[6],
        segments[7],
    );
    assert(seq![
        segments@[0],
        segments@[1],
        segments@[2],
        segments@[3],
        segments@[4],
        segments@[5],
        segments@[6],
        segments@[7],
    ] =~= segments@);
    match value {
        IpAddr::V6(v) => v,
        IpAddr::V4(_) => 0,
    }
}

/// Reads `cs[lo..hi]` as an IPv6 address.
pub fn parse_ipv6(cs: &[char], lo: usize, hi: usize) -> (res: Option<u128>)
    requires
        lo <= hi <= cs@.len(),
    ensures
        res == ipv6_text(cs@.subrange(lo as int, hi as int)),
{
    let ghost t = cs@.subrange(lo as int, hi as int);
    match find_double_colon(cs, lo, hi) {
        None => {
            let mut segments: Vec<u16> = Vec::new();
            if !parse_groups(cs, lo, hi, true, &mut segments) {
                return None;
            }
            assert(segments@ =~= groups(t, true)->0);
            if segments.len() != 8 {
                return None;
            }
            Some(segments_value(&segments))
        },
        Some(d) => {
            proof {
                lemma_double_colon_from(t, 0);
                let dd = double_colon_from(t, 0)->0;
                assert(t.take(dd) =~= cs@.subrange(lo as int, d as int));
                assert(t.skip(dd + 2) =~= cs@.subrange(d + 2, hi as int));
            }
            let mut head: Vec<u16> = Vec::new();
            if !parse_groups(cs, lo, d, false, &mut head) {
                return None;
            }
            let mut tail: Vec<u16> = Vec::new();
            if !parse_groups(cs, d + 2, hi, true, &mut tail) {
                return None;
            }
            assert(head@ =~= groups(cs@.subrange(lo as int, d as int), false)->0);
            assert(tail@ =~= groups(cs@.subrange(d + 2, hi as int), true)->0);
            if head.len() > 7 || tail.len() > 7 - head.len() {
                return None;
            }
            let segments = fill_zeros(head, &tail);
            Some(segments_value(&segments))
        },
    }
}

/// Reads `cs[lo..hi]` as an IPv4 or IPv6 address.
pub fn parse_ip(cs: &[char], lo: usize, hi: usize) -> (res: Option<IpAddr>)
    requires
        lo <= hi <= cs@.len(),
    ensures
        res == ip_text(cs@.subrange(lo as int, hi as int)),
{
    match parse_ipv4(cs, lo, hi) {
        Some(v) => Some(IpAddr::V4(v)),
        None => match parse_ipv6(cs, lo, hi) {
            Some(v) => Some(IpAddr::V6(v)),
            None => None,
        },
    }
}

/// Reads `cs[lo..hi]` as a `u8`.
pub fn parse_u8(cs: &[char], lo: usize, hi: usize) -> (res: Option<u8>)
    requires
        lo <= hi <= cs@.len(),
    ensures
        res == u8_text(cs@.subrange(lo as int, hi as int)),
{
    let ghost t = cs@.subrange(lo as int, hi as int);
    let start = if lo < hi && cs[lo] == '+' {
        lo + 1
    } else {
        lo
    };
    let ghost digits = cs@.subrange(start as int, hi as int);
    assert(digits =~= (if t.len() > 0 && t[0] == '+' {
        t.drop_first()
    } else {
        t
    }));
    if start == hi {
        return None;
    }
    let mut value: u32 = 0;
    let mut i = start;
    while i < hi
        invariant
            lo <= start <= i <= hi <= cs@.len(),
            t == cs@.subrange(lo as int, hi as int),
            digits == cs@.subrange(start as int, hi as int),
            digits == (if t.len() > 0 && t[0] == '+' {
                t.drop_first()
            } else {
                t
            }),
            all_dec(cs@.subrange(start as int, i as int)),
            dec_value(cs@.subrange(start as int, i as int)) <= 255 ==> value == dec_value(
                cs@.subrange(start as int, i as int),
            ),
            dec_value(cs@.subrange(start as int, i as int)) > 255 ==> value == 256,
            value <= 256,
        decreases hi - i,
    {
        if !char_is_dec_digit(cs[i]) {
            assert(!all_dec(digits)) by {
                assert(digits[i - start] == cs@[i as int]);
            }
            return None;
        }
        assert(cs@.subrange(start as int, i + 1).drop_last() =~= cs@.subrange(start as int, i as int));
        let d = digit_value(cs[i]);
        if value > 255 {
            value = 256;
        } else {
            value = value * 10 + d;
            if value > 255 {
                value = 256;
            }
        }
        i = i + 1;
    }
    assert(cs@.subrange(start as int, i as int) =~= digits);
    if value > 255 {
        return None;
    }
    Some(value as u8)
}


/// Reads the IPv4 or IPv6 address written in `text`, which must hold nothing else.
pub fn parse_ip_address(text: &str) -> (res: Option<IpAddr>)
    ensures
        res == ip_text(text@),
{
    let cs = chars_of(text);
    assert(cs@.subrange(0, cs@.len() as int) =~= text@);
    parse_ip(cs.as_slice(), 0, cs.len())
}


/// The characters `cs[lo..hi]`, in a vector of their own.
pub fn copy_range(cs: &[char], lo: usize, hi: usize) -> (res: Vec<char>)
    requires
        lo <= hi <= cs@.len(),
    ensures
        res@ == cs@.subrange(lo as int, hi as int),
{
    let mut res: Vec<char> = Vec::new();
    let mut i = lo;
    while i < hi
        invariant
            lo <= i <= hi <= cs@.len(),
            res@ == cs@.subrange(lo as int, i as int),
        decreases hi - i,
    {
        res.push(cs[i]);
        assert(res@ =~= cs@.subrange(lo as int, i + 1));
        i = i + 1;
    }
    res
}

} // verus!
