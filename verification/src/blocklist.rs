//! The set of blocked addresses.
use vstd::prelude::*;
use std::collections::HashSet;
use crate::address::IpAddr;
use crate::networks::{ignored, prefixed};
use crate::text::{
    chars_of,
    copy_range,
    find_char,
    ip_text,
    lemma_split_append,
    lemma_split_step,
    lemma_split_without_sep,
    parse_ip,
    split,
    trim,
    trim_range,
};

verus! {

broadcast use vstd::std_specs::hash::group_hash_axioms;

/// The addresses named by a set of IPv4 and a set of IPv6 values.
pub open spec fn address_set(v4: Set<u32>, v6: Set<u128>) -> Set<IpAddr> {
    Set::new(
        |a: IpAddr|
            match a {
                IpAddr::V4(x) => v4.contains(x),
                IpAddr::V6(x) => v6.contains(x),
            },
    )
}

/// A set of blocked IPv4 and IPv6 addresses.
#[derive(Debug)]
pub struct Blocklist {
    v4: HashSet<u32>,
    v6: HashSet<u128>,
    count: usize,
}

impl View for Blocklist {
    type V = Set<IpAddr>;

    closed spec fn view(&self) -> Set<IpAddr> {
        address_set(self.v4@, self.v6@)
    }
}

impl Blocklist {
    #[verifier::type_invariant]
    closed spec fn inv(self) -> bool {
        &&& self@.finite()
        &&& self.count == self@.len()
    }

    /// An empty blocklist.
    pub fn new() -> (res: Blocklist)
        ensures
            res@ == Set::<IpAddr>::empty(),
    {
        let v4: HashSet<u32> = HashSet::new();
        let v6: HashSet<u128> = HashSet::new();
        assert(address_set(v4@, v6@) =~= Set::<IpAddr>::empty());
        Blocklist { v4, v6, count: 0 }
    }

    /// Adds `address`; returns whether it was not there before.
    pub fn insert(&mut self, address: IpAddr) -> (added: bool)
        requires
            old(self)@.len() < usize::MAX,
        ensures
            final(self)@ == old(self)@.insert(address),
            added == !old(self)@.contains(address),
    {
        proof {
            use_type_invariant(&*self);
        }
        let ghost before = self@;
        let mut old_list = Blocklist::new();
        std::mem::swap(self, &mut old_list);
        proof {
            use_type_invariant(&old_list);
        }
        let Blocklist { mut v4, mut v6, count } = old_list;
        let added = match address {
            IpAddr::V4(x) => v4.insert(x),
            IpAddr::V6(x) => v6.insert(x),
        };
        let ghost after = address_set(v4@, v6@);
        assert(after =~= before.insert(address));
        let count = if added {
            count + 1
        } else {
            count
        };
        *self = Blocklist { v4, v6, count };
        added
    }

    /// Whether `address` is blocked.
    pub fn contains(&self, address: &IpAddr) -> (res: bool)
        ensures
            res == self@.contains(*address),
    {
        match address {
            IpAddr::V4(x) => self.v4.contains(x),
            IpAddr::V6(x) => self.v6.contains(x),
        }
    }

    /// The number of distinct blocked addresses.
    pub fn len(&self) -> (res: usize)
        ensures
            res == self@.len(),
    {
        proof {
            use_type_invariant(self);
        }
        self.count
    }
}


/// Why the text of a blocklist could not be read.
#[derive(Debug, Clone, PartialEq, Eq)]
pub enum BlocklistError {
    /// Line `line` (counting from 1), which reads `text` without its surrounding white
    /// space, is not an IP address.
    InvalidAddress { line: usize, text: Vec<char> },
}

/// The addresses of `lines`, the first being line `number + 1`, or the number and the
/// trimmed text of the first line that is not an address.
pub open spec fn spec_blocklist_lines(lines: Seq<Seq<char>>, number: nat) -> Result<
    Seq<IpAddr>,
    (usize, Seq<char>),
>
    decreases lines.len(),
{
    if lines.len() == 0 {
        Ok(Seq::empty())
    } else {
        let line = trim(lines[0]);
        let rest = spec_blocklist_lines(lines.drop_first(), number + 1);
        if ignored(line) {
            rest
        } else {
            match ip_text(line) {
                None => Err(((number + 1) as usize, line)),
                Some(address) => prefixed(seq![address], rest),
            }
        }
    }
}

impl Blocklist {
    /// Reads a blocklist: one IPv4 or IPv6 address per line. White space around a line
    /// is ignored, and so are blank lines and lines starting with `#`.
    pub fn load(content: &str) -> (res: Result<Blocklist, BlocklistError>)
        ensures
            (match spec_blocklist_lines(split(content@, '\n'), 0) {
                Ok(addresses) => res is Ok && res->Ok_0@ == addresses.to_set(),
                Err((line, text)) => res matches Err(BlocklistError::InvalidAddress { line: l, text: t })
                    && l == line && t@ == text,
            }),
    {
        let chars = chars_of(content);
        let cs = chars.as_slice();
        let n = cs.len();
        let ghost all = split(cs@, '\n');
        let mut list = Blocklist::new();
        let ghost mut found: Seq<IpAddr> = Seq::empty();
        let mut pos: usize = 0;
        let mut number: usize = 0;
        assert(cs@.subrange(0, n as int) =~= cs@);
        assert(prefixed(found, spec_blocklist_lines(all, 0)) == spec_blocklist_lines(all, 0)) by {
            match spec_blocklist_lines(all, 0) {
                Ok(r) => {
                    assert(found + r =~= r);
                },
                Err(_) => {},
            }
        }
        assert(list@ =~= found.to_set());
        loop
            invariant
                pos <= n == cs@.len(),
                cs@ == content@,
                all == split(cs@, '\n'),
                number <= pos,
                list@.len() <= number,
                list@ == found.to_set(),
                spec_blocklist_lines(all, 0) == prefixed(
                    found,
                    spec_blocklist_lines(split(cs@.subrange(pos as int, n as int), '\n'), number as nat),
                ),
            decreases n - pos,
        {
            let ghost r = cs@.subrange(pos as int, n as int);
            let ghost before = found;
            let end = find_char(cs, pos, n, '\n');
            proof {
                lemma_split_step(r, '\n');
                assert(r.take(end - pos) =~= cs@.subrange(pos as int, end as int));
                if end < n {
                    assert(r.skip(end - pos + 1) =~= cs@.subrange(end + 1, n as int));
                    assert(split(r, '\n').drop_first() =~= split(cs@.subrange(end + 1, n as int), '\n'));
                } else {
                    assert(split(r, '\n').drop_first() =~= Seq::<Seq<char>>::empty());
                }
            }
            let (a, b) = trim_range(cs, pos, end);
            assert(split(r, '\n')[0] == cs@.subrange(pos as int, end as int));
            assert(trim(split(r, '\n')[0]) == cs@.subrange(a as int, b as int));
            assert(a < b ==> cs@.subrange(a as int, b as int)[0] == cs@[a as int]);
            if !(a == b || cs[a] == '#') {
                match parse_ip(cs, a, b) {
                    Some(address) => {
                        list.insert(address);
                        proof {
                            let prev = found;
                            found = found.push(address);
                            assert forall|x: IpAddr| #[trigger] found.contains(x) == list@.contains(x) by {
                                if found.contains(x) {
                                    let i = choose|i: int| 0 <= i < found.len() && found[i] == x;
                                    if i < prev.len() {
                                        assert(prev[i] == x);
                                    }
                                }
                                if prev.contains(x) {
                                    let i = choose|i: int| 0 <= i < prev.len() && prev[i] == x;
                                    assert(found[i] == x);
                                }
                                if x == address {
                                    assert(found[prev.len() as int] == x);
                                }
                            }
                            assert(list@ =~= found.to_set());
                        }
                    },
                    None => {
                        let text = copy_range(cs, a, b);
                        return Err(BlocklistError::InvalidAddress { line: number + 1, text });
                    },
                }
            }
            let ghost rest = if end < n {
                split(cs@.subrange(end + 1, n as int), '\n')
            } else {
                Seq::<Seq<char>>::empty()
            };
            proof {
                let added = found.subrange(before.len() as int, found.len() as int);
                assert(found =~= before + added);
                let line = cs@.subrange(a as int, b as int);
                assert(spec_blocklist_lines(split(r, '\n'), number as nat) == (if ignored(line) {
                    spec_blocklist_lines(rest, (number + 1) as nat)
                } else {
                    match ip_text(line) {
                        None => Err(((number + 1) as usize, line)),
                        Some(address) => prefixed(seq![address], spec_blocklist_lines(rest, (number + 1) as nat)),
                    }
                }));
                if ignored(line) {
                    assert(added =~= Seq::<IpAddr>::empty());
                } else {
                    assert(added =~= seq![ip_text(line)->0]);
                }
                match spec_blocklist_lines(rest, (number + 1) as nat) {
                    Ok(x) => {
                        assert(before + (added + x) =~= (before + added) + x);
                    },
                    Err(_) => {},
                }
            }
            if end == n {
                assert(spec_blocklist_lines(rest, (number + 1) as nat) == Ok::<
                    Seq<IpAddr>,
                    (usize, Seq<char>),
                >(Seq::empty()));
                assert(found + Seq::<IpAddr>::empty() =~= found);
                return Ok(list);
            }
            pos = end + 1;
            number = number + 1;
        }
    }
}

/// Whether line `i` of `lines`, once trimmed, is blank, a comment or an IP address.
pub open spec fn line_readable(lines: Seq<Seq<char>>, i: int) -> bool {
    !ignored(trim(lines[i])) ==> ip_text(trim(lines[i])) is Some
}

/// Whether line `i` of `lines`, once trimmed, is the address `a`.
pub open spec fn line_names(lines: Seq<Seq<char>>, i: int, a: IpAddr) -> bool {
    !ignored(trim(lines[i])) && ip_text(trim(lines[i])) == Some(a)
}

proof fn lemma_blocklist_lines_ok(lines: Seq<Seq<char>>, number: nat)
    ensures
        spec_blocklist_lines(lines, number) is Ok <==> forall|i: int|
            0 <= i < lines.len() ==> #[trigger] line_readable(lines, i),
    decreases lines.len(),
{
    if lines.len() > 0 {
        let tail = lines.drop_first();
        lemma_blocklist_lines_ok(tail, number + 1);
        if forall|i: int| 0 <= i < lines.len() ==> #[trigger] line_readable(lines, i) {
            assert forall|i: int| 0 <= i < tail.len() implies #[trigger] line_readable(tail, i) by {
                assert(line_readable(lines, i + 1));
                assert(tail[i] == lines[i + 1]);
            }
            assert(line_readable(lines, 0));
            assert(spec_blocklist_lines(tail, number + 1) is Ok);
        }
        if spec_blocklist_lines(lines, number) is Ok {
            assert(spec_blocklist_lines(tail, number + 1) is Ok);
            assert forall|i: int| 0 <= i < lines.len() implies #[trigger] line_readable(lines, i) by {
                if i > 0 {
                    assert(line_readable(tail, i - 1));
                    assert(tail[i - 1] == lines[i]);
                }
            }
        }
    }
}

proof fn lemma_blocklist_lines_addresses(lines: Seq<Seq<char>>, number: nat, a: IpAddr)
    requires
        spec_blocklist_lines(lines, number) is Ok,
    ensures
        spec_blocklist_lines(lines, number)->Ok_0.contains(a) <==> exists|i: int|
            0 <= i < lines.len() && #[trigger] line_names(lines, i, a),
    decreases lines.len(),
{
    if lines.len() > 0 {
        let tail = lines.drop_first();
        let line = trim(lines[0]);
        let all = spec_blocklist_lines(lines, number)->Ok_0;
        let rest = spec_blocklist_lines(tail, number + 1)->Ok_0;
        assert(spec_blocklist_lines(tail, number + 1) is Ok);
        lemma_blocklist_lines_addresses(tail, number + 1, a);
        let front: Seq<IpAddr> = if ignored(line) {
            Seq::empty()
        } else {
            seq![ip_text(line)->0]
        };
        assert(all == front + rest);
        if all.contains(a) {
            let k = choose|k: int| 0 <= k < all.len() && all[k] == a;
            if k < front.len() {
                assert(line_names(lines, 0, a));
            } else {
                assert(rest[k - front.len()] == a);
                let i = choose|i: int| 0 <= i < tail.len() && #[trigger] line_names(tail, i, a);
                assert(tail[i] == lines[i + 1]);
                assert(line_names(lines, i + 1, a));
            }
        }
        if exists|i: int| 0 <= i < lines.len() && #[trigger] line_names(lines, i, a) {
            let i = choose|i: int| 0 <= i < lines.len() && #[trigger] line_names(lines, i, a);
            if i == 0 {
                assert(all[0] == a);
            } else {
                assert(tail[i - 1] == lines[i]);
                assert(line_names(tail, i - 1, a));
                let k = choose|k: int| 0 <= k < rest.len() && rest[k] == a;
                assert(all[k + front.len()] == a);
            }
        }
    }
}

proof fn lemma_blocklist_lines_error(lines: Seq<Seq<char>>, number: nat)
    requires
        spec_blocklist_lines(lines, number) is Err,
    ensures
        exists|i: int|
            0 <= i < lines.len() && !#[trigger] line_readable(lines, i) && spec_blocklist_lines(
                lines,
                number,
            )->Err_0 == ((number + i + 1) as usize, trim(lines[i])) && forall|j: int|
                0 <= j < i ==> line_readable(lines, j),
    decreases lines.len(),
{
    let tail = lines.drop_first();
    let line = trim(lines[0]);
    if !ignored(line) && ip_text(line) is None {
        assert(!line_readable(lines, 0));
    } else {
        assert(spec_blocklist_lines(lines, number) == spec_blocklist_lines(tail, number + 1)) by {
            if !ignored(line) {
                assert(spec_blocklist_lines(tail, number + 1) is Err);
            }
        }
        lemma_blocklist_lines_error(tail, number + 1);
        let i = choose|i: int|
            0 <= i < tail.len() && !#[trigger] line_readable(tail, i) && spec_blocklist_lines(
                tail,
                number + 1,
            )->Err_0 == ((number + 1 + i + 1) as usize, trim(tail[i])) && forall|j: int|
                0 <= j < i ==> line_readable(tail, j);
        assert(tail[i] == lines[i + 1]);
        assert(!line_readable(lines, i + 1));
        assert forall|j: int| 0 <= j < i + 1 implies line_readable(lines, j) by {
            if j > 0 {
                assert(line_readable(tail, j - 1));
                assert(tail[j - 1] == lines[j]);
            }
        }
    }
}

/// What the lines of a blocklist are read as. They are read when every line, the last
/// one included, is blank, a comment or an IP address once trimmed, and then the
/// addresses read are exactly those that these lines name. Otherwise the first line
/// that is none of these is reported, by its number and its trimmed text.
pub proof fn lemma_blocklist_lines_meaning(lines: Seq<Seq<char>>, number: nat)
    ensures
        spec_blocklist_lines(lines, number) is Ok <==> forall|i: int|
            0 <= i < lines.len() ==> #[trigger] line_readable(lines, i),
        spec_blocklist_lines(lines, number) is Ok ==> forall|a: IpAddr|
            #[trigger] spec_blocklist_lines(lines, number)->Ok_0.contains(a) <==> exists|i: int|
                0 <= i < lines.len() && #[trigger] line_names(lines, i, a),
        spec_blocklist_lines(lines, number) is Err ==> exists|i: int|
            0 <= i < lines.len() && !#[trigger] line_readable(lines, i) && spec_blocklist_lines(
                lines,
                number,
            )->Err_0 == ((number + i + 1) as usize, trim(lines[i])) && forall|j: int|
                0 <= j < i ==> line_readable(lines, j),
{
    lemma_blocklist_lines_ok(lines, number);
    if spec_blocklist_lines(lines, number) is Ok {
        assert forall|a: IpAddr|
            #[trigger] spec_blocklist_lines(lines, number)->Ok_0.contains(a) <==> exists|i: int|
                0 <= i < lines.len() && #[trigger] line_names(lines, i, a) by {
            lemma_blocklist_lines_addresses(lines, number, a);
        }
    } else {
        lemma_blocklist_lines_error(lines, number);
    }
}

/// The last line of a blocklist is read whether or not a newline ends the text: when the
/// text after the last newline names an address and the blocklist is read, that address
/// is in it.
pub proof fn lemma_blocklist_reads_last_line(s: Seq<char>, t: Seq<char>, a: IpAddr)
    requires
        !t.contains('\n'),
        !ignored(trim(t)),
        ip_text(trim(t)) == Some(a),
        spec_blocklist_lines(split(s + seq!['\n'] + t, '\n'), 0) is Ok,
    ensures
        spec_blocklist_lines(split(s + seq!['\n'] + t, '\n'), 0)->Ok_0.contains(a),
{
    let lines = split(s + seq!['\n'] + t, '\n');
    lemma_split_append(s, '\n', t);
    assert(lines[lines.len() - 1] == t);
    assert(line_names(lines, lines.len() - 1, a));
    lemma_blocklist_lines_meaning(lines, 0);
}

/// A blocklist of one line with no newline after it is that line's address, or the
/// report that line 1 is not an address.
pub proof fn lemma_blocklist_single_line(t: Seq<char>)
    requires
        !t.contains('\n'),
        !ignored(trim(t)),
    ensures
        spec_blocklist_lines(split(t, '\n'), 0) == (match ip_text(trim(t)) {
            Some(a) => Ok(seq![a]),
            None => Err((1usize, trim(t))),
        }),
{
    lemma_split_without_sep(t, '\n');
    let lines = split(t, '\n');
    assert(lines.drop_first() =~= Seq::<Seq<char>>::empty());
    assert(lines[0] == t);
    assert(spec_blocklist_lines(lines.drop_first(), 1) == Ok::<Seq<IpAddr>, (usize, Seq<char>)>(Seq::empty()));
    if ip_text(trim(t)) is Some {
        assert(seq![ip_text(trim(t))->0] + Seq::<IpAddr>::empty() =~= seq![ip_text(trim(t))->0]);
    }
}

} // verus!
