//! Per-type counters, and the mapping from type to counters that a run builds.

use vstd::prelude::*;
use crate::message::message_type;
use vstd::string::StringSliceAdditionalSpecFns;
use vstd::wrapping::u64_specs;
use vstd::utf8::encode_utf8;
use std::collections::HashMap;

verus! {

/// The counters of the records of one type.
#[derive(Clone, Copy, Debug, PartialEq, Eq, Structural)]
pub struct GroupStats {
    /// How many records had this type.
    pub occurences: i32,
    /// The sum of the raw byte lengths of those records.
    pub total_byte_size: usize,
}

impl GroupStats {
    /// The two counters as mathematical integers.
    pub open spec fn counters(self) -> (int, int) {
        (self.occurences as int, self.total_byte_size as int)
    }

    /// The counters of a single record of `byte_size` raw bytes.
    pub fn single(byte_size: usize) -> (r: GroupStats)
        ensures
            r.counters() == (1int, byte_size as int),
    {
        GroupStats { occurences: 1, total_byte_size: byte_size }
    }

    /// The counters of a single record whose raw text is `line`.
    pub fn of_line(line: &[u8]) -> (r: GroupStats)
        ensures
            r.counters() == (1int, line@.len() as int),
    {
        GroupStats::single(line.len())
    }

    /// Adds the counters of `other` to these.
    pub fn add_assign(&mut self, other: GroupStats)
        requires
            i32::MIN <= old(self).occurences + other.occurences <= i32::MAX,
            old(self).total_byte_size + other.total_byte_size <= usize::MAX,
        ensures
            final(self).occurences == old(self).occurences + other.occurences,
            final(self).total_byte_size == old(self).total_byte_size + other.total_byte_size,
    {
        self.occurences = self.occurences + other.occurences;
        self.total_byte_size = self.total_byte_size + other.total_byte_size;
    }
}

/// The counters of a single record whose raw text is `message`.
impl<'a> From<&'a str> for GroupStats {
    fn from(message: &'a str) -> (r: GroupStats) {
        GroupStats::single(message.len())
    }
}

impl<'a> vstd::std_specs::convert::FromSpecImpl<&'a str> for GroupStats {
    open spec fn obeys_from_spec() -> bool {
        true
    }

    open spec fn from_spec(message: &'a str) -> GroupStats {
        GroupStats { occurences: 1, total_byte_size: message.spec_bytes().len() as usize }
    }
}

impl Default for GroupStats {
    fn default() -> (r: GroupStats)
        ensures
            r.occurences == 0,
            r.total_byte_size == 0,
    {
        GroupStats { occurences: 0, total_byte_size: 0 }
    }
}

/// One for a line of type `t`, zero for any other line.
pub open spec fn count_step(line: Seq<u8>, t: Seq<char>) -> nat {
    if message_type(line) == Some(t) {
        1
    } else {
        0
    }
}

/// The length of a line of type `t`, zero for any other line.
pub open spec fn bytes_step(line: Seq<u8>, t: Seq<char>) -> nat {
    if message_type(line) == Some(t) {
        line.len()
    } else {
        0
    }
}

/// The number of lines whose type is `t`.
pub open spec fn type_count(lines: Seq<Seq<u8>>, t: Seq<char>) -> nat
    decreases lines.len(),
{
    if lines.len() == 0 {
        0
    } else {
        type_count(lines.drop_last(), t) + count_step(lines.last(), t)
    }
}

/// The sum of the byte lengths of the lines whose type is `t`.
pub open spec fn type_bytes(lines: Seq<Seq<u8>>, t: Seq<char>) -> nat
    decreases lines.len(),
{
    if lines.len() == 0 {
        0
    } else {
        type_bytes(lines.drop_last(), t) + bytes_step(lines.last(), t)
    }
}

/// The sum of the byte lengths of all lines.
pub open spec fn total_bytes(lines: Seq<Seq<u8>>) -> nat
    decreases lines.len(),
{
    if lines.len() == 0 {
        0
    } else {
        total_bytes(lines.drop_last()) + lines.last().len()
    }
}

/// Every line is a record with a text `type`.
pub open spec fn all_records(lines: Seq<Seq<u8>>) -> bool {
    forall|k: int| 0 <= k < lines.len() ==> (#[trigger] message_type(lines[k])) is Some
}

/// What a run over `lines` must give: each type that occurs, with the number
/// of its lines and the sum of their byte lengths.
pub open spec fn tally(lines: Seq<Seq<u8>>) -> Map<Seq<char>, (int, int)> {
    Map::new(
        |t: Seq<char>| type_count(lines, t) > 0,
        |t: Seq<char>| (type_count(lines, t) as int, type_bytes(lines, t) as int),
    )
}

/// No two entries share a type.
pub open spec fn keys_unique(g: Seq<(String, GroupStats)>) -> bool {
    forall|i: int, j: int| 0 <= i < j < g.len() ==> g[i].0@ != g[j].0@
}

/// The entries as a mapping from type to counters.
pub open spec fn groups_view(g: Seq<(String, GroupStats)>) -> Map<Seq<char>, (int, int)>
    decreases g.len(),
{
    if g.len() == 0 {
        Map::empty()
    } else {
        groups_view(g.drop_last()).insert(g.last().0@, g.last().1.counters())
    }
}

/// `m` after one more line of type `t` and byte length `len`.
pub open spec fn bumped(m: Map<Seq<char>, (int, int)>, t: Seq<char>, len: int) -> Map<
    Seq<char>,
    (int, int),
> {
    if m.contains_key(t) {
        m.insert(t, (m[t].0 + 1, m[t].1 + len))
    } else {
        m.insert(t, (1, len))
    }
}

/// With unique keys, each entry is what the view holds for its type, and the
/// view holds nothing else.
pub proof fn lemma_view_entries(g: Seq<(String, GroupStats)>)
    requires
        keys_unique(g),
    ensures
        forall|i: int|
            0 <= i < g.len() ==> #[trigger] groups_view(g).contains_key(g[i].0@)
                && groups_view(g)[g[i].0@] == g[i].1.counters(),
        forall|t: Seq<char>|
            #[trigger] groups_view(g).contains_key(t) ==> exists|i: int|
                0 <= i < g.len() && g[i].0@ == t,
    decreases g.len(),
{
    if g.len() > 0 {
        let h = g.drop_last();
        lemma_view_entries(h);
        assert forall|t: Seq<char>| #[trigger] groups_view(g).contains_key(t) implies exists|i: int|
            0 <= i < g.len() && g[i].0@ == t by {
            if t != g.last().0@ {
                assert(groups_view(h).contains_key(t));
                let i = choose|i: int| 0 <= i < h.len() && h[i].0@ == t;
                assert(g[i] == h[i]);
            }
        }
        assert forall|i: int| 0 <= i < g.len() implies #[trigger] groups_view(g).contains_key(g[i].0@)
            && groups_view(g)[g[i].0@] == g[i].1.counters() by {
            if i < g.len() - 1 {
                assert(g[i] == h[i]);
                assert(g[i].0@ != g.last().0@);
                assert(groups_view(h).contains_key(h[i].0@));
            }
        }
    }
}

/// Replacing the counters of entry `i` replaces them in the view.
pub proof fn lemma_view_set(g: Seq<(String, GroupStats)>, i: int, e: (String, GroupStats))
    requires
        keys_unique(g),
        0 <= i < g.len(),
        e.0@ == g[i].0@,
    ensures
        keys_unique(g.update(i, e)),
        groups_view(g.update(i, e)) == groups_view(g).insert(e.0@, e.1.counters()),
    decreases g.len(),
{
    let u = g.update(i, e);
    if i == g.len() - 1 {
        assert(u.drop_last() =~= g.drop_last());
    } else {
        lemma_view_set(g.drop_last(), i, e);
        assert(u.drop_last() =~= g.drop_last().update(i, e));
        lemma_view_entries(g.drop_last());
        assert(g.drop_last()[i] == g[i]);
        assert(groups_view(u) =~= groups_view(g).insert(e.0@, e.1.counters()));
    }
}

/// Appending an entry of a new type adds it to the view.
pub proof fn lemma_view_push(g: Seq<(String, GroupStats)>, e: (String, GroupStats))
    requires
        keys_unique(g),
        forall|j: int| 0 <= j < g.len() ==> g[j].0@ != e.0@,
    ensures
        keys_unique(g.push(e)),
        groups_view(g.push(e)) == groups_view(g).insert(e.0@, e.1.counters()),
{
    assert(g.push(e).drop_last() =~= g);
}

/// One more record of type `t` bumps the tally at `t` alone.
pub proof fn lemma_tally_push(lines: Seq<Seq<u8>>, line: Seq<u8>, t: Seq<char>)
    requires
        message_type(line) == Some(t),
    ensures
        tally(lines.push(line)) == bumped(tally(lines), t, line.len() as int),
{
    let p = lines.push(line);
    assert(p.drop_last() =~= lines);
    assert forall|u: Seq<char>| true implies type_count(p, u) == type_count(lines, u) + count_step(
        line,
        u,
    ) && type_bytes(p, u) == type_bytes(lines, u) + bytes_step(line, u) by {}
    let m = tally(lines);
    let n = tally(p);
    let b = bumped(m, t, line.len() as int);
    assert forall|u: Seq<char>| n.contains_key(u) <==> b.contains_key(u) by {
        if u != t {
            assert(count_step(line, u) == 0);
        }
    }
    assert forall|u: Seq<char>| #[trigger] n.contains_key(u) implies n[u] == b[u] by {
        lemma_type_bounds(lines, u);
        if u != t {
            assert(count_step(line, u) == 0);
            assert(bytes_step(line, u) == 0);
        }
    }
    assert(tally(lines.push(line)) =~= bumped(tally(lines), t, line.len() as int));
}

/// No type has more lines than there are lines, nor more bytes than all lines.
pub proof fn lemma_type_bounds(lines: Seq<Seq<u8>>, t: Seq<char>)
    ensures
        type_count(lines, t) <= lines.len(),
        type_bytes(lines, t) <= total_bytes(lines),
        type_count(lines, t) == 0 ==> type_bytes(lines, t) == 0,
    decreases lines.len(),
{
    if lines.len() > 0 {
        lemma_type_bounds(lines.drop_last(), t);
    }
}

/// The multiplier of the type hash.
pub const HASH_PRIME: u64 = 1099511628211;

/// The hash of no bytes.
pub const HASH_SEED: u64 = 14695981039346656037;

/// A hash of a byte string, with wrapping arithmetic: each byte multiplies
/// in the hash so far and adds itself.
pub open spec fn byte_hash(b: Seq<u8>) -> u64
    decreases b.len(),
{
    if b.len() == 0 {
        HASH_SEED
    } else {
        u64_specs::wrapping_add(
            u64_specs::wrapping_mul(byte_hash(b.drop_last()), HASH_PRIME),
            b.last() as u64,
        )
    }
}

/// The hash of a type, taken over its UTF-8 bytes.
pub open spec fn type_hash(t: Seq<char>) -> u64 {
    byte_hash(encode_utf8(t))
}

/// Computes the hash of a type.
fn hash_type(t: &String) -> (r: u64)
    ensures
        r == type_hash(t@),
{
    let b = t.as_str().as_bytes();
    let mut h: u64 = HASH_SEED;
    let mut i: usize = 0;
    while i < b.len()
        invariant
            b@ == encode_utf8(t@),
            i <= b@.len(),
            h == byte_hash(b@.subrange(0, i as int)),
        decreases b@.len() - i,
    {
        assert(b@.subrange(0, i + 1).drop_last() =~= b@.subrange(0, i as int));
        h = h.wrapping_mul(HASH_PRIME).wrapping_add(b[i] as u64);
        i = i + 1;
    }
    assert(b@.subrange(0, i as int) =~= b@);
    h
}

/// Position `i` is listed in `b`.
pub open spec fn lists(b: Seq<usize>, i: int) -> bool {
    exists|m: int| 0 <= m < b.len() && b[m] as int == i
}

/// The entries of a run so far, each type once, with an index from the hash
/// of each type to the positions of the entries that have that hash.
pub struct Groups {
    entries: Vec<(String, GroupStats)>,
    buckets: HashMap<u64, Vec<usize>>,
}

impl Groups {
    /// The entries, in the order their types were first seen.
    pub closed spec fn entries_seq(&self) -> Seq<(String, GroupStats)> {
        self.entries@
    }

    /// Entry `i` is listed under the hash of its type.
    pub closed spec fn indexed(&self, i: int) -> bool {
        let h = type_hash(self.entries@[i].0@);
        self.buckets@.contains_key(h) && lists(self.buckets@[h]@, i)
    }

    /// Types are unique, every entry is indexed, and the index lists only
    /// positions of entries.
    pub closed spec fn wf(&self) -> bool {
        &&& keys_unique(self.entries@)
        &&& forall|i: int| 0 <= i < self.entries@.len() ==> #[trigger] self.indexed(i)
        &&& forall|h: u64, k: int|
            #![trigger self.buckets@[h]@[k]]
            self.buckets@.contains_key(h) && 0 <= k < self.buckets@[h]@.len()
                ==> self.buckets@[h]@[k] < self.entries@.len()
    }

    /// No entries yet.
    pub fn new() -> (r: Groups)
        ensures
            r.wf(),
            r.entries_seq().len() == 0,
    {
        Groups { entries: Vec::new(), buckets: HashMap::new() }
    }

    /// Hands out the entries.
    pub fn into_entries(self) -> (r: Vec<(String, GroupStats)>)
        requires
            self.wf(),
        ensures
            r@ == self.entries_seq(),
            keys_unique(r@),
    {
        self.entries
    }

    /// The positions listed under hash `h`.
    fn bucket(&self, h: u64) -> (r: Option<&Vec<usize>>)
        ensures
            r matches Some(v) ==> self.buckets@.contains_key(h) && *v == self.buckets@[h],
            r is None ==> !self.buckets@.contains_key(h),
    {
        broadcast use vstd::std_specs::hash::group_hash_axioms;

        self.buckets.get(&h)
    }

    /// The position of the entry of type `t`, looked up through the index.
    fn find(&self, t: &String, h: u64) -> (r: Option<usize>)
        requires
            self.buckets@.contains_key(h) ==> forall|k: int|
                0 <= k < self.buckets@[h]@.len() ==> self.buckets@[h]@[k] < self.entries@.len(),
            forall|i: int|
                0 <= i < self.entries@.len() && #[trigger] self.entries@[i].0@ == t@
                    ==> self.buckets@.contains_key(h) && lists(self.buckets@[h]@, i),
        ensures
            r matches Some(i) ==> i < self.entries@.len() && self.entries@[i as int].0@ == t@,
            r is None ==> forall|i: int| 0 <= i < self.entries@.len() ==> self.entries@[i].0@ != t@,
    {
        match self.bucket(h) {
            Some(v) => {
                let mut k: usize = 0;
                while k < v.len()
                    invariant
                        self.buckets@.contains_key(h),
                        *v == self.buckets@[h],
                        forall|m: int| 0 <= m < v@.len() ==> v@[m] < self.entries@.len(),
                        forall|i: int|
                            0 <= i < self.entries@.len() && self.entries@[i].0@ == t@ ==> lists(v@, i),
                        k <= v@.len(),
                        forall|m: int| 0 <= m < k ==> self.entries@[v@[m] as int].0@ != t@,
                    decreases v@.len() - k,
                {
                    let i = v[k];
                    if self.entries[i].0 == *t {
                        return Some(i);
                    }
                    k = k + 1;
                }
                assert forall|i: int| 0 <= i < self.entries@.len() implies self.entries@[i].0@
                    != t@ by {
                    if self.entries@[i].0@ == t@ {
                        assert(lists(v@, i));
                        let m = choose|m: int| 0 <= m < v@.len() && v@[m] as int == i;
                        assert(self.entries@[v@[m] as int].0@ != t@);
                    }
                }
                None
            },
            None => {
                assert forall|i: int| 0 <= i < self.entries@.len() implies self.entries@[i].0@
                    != t@ by {
                    if self.entries@[i].0@ == t@ {
                        assert(self.buckets@.contains_key(h));
                    }
                }
                None
            },
        }
    }

    /// Appends an entry of a type that has none yet, and lists it under `h`.
    fn push_new(&mut self, type_: String, one: GroupStats, h: u64)
        requires
            old(self).wf(),
            h == type_hash(type_@),
            forall|i: int| 0 <= i < old(self).entries@.len() ==> old(self).entries@[i].0@ != type_@,
        ensures
            final(self).wf(),
            final(self).entries@ == old(self).entries@.push((type_, one)),
    {
        broadcast use vstd::std_specs::hash::group_hash_axioms;

        let ghost old_self = *self;
        let n = self.entries.len();
        self.entries.push((type_, one));
        let mut v = match self.buckets.remove(&h) {
            Some(v) => v,
            None => Vec::new(),
        };
        assert forall|k: int| 0 <= k < v@.len() implies v@[k] < n by {
            assert(old_self.buckets@[h]@[k] < n);
        }
        v.push(n);
        self.buckets.insert(h, v);
        assert forall|j: int| 0 <= j < self.entries@.len() implies #[trigger] self.indexed(j) by {
            if j < n {
                assert(old_self.indexed(j));
                if type_hash(self.entries@[j].0@) == h {
                    assert(lists(v@, j)) by {
                        let m = choose|m: int|
                            0 <= m < old_self.buckets@[h]@.len() && old_self.buckets@[h]@[m]
                                as int == j;
                        assert(v@[m] as int == j);
                    }
                }
            } else {
                assert(v@[v@.len() - 1] == n);
            }
        }
        assert forall|g: u64, k: int|
            #![trigger self.buckets@[g]@[k]]
            self.buckets@.contains_key(g) && 0 <= k < self.buckets@[g]@.len()
                implies self.buckets@[g]@[k] < self.entries@.len() by {
            if g != h {
                assert(old_self.buckets@[g]@[k] < n);
            }
        }
    }

    /// What `find` needs of the index, from the invariant.
    proof fn lemma_lookup_facts(&self, t: &String, h: u64)
        requires
            self.wf(),
            h == type_hash(t@),
        ensures
            self.buckets@.contains_key(h) ==> forall|k: int|
                0 <= k < self.buckets@[h]@.len() ==> self.buckets@[h]@[k] < self.entries@.len(),
            forall|i: int|
                0 <= i < self.entries@.len() && #[trigger] self.entries@[i].0@ == t@
                    ==> self.buckets@.contains_key(h) && lists(self.buckets@[h]@, i),
    {
        if self.buckets@.contains_key(h) {
            assert forall|k: int| 0 <= k < self.buckets@[h]@.len() implies self.buckets@[h]@[k]
                < self.entries@.len() by {
                assert(self.buckets@[h]@[k] < self.entries@.len());
            }
        }
        assert forall|i: int| 0 <= i < self.entries@.len() && #[trigger] self.entries@[i].0@ == t@
            implies self.buckets@.contains_key(h) && lists(self.buckets@[h]@, i) by {
            assert(self.indexed(i));
        }
    }

    /// Replaces entry `i` by one of the same type.
    fn set_entry(&mut self, i: usize, type_: String, s: GroupStats)
        requires
            old(self).wf(),
            i < old(self).entries@.len(),
            type_@ == old(self).entries@[i as int].0@,
            keys_unique(old(self).entries@.update(i as int, (type_, s))),
        ensures
            final(self).wf(),
            final(self).entries@ == old(self).entries@.update(i as int, (type_, s)),
    {
        let ghost old_self = *self;
        self.entries.set(i, (type_, s));
        assert forall|j: int| 0 <= j < self.entries@.len() implies #[trigger] self.indexed(j) by {
            assert(old_self.indexed(j));
        }
    }

    /// Adds one record of type `type_` and raw byte length `line_len`: its
    /// entry is bumped, or created with one occurrence.
    pub fn add_message(&mut self, type_: String, line_len: usize)
        requires
            old(self).wf(),
            groups_view(old(self).entries_seq()).contains_key(type_@) ==> {
                &&& groups_view(old(self).entries_seq())[type_@].0 < i32::MAX
                &&& groups_view(old(self).entries_seq())[type_@].1 + line_len <= usize::MAX
                &&& groups_view(old(self).entries_seq())[type_@].0 >= 0
            },
        ensures
            final(self).wf(),
            groups_view(final(self).entries_seq()) == bumped(
                groups_view(old(self).entries_seq()),
                type_@,
                line_len as int,
            ),
    {
        proof {
            lemma_view_entries(self.entries@);
        }
        let one = GroupStats::single(line_len);
        let h = hash_type(&type_);
        proof {
            self.lemma_lookup_facts(&type_, h);
        }
        match self.find(&type_, h) {
            Some(i) => {
                let mut s = self.entries[i].1;
                assert(groups_view(self.entries@).contains_key(self.entries@[i as int].0@));
                s.add_assign(one);
                proof {
                    lemma_view_set(self.entries@, i as int, (type_, s));
                }
                self.set_entry(i, type_, s);
            },
            None => {
                proof {
                    lemma_view_push(self.entries@, (type_, one));
                }
                self.push_new(type_, one, h);
            },
        }
    }
}

} // verus!

verus! {

/// Taking line `j` out of `lines` takes its share out of the counters of
/// every type.
pub proof fn lemma_type_remove(lines: Seq<Seq<u8>>, j: int, t: Seq<char>)
    requires
        0 <= j < lines.len(),
    ensures
        type_count(lines, t) == type_count(lines.remove(j), t) + count_step(lines[j], t),
        type_bytes(lines, t) == type_bytes(lines.remove(j), t) + bytes_step(lines[j], t),
    decreases lines.len(),
{
    let r = lines.remove(j);
    if j == lines.len() - 1 {
        assert(r =~= lines.drop_last());
    } else {
        lemma_type_remove(lines.drop_last(), j, t);
        assert(r.drop_last() =~= lines.drop_last().remove(j));
        assert(r.last() == lines.last());
    }
}

/// The order of the lines does not matter: two texts whose lines are the
/// same multiset have the same records and the same tally.
pub proof fn lemma_order_independent(a: Seq<Seq<u8>>, b: Seq<Seq<u8>>)
    requires
        a.to_multiset() == b.to_multiset(),
    ensures
        all_records(a) == all_records(b),
        tally(a) == tally(b),
    decreases a.len(),
{
    broadcast use vstd::seq_lib::group_to_multiset_ensures;

    if a.len() == 0 {
        assert(a.to_multiset().len() == 0);
        assert(b.to_multiset().len() == b.len());
        assert(a =~= b);
    } else {
        let x = a.last();
        let a0 = a.drop_last();
        assert(a0.push(x) =~= a);
        assert(a.to_multiset().count(x) > 0);
        assert(b.contains(x));
        let j = choose|j: int| 0 <= j < b.len() && b[j] == x;
        let b0 = b.remove(j);
        assert(b0.to_multiset() =~= a0.to_multiset());
        assert(b0.to_multiset().len() == b0.len());
        assert(a0.to_multiset().len() == a0.len());
        lemma_order_independent(a0, b0);
        assert forall|t: Seq<char>| true implies type_count(a, t) == type_count(b, t)
            && type_bytes(a, t) == type_bytes(b, t) by {
            lemma_type_remove(b, j, t);
            lemma_type_bounds(a0, t);
            lemma_type_bounds(b0, t);
            assert(tally(a0).contains_key(t) == tally(b0).contains_key(t));
            if tally(a0).contains_key(t) {
                assert(tally(a0)[t] == tally(b0)[t]);
            }
            assert(type_count(a0, t) == type_count(b0, t));
            assert(type_bytes(a0, t) == type_bytes(b0, t));
            assert(type_count(a, t) == type_count(a0, t) + count_step(x, t));
            assert(type_bytes(a, t) == type_bytes(a0, t) + bytes_step(x, t));
        }
        assert(tally(a) =~= tally(b));
        assert(all_records(a) == all_records(b)) by {
            if all_records(a) {
                assert forall|k: int| 0 <= k < a0.len() implies (#[trigger] message_type(a0[k])) is Some by {
                    assert(a0[k] == a[k]);
                }
                assert forall|k: int| 0 <= k < b.len() implies (#[trigger] message_type(b[k])) is Some by {
                    if k < j {
                        assert(b[k] == b0[k]);
                    } else if k > j {
                        assert(b[k] == b0[k - 1]);
                    }
                }
            }
            if all_records(b) {
                assert forall|k: int| 0 <= k < b0.len() implies (#[trigger] message_type(b0[k])) is Some by {
                    if k < j {
                        assert(b0[k] == b[k]);
                    } else {
                        assert(b0[k] == b[k + 1]);
                    }
                }
                assert forall|k: int| 0 <= k < a.len() implies (#[trigger] message_type(a[k])) is Some by {
                    if k < a.len() - 1 {
                        assert(a[k] == a0[k]);
                    }
                }
            }
        }
    }
}

} // verus!
