//! An ordered map from names, which are byte strings, to inode addresses, kept as a
//! list of entries in increasing byte order of their names.

use vstd::prelude::*;
use vstd::bytes::*;
use crate::codec::{copy_range, get_u32, get_u64, put_bytes, put_u32, put_u64, spec_get_u32, spec_get_u64};

verus! {

/// Whether `a` comes before `b` in byte order: at the first byte where they differ
/// `a` has the smaller byte, or `a` is a proper prefix of `b`.
pub open spec fn lex_less(a: Seq<u8>, b: Seq<u8>) -> bool
    decreases a.len(),
{
    if b.len() == 0 {
        false
    } else if a.len() == 0 {
        true
    } else if a[0] != b[0] {
        a[0] < b[0]
    } else {
        lex_less(a.drop_first(), b.drop_first())
    }
}

/// Byte order does not depend on a common prefix.
pub proof fn lemma_lex_skip(a: Seq<u8>, b: Seq<u8>, common: int)
    requires
        0 <= common <= a.len(),
        common <= b.len(),
        forall|k: int| 0 <= k < common ==> a[k] == b[k],
    ensures
        lex_less(a, b) == lex_less(a.skip(common), b.skip(common)),
        (a == b) == (a.skip(common) == b.skip(common)),
    decreases common,
{
    if common == 0 {
        assert(a.skip(0) =~= a);
        assert(b.skip(0) =~= b);
    } else {
        lemma_lex_skip(a.drop_first(), b.drop_first(), common - 1);
        assert(a.drop_first().skip(common - 1) =~= a.skip(common));
        assert(b.drop_first().skip(common - 1) =~= b.skip(common));
        if a.skip(common) == b.skip(common) {
            assert(a.len() == b.len());
            assert forall|k: int| 0 <= k < a.len() implies a[k] == b[k] by {
                if k >= common {
                    assert(a.skip(common)[k - common] == b.skip(common)[k - common]);
                }
            }
            assert(a =~= b);
        }
    }
}

/// Of two byte strings, one comes before the other or they are the same, and only one
/// of the three holds.
pub proof fn lemma_lex_trichotomy(a: Seq<u8>, b: Seq<u8>)
    ensures
        lex_less(a, b) || a == b || lex_less(b, a),
        !(lex_less(a, b) && lex_less(b, a)),
        !(lex_less(a, b) && a == b),
    decreases a.len(),
{
    if a.len() == 0 || b.len() == 0 {
        if a.len() == 0 && b.len() == 0 {
            assert(a =~= b);
        }
    } else if a[0] == b[0] {
        lemma_lex_trichotomy(a.drop_first(), b.drop_first());
        if a.drop_first() == b.drop_first() {
            assert(a =~= seq![a[0]] + a.drop_first());
            assert(b =~= seq![b[0]] + b.drop_first());
        }
    }
}

/// Byte order is transitive.
pub proof fn lemma_lex_transitive(a: Seq<u8>, b: Seq<u8>, c: Seq<u8>)
    requires
        lex_less(a, b),
        lex_less(b, c),
    ensures
        lex_less(a, c),
    decreases a.len(),
{
    if a.len() > 0 && b.len() > 0 && c.len() > 0 {
        if a[0] == b[0] && b[0] == c[0] {
            lemma_lex_transitive(a.drop_first(), b.drop_first(), c.drop_first());
        }
    }
}

/// Compares two byte strings in byte order: negative where `a` comes first, zero
/// where they are the same, positive where `b` comes first.
pub fn compare_bytes(a: &[u8], b: &[u8]) -> (order: i8)
    ensures
        order < 0 <==> lex_less(a@, b@),
        order == 0 <==> a@ == b@,
        order > 0 <==> lex_less(b@, a@),
{
    let mut i: usize = 0;
    while i < a.len() && i < b.len()
        invariant
            i <= a@.len(),
            i <= b@.len(),
            forall|k: int| 0 <= k < i ==> a@[k] == b@[k],
        decreases a@.len() - i,
    {
        if a[i] != b[i] {
            proof {
                lemma_lex_skip(a@, b@, i as int);
                lemma_lex_skip(b@, a@, i as int);
                lemma_lex_trichotomy(a@, b@);
                assert(a@.skip(i as int)[0] == a@[i as int]);
                assert(b@.skip(i as int)[0] == b@[i as int]);
            }
            return if a[i] < b[i] { -1 } else { 1 };
        }
        i += 1;
    }
    proof {
        lemma_lex_skip(a@, b@, i as int);
        lemma_lex_skip(b@, a@, i as int);
        lemma_lex_trichotomy(a@, b@);
        if a@.len() == b@.len() {
            assert(a@ =~= b@);
        }
    }
    if a.len() < b.len() {
        -1
    } else if a.len() == b.len() {
        0
    } else {
        1
    }
}

/// One entry of a name map.
#[derive(Debug)]
pub struct Entry {
    /// The name, as bytes.
    pub name: Vec<u8>,
    /// The address of the inode that the name stands for.
    pub inode: u32,
}

impl View for Entry {
    type V = (Seq<u8>, u32);

    open spec fn view(&self) -> (Seq<u8>, u32) {
        (self.name@, self.inode)
    }
}

/// Whether the names of `entries` strictly increase in byte order.
pub open spec fn is_sorted(entries: Seq<(Seq<u8>, u32)>) -> bool {
    forall|i: int, j: int| 0 <= i < j < entries.len() ==> lex_less(entries[i].0, entries[j].0)
}

/// Whether some entry has the name `name`.
pub open spec fn has_name(entries: Seq<(Seq<u8>, u32)>, name: Seq<u8>) -> bool {
    exists|i: int| 0 <= i < entries.len() && entries[i].0 == name
}

/// The position of an entry with the name `name`.
pub open spec fn position_of(entries: Seq<(Seq<u8>, u32)>, name: Seq<u8>) -> int {
    choose|i: int| 0 <= i < entries.len() && entries[i].0 == name
}

/// The map that `entries` stand for.
#[verifier::opaque]
pub open spec fn as_map(entries: Seq<(Seq<u8>, u32)>) -> Map<Seq<u8>, u32> {
    Map::new(
        |name: Seq<u8>| has_name(entries, name),
        |name: Seq<u8>| entries[position_of(entries, name)].1,
    )
}

/// No entries stand for the empty map.
pub proof fn lemma_empty_map()
    ensures
        as_map(Seq::<(Seq<u8>, u32)>::empty()) == Map::<Seq<u8>, u32>::empty(),
{
    reveal(as_map);
    assert(as_map(Seq::<(Seq<u8>, u32)>::empty()) =~= Map::<Seq<u8>, u32>::empty());
}

/// Whether the map has a name is whether some entry has it.
pub proof fn lemma_map_has_name(entries: Seq<(Seq<u8>, u32)>, name: Seq<u8>)
    ensures
        as_map(entries).contains_key(name) == has_name(entries, name),
{
    reveal(as_map);
}

/// In a sorted list each name occurs once, so the map holds the address of each entry
/// under its name.
pub proof fn lemma_entry_in_map(entries: Seq<(Seq<u8>, u32)>, i: int)
    requires
        is_sorted(entries),
        0 <= i < entries.len(),
    ensures
        as_map(entries).contains_key(entries[i].0),
        as_map(entries)[entries[i].0] == entries[i].1,
        position_of(entries, entries[i].0) == i,
{
    reveal(as_map);
    let name = entries[i].0;
    let p = position_of(entries, name);
    assert(has_name(entries, name));
    if p < i {
        lemma_lex_trichotomy(entries[p].0, entries[i].0);
    } else if i < p {
        lemma_lex_trichotomy(entries[i].0, entries[p].0);
    }
}

/// The serialised form of one entry: for a tagged entry the 32-bit tag 0; then the
/// 64-bit length of the name, the name, and the 32-bit address.
pub open spec fn spec_entry_bytes(entry: (Seq<u8>, u32), tagged: bool) -> Seq<u8> {
    (if tagged { spec_u32_to_le_bytes(0) } else { Seq::<u8>::empty() }) + spec_u64_to_le_bytes(
        entry.0.len() as u64,
    ) + entry.0 + spec_u32_to_le_bytes(entry.1)
}

/// Number of bytes of a serialised entry with a name of `name_len` bytes.
pub open spec fn spec_entry_len(name_len: int, tagged: bool) -> int {
    (if tagged { 4int } else { 0int }) + 8 + name_len + 4
}

/// The serialised form of a list of entries: the entries one after the other.
pub open spec fn spec_entries_bytes(entries: Seq<(Seq<u8>, u32)>, tagged: bool) -> Seq<u8>
    decreases entries.len(),
{
    if entries.len() == 0 {
        Seq::<u8>::empty()
    } else {
        spec_entry_bytes(entries[0], tagged) + spec_entries_bytes(entries.drop_first(), tagged)
    }
}

/// The entry that `bytes` hold at byte `at`, with the position after it, if they hold
/// a whole entry there.
pub open spec fn spec_parse_entry(bytes: Seq<u8>, at: int, tagged: bool) -> Option<
    ((Seq<u8>, u32), int),
> {
    let start = if tagged { at + 4 } else { at };
    if at < 0 || (tagged && spec_get_u32(bytes, at) != Some(0u32)) {
        None
    } else {
        match spec_get_u64(bytes, start) {
            None => None,
            Some(len) => if start + 8 + len + 4 <= bytes.len() {
                Some(
                    (
                        (
                            bytes.subrange(start + 8, start + 8 + len),
                            spec_get_u32(bytes, start + 8 + len).unwrap(),
                        ),
                        start + 8 + len + 4,
                    ),
                )
            } else {
                None
            },
        }
    }
}

/// The `count` entries that `bytes` hold from byte `at` on, with the position after
/// them, if they hold that many.
pub open spec fn spec_parse_entries(bytes: Seq<u8>, at: int, count: nat, tagged: bool) -> Option<
    (Seq<(Seq<u8>, u32)>, int),
>
    decreases count,
{
    if count == 0 {
        Some((Seq::empty(), at))
    } else {
        match spec_parse_entry(bytes, at, tagged) {
            None => None,
            Some((entry, next)) => match spec_parse_entries(bytes, next, (count - 1) as nat, tagged) {
                None => None,
                Some((rest, end)) => Some((seq![entry] + rest, end)),
            },
        }
    }
}

/// An ordered map from names to inode addresses.
#[derive(Debug)]
pub struct NameMap {
    /// The entries, in increasing byte order of their names.
    pub entries: Vec<Entry>,
}

impl View for NameMap {
    type V = Map<Seq<u8>, u32>;

    open spec fn view(&self) -> Map<Seq<u8>, u32> {
        as_map(self.spec_entries())
    }
}

impl NameMap {
    /// The entries as mathematical values, in order.
    pub open spec fn spec_entries(&self) -> Seq<(Seq<u8>, u32)> {
        Seq::new(self.entries@.len(), |i: int| self.entries@[i]@)
    }

    /// Whether the entries are in strictly increasing byte order of their names.
    pub open spec fn wf(&self) -> bool {
        is_sorted(self.spec_entries())
    }

    /// The number of entries and the length of each name fit the 64-bit fields that
    /// hold them in the serialised form.
    pub proof fn lemma_lengths(&self)
        ensures
            self.spec_entries().len() <= usize::MAX,
            forall|i: int|
                0 <= i < self.spec_entries().len() ==> (#[trigger] self.spec_entries()[i]).0.len()
                    <= usize::MAX,
    {
        assert(self.entries.len() == self.entries@.len());
        assert forall|i: int| 0 <= i < self.spec_entries().len()
            implies (#[trigger] self.spec_entries()[i]).0.len()
            <= usize::MAX by {
            assert(self.entries@[i].name.len() == self.entries@[i].name@.len());
        }
    }

    /// A map without entries.
    pub fn new() -> (map: Self)
        ensures
            map.wf(),
            map.spec_entries() == Seq::<(Seq<u8>, u32)>::empty(),
            map@ == Map::<Seq<u8>, u32>::empty(),
    {
        let map = NameMap { entries: Vec::new() };
        assert(map.spec_entries() =~= Seq::<(Seq<u8>, u32)>::empty());
        proof {
            lemma_empty_map();
        }
        map
    }

    /// Number of entries.
    pub fn len(&self) -> (len: usize)
        ensures
            len == self.spec_entries().len(),
    {
        self.entries.len()
    }

    /// The position of the first entry whose name does not come before `name`, and
    /// whether that entry has the name `name`.
    fn locate(&self, name: &[u8]) -> (found: (usize, bool))
        requires
            self.wf(),
        ensures
            found.0 <= self.spec_entries().len(),
            forall|i: int| 0 <= i < found.0 ==> lex_less(self.spec_entries()[i].0, name@),
            forall|i: int|
                found.0 <= i < self.spec_entries().len() ==> !lex_less(
                    self.spec_entries()[i].0,
                    name@,
                ),
            found.1 ==> found.0 < self.spec_entries().len() && self.spec_entries()[found.0 as int].0
                == name@,
            !found.1 ==> forall|i: int|
                found.0 <= i < self.spec_entries().len() ==> lex_less(
                    name@,
                    self.spec_entries()[i].0,
                ),
            found.1 == has_name(self.spec_entries(), name@),
    {
        let ghost entries = self.spec_entries();
        let mut i: usize = 0;
        while i < self.entries.len()
            invariant
                i <= self.entries@.len(),
                entries == self.spec_entries(),
                is_sorted(entries),
                forall|k: int| 0 <= k < i ==> lex_less(entries[k].0, name@),
            decreases self.entries@.len() - i,
        {
            let order = compare_bytes(self.entries[i].name.as_slice(), name);
            if order >= 0 {
                proof {
                    assert(entries[i as int].0 == self.entries@[i as int].name@);
                    assert forall|k: int| i <= k < entries.len() implies !lex_less(
                        entries[k].0,
                        name@,
                    ) && (order > 0 ==> lex_less(name@, entries[k].0)) by {
                        lemma_lex_trichotomy(entries[i as int].0, name@);
                        if k > i {
                            lemma_lex_trichotomy(entries[k].0, name@);
                            if order > 0 {
                                lemma_lex_transitive(name@, entries[i as int].0, entries[k].0);
                            } else {
                                assert(lex_less(name@, entries[k].0));
                            }
                        }
                    }
                    assert forall|k: int| 0 <= k < i implies entries[k].0 != name@ by {
                        lemma_lex_trichotomy(entries[k].0, name@);
                    }
                    if order > 0 {
                        assert forall|k: int| i <= k < entries.len() implies entries[k].0
                            != name@ by {
                            lemma_lex_trichotomy(name@, entries[k].0);
                        }
                    }
                }
                return (i, order == 0);
            }
            assert(entries[i as int].0 == self.entries@[i as int].name@);
            i += 1;
        }
        proof {
            assert forall|k: int| 0 <= k < entries.len() implies entries[k].0 != name@ by {
                lemma_lex_trichotomy(entries[k].0, name@);
            }
        }
        (i, false)
    }

    /// The address stored under `name`, if there is one.
    pub fn get(&self, name: &[u8]) -> (value: Option<u32>)
        requires
            self.wf(),
        ensures
            value == (if self@.contains_key(name@) { Some(self@[name@]) } else { None::<u32> }),
    {
        let (position, present) = self.locate(name);
        proof {
            lemma_map_has_name(self.spec_entries(), name@);
        }
        if present {
            proof {
                lemma_entry_in_map(self.spec_entries(), position as int);
            }
            Some(self.entries[position].inode)
        } else {
            None
        }
    }

    /// Stores `inode` under `name` if the name is free, and says whether it did.
    pub fn insert(&mut self, name: &[u8], inode: u32) -> (inserted: bool)
        requires
            old(self).wf(),
        ensures
            final(self).wf(),
            inserted == !old(self)@.contains_key(name@),
            inserted ==> final(self)@ == old(self)@.insert(name@, inode),
            inserted ==> final(self).spec_entries().len() == old(self).spec_entries().len() + 1,
            inserted ==> forall|tagged: bool|
                #[trigger] spec_entries_bytes(final(self).spec_entries(), tagged).len()
                    == spec_entries_bytes(old(self).spec_entries(), tagged).len() + spec_entry_len(
                    name@.len() as int,
                    tagged,
                ),
            !inserted ==> final(self).spec_entries() == old(self).spec_entries(),
    {
        let (position, present) = self.locate(name);
        proof {
            lemma_map_has_name(self.spec_entries(), name@);
        }
        if present {
            return false;
        }
        let ghost before = self.spec_entries();
        let entry = Entry { name: copy_range(name, 0, name.len()), inode };
        assert(name@.subrange(0, name@.len() as int) =~= name@);
        self.entries.insert(position, entry);
        proof {
            let after = self.spec_entries();
            assert(after =~= before.insert(position as int, (name@, inode)));
            lemma_sorted_insert(before, position as int, (name@, inode));
            assert forall|tagged: bool|
                #[trigger] spec_entries_bytes(after, tagged).len() == spec_entries_bytes(
                    before,
                    tagged,
                ).len() + spec_entry_len(name@.len() as int, tagged) by {
                lemma_entries_len_insert(before, position as int, (name@, inode), tagged);
            }
        }
        true
    }

    /// Removes the entry stored under `name` and returns its address, if there is one.
    pub fn remove(&mut self, name: &[u8]) -> (removed: Option<u32>)
        requires
            old(self).wf(),
        ensures
            final(self).wf(),
            removed == (if old(self)@.contains_key(name@) {
                Some(old(self)@[name@])
            } else {
                None::<u32>
            }),
            final(self)@ == old(self)@.remove(name@),
            removed is Some ==> final(self).spec_entries().len() + 1 == old(self).spec_entries().len(),
            removed is Some ==> forall|tagged: bool|
                #[trigger] spec_entries_bytes(old(self).spec_entries(), tagged).len()
                    == spec_entries_bytes(final(self).spec_entries(), tagged).len() + spec_entry_len(
                    name@.len() as int,
                    tagged,
                ),
            removed is None ==> final(self).spec_entries() == old(self).spec_entries(),
    {
        let (position, present) = self.locate(name);
        proof {
            lemma_map_has_name(self.spec_entries(), name@);
        }
        if !present {
            assert(self@.remove(name@) =~= self@);
            return None;
        }
        let ghost before = self.spec_entries();
        let entry = self.entries.remove(position);
        proof {
            let after = self.spec_entries();
            assert(after =~= before.remove(position as int));
            lemma_entry_in_map(before, position as int);
            lemma_sorted_remove(before, position as int);
            assert forall|tagged: bool|
                #[trigger] spec_entries_bytes(before, tagged).len() == spec_entries_bytes(
                    after,
                    tagged,
                ).len() + spec_entry_len(name@.len() as int, tagged) by {
                lemma_entries_len_remove(before, position as int, tagged);
            }
        }
        Some(entry.inode)
    }

    /// Appends the serialised entries to `out`.
    pub fn serialize_into(&self, out: &mut Vec<u8>, tagged: bool)
        ensures
            final(out)@ == old(out)@ + spec_entries_bytes(self.spec_entries(), tagged),
    {
        let ghost entries = self.spec_entries();
        let mut i: usize = 0;
        assert(entries.subrange(0, 0) =~= Seq::<(Seq<u8>, u32)>::empty());
        assert(old(out)@ + Seq::<u8>::empty() =~= old(out)@);
        while i < self.entries.len()
            invariant
                i <= self.entries@.len(),
                entries == self.spec_entries(),
                out@ == old(out)@ + spec_entries_bytes(entries.subrange(0, i as int), tagged),
            decreases self.entries@.len() - i,
        {
            let ghost so_far = out@;
            let entry = &self.entries[i];
            if tagged {
                put_u32(out, 0);
            }
            put_u64(out, entry.name.len() as u64);
            put_bytes(out, entry.name.as_slice());
            put_u32(out, entry.inode);
            proof {
                assert(entries[i as int] == entry@);
                assert(out@ =~= so_far + spec_entry_bytes(entry@, tagged));
                lemma_entries_bytes_push(entries.subrange(0, i as int), entry@, tagged);
                assert(entries.subrange(0, i + 1) =~= entries.subrange(0, i as int).push(entry@));
                assert(out@ =~= old(out)@ + spec_entries_bytes(entries.subrange(0, i + 1), tagged));
            }
            i += 1;
        }
        assert(entries.subrange(0, i as int) =~= entries);
    }

    /// Reads `count` entries from byte `at` of `bytes` on and returns them with the
    /// position after them; `None` exactly when `bytes` do not hold that many entries
    /// there.
    pub fn parse(bytes: &[u8], at: usize, count: u64, tagged: bool) -> (parsed: Option<
        (NameMap, usize),
    >)
        ensures
            match parsed {
                Some((map, end)) => spec_parse_entries(bytes@, at as int, count as nat, tagged)
                    == Some((map.spec_entries(), end as int)),
                None => spec_parse_entries(bytes@, at as int, count as nat, tagged).is_none(),
            },
    {
        let total = bytes.len();
        let mut entries: Vec<Entry> = Vec::new();
        let mut position: usize = at;
        let mut i: u64 = 0;
        let ghost mut acc: Seq<(Seq<u8>, u32)> = Seq::empty();
        assert(Seq::<(Seq<u8>, u32)>::empty() + Seq::<(Seq<u8>, u32)>::empty() =~= Seq::<
            (Seq<u8>, u32),
        >::empty());
        while i < count
            invariant
                i <= count,
                bytes@.len() == total,
                acc == Seq::new(entries@.len(), |k: int| entries@[k]@),
                spec_parse_entries(bytes@, at as int, count as nat, tagged) == (match spec_parse_entries(
                    bytes@,
                    position as int,
                    (count - i) as nat,
                    tagged,
                ) {
                    Some((rest, end)) => Some((acc + rest, end)),
                    None => None,
                }),
            decreases count - i,
        {
            let start: usize = if tagged {
                match get_u32(bytes, position) {
                    Some(tag) => {
                        if tag != 0 {
                            return None;
                        }
                    },
                    None => {
                        return None;
                    },
                }
                position + 4
            } else {
                position
            };
            let length: u64 = match get_u64(bytes, start) {
                Some(length) => length,
                None => {
                    return None;
                },
            };
            let available: usize = bytes.len() - start - 8;
            if available < 4 || length > (available - 4) as u64 {
                return None;
            }
            let name_len: usize = length as usize;
            let name = copy_range(bytes, start + 8, name_len);
            let inode = get_u32(bytes, start + 8 + name_len).unwrap();
            let next: usize = start + 8 + name_len + 4;
            proof {
                let entry = (name@, inode);
                assert(spec_parse_entry(bytes@, position as int, tagged) == Some(
                    (entry, next as int),
                ));
                let tail = spec_parse_entries(bytes@, next as int, (count - i - 1) as nat, tagged);
                match tail {
                    Some((rest, end)) => {
                        assert(acc + (seq![entry] + rest) =~= acc.push(entry) + rest);
                    },
                    None => {},
                }
                acc = acc.push(entry);
            }
            entries.push(Entry { name, inode });
            assert(acc =~= Seq::new(entries@.len(), |k: int| entries@[k]@));
            position = next;
            i += 1;
        }
        let map = NameMap { entries };
        proof {
            assert(map.spec_entries() =~= acc);
            assert(acc + Seq::<(Seq<u8>, u32)>::empty() =~= acc);
        }
        Some((map, position))
    }

    /// Whether the names strictly increase in byte order.
    pub fn check_sorted(&self) -> (sorted: bool)
        ensures
            sorted == self.wf(),
    {
        let ghost entries = self.spec_entries();
        if self.entries.len() < 2 {
            return true;
        }
        let mut i: usize = 1;
        while i < self.entries.len()
            invariant
                1 <= i <= self.entries@.len(),
                entries == self.spec_entries(),
                is_sorted(entries.subrange(0, i as int)),
            decreases self.entries@.len() - i,
        {
            let order = compare_bytes(
                self.entries[i - 1].name.as_slice(),
                self.entries[i].name.as_slice(),
            );
            assert(entries[i - 1].0 == self.entries@[i - 1].name@);
            assert(entries[i as int].0 == self.entries@[i as int].name@);
            if order >= 0 {
                return false;
            }
            proof {
                let shorter = entries.subrange(0, i as int);
                let longer = entries.subrange(0, i + 1);
                assert forall|a: int, b: int| 0 <= a < b < longer.len() implies lex_less(
                    longer[a].0,
                    longer[b].0,
                ) by {
                    if b < i {
                        assert(lex_less(shorter[a].0, shorter[b].0));
                    } else if a < i - 1 {
                        assert(lex_less(shorter[a].0, shorter[i - 1].0));
                        lemma_lex_transitive(entries[a].0, entries[i - 1].0, entries[i as int].0);
                    }
                }
            }
            i += 1;
        }
        assert(entries.subrange(0, i as int) =~= entries);
        true
    }
}

/// Appending an entry to a list appends its bytes to the serialised list.
pub proof fn lemma_entries_bytes_push(
    entries: Seq<(Seq<u8>, u32)>,
    entry: (Seq<u8>, u32),
    tagged: bool,
)
    ensures
        spec_entries_bytes(entries.push(entry), tagged) == spec_entries_bytes(entries, tagged)
            + spec_entry_bytes(entry, tagged),
    decreases entries.len(),
{
    let longer = entries.push(entry);
    if entries.len() == 0 {
        assert(longer.drop_first() =~= Seq::<(Seq<u8>, u32)>::empty());
        assert(longer[0] == entry);
        assert(spec_entries_bytes(longer.drop_first(), tagged) =~= Seq::<u8>::empty());
        assert(spec_entries_bytes(entries, tagged) =~= Seq::<u8>::empty());
        assert(spec_entries_bytes(longer, tagged) =~= spec_entry_bytes(entry, tagged));
        assert(spec_entries_bytes(entries, tagged) + spec_entry_bytes(entry, tagged)
            =~= spec_entry_bytes(entry, tagged));
    } else {
        assert(longer.drop_first() =~= entries.drop_first().push(entry));
        lemma_entries_bytes_push(entries.drop_first(), entry, tagged);
        assert(spec_entries_bytes(longer, tagged) =~= spec_entries_bytes(entries, tagged)
            + spec_entry_bytes(entry, tagged));
    }
}

/// Putting an entry between the names that come before its name and those that come
/// after it keeps the list sorted and adds the entry to the map.
pub proof fn lemma_sorted_insert(entries: Seq<(Seq<u8>, u32)>, position: int, entry: (Seq<u8>, u32))
    requires
        is_sorted(entries),
        0 <= position <= entries.len(),
        forall|i: int| 0 <= i < position ==> lex_less(entries[i].0, entry.0),
        forall|i: int| position <= i < entries.len() ==> lex_less(entry.0, entries[i].0),
    ensures
        is_sorted(entries.insert(position, entry)),
        !as_map(entries).contains_key(entry.0),
        as_map(entries.insert(position, entry)) == as_map(entries).insert(entry.0, entry.1),
{
    reveal(as_map);
    let longer = entries.insert(position, entry);
    assert forall|i: int, j: int| 0 <= i < j < longer.len() implies lex_less(
        longer[i].0,
        longer[j].0,
    ) by {
        let oi = if i < position { i } else { i - 1 };
        let oj = if j < position { j } else { j - 1 };
        if i != position && j != position {
            assert(lex_less(entries[oi].0, entries[oj].0));
        }
    }
    if has_name(entries, entry.0) {
        let p = position_of(entries, entry.0);
        lemma_lex_trichotomy(entries[p].0, entry.0);
    }
    let target = as_map(entries).insert(entry.0, entry.1);
    assert forall|name: Seq<u8>| as_map(longer).contains_key(name) == target.contains_key(
        name,
    ) by {
        if has_name(longer, name) {
            let p = position_of(longer, name);
            if p != position {
                let op = if p < position { p } else { p - 1 };
                assert(entries[op].0 == name);
            }
        }
        if has_name(entries, name) {
            let p = position_of(entries, name);
            let np = if p < position { p } else { p + 1 };
            assert(longer[np].0 == name);
        }
        if name == entry.0 {
            assert(longer[position].0 == name);
        }
    }
    assert forall|name: Seq<u8>| as_map(longer).contains_key(name) implies as_map(longer)[name]
        == target[name] by {
        let p = position_of(longer, name);
        lemma_entry_in_map(longer, p);
        if p != position {
            let op = if p < position { p } else { p - 1 };
            assert(entries[op].0 == name);
            lemma_entry_in_map(entries, op);
            lemma_lex_trichotomy(entries[op].0, entry.0);
        }
    }
    assert(as_map(longer) =~= target);
}

/// Taking an entry out of a sorted list keeps the list sorted and removes its name
/// from the map.
pub proof fn lemma_sorted_remove(entries: Seq<(Seq<u8>, u32)>, position: int)
    requires
        is_sorted(entries),
        0 <= position < entries.len(),
    ensures
        is_sorted(entries.remove(position)),
        as_map(entries.remove(position)) == as_map(entries).remove(entries[position].0),
{
    reveal(as_map);
    let shorter = entries.remove(position);
    let gone = entries[position].0;
    assert forall|i: int, j: int| 0 <= i < j < shorter.len() implies lex_less(
        shorter[i].0,
        shorter[j].0,
    ) by {
        let oi = if i < position { i } else { i + 1 };
        let oj = if j < position { j } else { j + 1 };
        assert(lex_less(entries[oi].0, entries[oj].0));
    }
    let target = as_map(entries).remove(gone);
    assert forall|name: Seq<u8>| as_map(shorter).contains_key(name) == target.contains_key(
        name,
    ) by {
        if has_name(shorter, name) {
            let p = position_of(shorter, name);
            let op = if p < position { p } else { p + 1 };
            assert(entries[op].0 == name);
            if op < position {
                lemma_lex_trichotomy(entries[op].0, entries[position].0);
            } else {
                lemma_lex_trichotomy(entries[position].0, entries[op].0);
            }
        }
        if has_name(entries, name) && name != gone {
            let p = position_of(entries, name);
            let np = if p < position { p } else { p - 1 };
            assert(shorter[np].0 == name);
        }
    }
    assert forall|name: Seq<u8>| as_map(shorter).contains_key(name) implies as_map(shorter)[name]
        == target[name] by {
        let p = position_of(shorter, name);
        lemma_entry_in_map(shorter, p);
        let op = if p < position { p } else { p + 1 };
        assert(entries[op].0 == name);
        assert(shorter[p] == entries[op]);
        lemma_entry_in_map(entries, op);
        if op < position {
            lemma_lex_trichotomy(entries[op].0, entries[position].0);
        } else {
            lemma_lex_trichotomy(entries[position].0, entries[op].0);
        }
    }
    assert(as_map(shorter) =~= target);
}

/// Serialised entries parse back to the entries they were made from, whatever stands
/// before and after them.
pub proof fn lemma_entries_round_trip(
    before: Seq<u8>,
    entries: Seq<(Seq<u8>, u32)>,
    after: Seq<u8>,
    tagged: bool,
)
    requires
        forall|i: int| 0 <= i < entries.len() ==> entries[i].0.len() <= u64::MAX,
    ensures
        spec_parse_entries(
            before + spec_entries_bytes(entries, tagged) + after,
            before.len() as int,
            entries.len(),
            tagged,
        ) == Some((entries, (before.len() + spec_entries_bytes(entries, tagged).len()) as int)),
    decreases entries.len(),
{
    let whole = before + spec_entries_bytes(entries, tagged) + after;
    if entries.len() == 0 {
        assert(spec_entries_bytes(entries, tagged).len() == 0);
        assert(entries =~= Seq::empty());
    } else {
        lemma_auto_spec_u32_to_from_le_bytes();
        lemma_auto_spec_u64_to_from_le_bytes();
        let entry = entries[0];
        let rest = entries.drop_first();
        let first = spec_entry_bytes(entry, tagged);
        let at = before.len() as int;
        let start = if tagged { at + 4 } else { at };
        let len = entry.0.len() as int;
        if tagged {
            assert(whole.subrange(at, at + 4) =~= spec_u32_to_le_bytes(0));
        }
        assert(whole.subrange(start, start + 8) =~= spec_u64_to_le_bytes(entry.0.len() as u64));
        assert(whole.subrange(start + 8, start + 8 + len) =~= entry.0);
        assert(whole.subrange(start + 8 + len, start + 8 + len + 4) =~= spec_u32_to_le_bytes(
            entry.1,
        ));
        let next = start + 8 + len + 4;
        assert(spec_parse_entry(whole, at, tagged) == Some((entry, next)));
        lemma_entries_round_trip(before + first, rest, after, tagged);
        assert(before + first + spec_entries_bytes(rest, tagged) + after =~= whole);
        assert((before + first).len() == next);
        assert(seq![entry] + rest =~= entries);
    }
}

/// A serialised entry is as long as its tag, its length field, its name and its address.
pub proof fn lemma_entry_len(entry: (Seq<u8>, u32), tagged: bool)
    ensures
        spec_entry_bytes(entry, tagged).len() == spec_entry_len(entry.0.len() as int, tagged),
{
    lemma_auto_spec_u32_to_from_le_bytes();
    lemma_auto_spec_u64_to_from_le_bytes();
}

/// Putting an entry into a list makes the serialised list longer by the entry.
pub proof fn lemma_entries_len_insert(
    entries: Seq<(Seq<u8>, u32)>,
    position: int,
    entry: (Seq<u8>, u32),
    tagged: bool,
)
    requires
        0 <= position <= entries.len(),
    ensures
        spec_entries_bytes(entries.insert(position, entry), tagged).len() == spec_entries_bytes(
            entries,
            tagged,
        ).len() + spec_entry_len(entry.0.len() as int, tagged),
    decreases position,
{
    let longer = entries.insert(position, entry);
    lemma_entry_len(entry, tagged);
    if position == 0 {
        assert(longer[0] == entry);
        assert(longer.drop_first() =~= entries);
    } else {
        assert(longer[0] == entries[0]);
        assert(longer.drop_first() =~= entries.drop_first().insert(position - 1, entry));
        lemma_entries_len_insert(entries.drop_first(), position - 1, entry, tagged);
    }
}

/// Taking an entry out of a list makes the serialised list shorter by the entry.
pub proof fn lemma_entries_len_remove(entries: Seq<(Seq<u8>, u32)>, position: int, tagged: bool)
    requires
        0 <= position < entries.len(),
    ensures
        spec_entries_bytes(entries, tagged).len() == spec_entries_bytes(
            entries.remove(position),
            tagged,
        ).len() + spec_entry_len(entries[position].0.len() as int, tagged),
    decreases position,
{
    let shorter = entries.remove(position);
    lemma_entry_len(entries[position], tagged);
    if position == 0 {
        assert(shorter =~= entries.drop_first());
    } else {
        assert(shorter[0] == entries[0]);
        assert(shorter.drop_first() =~= entries.drop_first().remove(position - 1));
        lemma_entries_len_remove(entries.drop_first(), position - 1, tagged);
    }
}

} // verus!
