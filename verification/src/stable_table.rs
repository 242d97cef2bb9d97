//! A contiguous table with hash-less O(1) lookup whose keys stay valid while
//! other entries are added or removed.
use std::marker::PhantomData;
use vstd::prelude::*;

verus! {

/// The raw key of a table slot: the slot's position and the version it had
/// when the key was handed out.
#[derive(Clone, Copy, Debug, PartialEq, Eq, Hash, Structural)]
pub struct StableTableKey {
    pub index: usize,
    pub version: usize,
}

/// A key type that a `StableTable` can be addressed with: a thin wrapper
/// around a `StableTableKey`.
pub trait StableKey: Copy + Sized {
    /// The raw key this key stands for.
    spec fn raw(&self) -> StableTableKey;

    /// The key that wraps a raw key.
    spec fn wrap(key: StableTableKey) -> Self;

    proof fn lemma_wrap_raw(key: StableTableKey)
        ensures
            Self::wrap(key).raw() == key,
    ;

    fn from_raw_key(key: StableTableKey) -> (r: Self)
        ensures
            r == Self::wrap(key),
    ;

    fn raw_key(&self) -> (r: StableTableKey)
        ensures
            r == self.raw(),
    ;
}

impl StableKey for StableTableKey {
    open spec fn raw(&self) -> StableTableKey {
        *self
    }

    open spec fn wrap(key: StableTableKey) -> Self {
        key
    }

    proof fn lemma_wrap_raw(key: StableTableKey) {
    }

    fn from_raw_key(key: StableTableKey) -> (r: Self) {
        key
    }

    fn raw_key(&self) -> (r: StableTableKey) {
        *self
    }
}

/// One slot of a table.
pub struct StableTableEntry<Value> {
    pub version: usize,
    pub value: Option<Value>,
}

/// Contiguous data structure with hash-less O(1) lookup that guarantees that
/// valid keys never change due to mutation.
pub struct StableTable<Key, Value> {
    pub entries: Vec<StableTableEntry<Value>>,
    pub unused_keys: Vec<Key>,
}

/// The mathematical content of a table: its slots and its free-key stack.
#[verifier::ext_equal]
pub struct TableModel<Key, Value> {
    pub entries: Seq<StableTableEntry<Value>>,
    pub unused: Seq<Key>,
}

/// The keys of the occupied slots of `entries`, in slot order, where slot `j`
/// has index `base + j`: what iterating over those slots yields.
pub open spec fn occupied_keys<Value>(entries: Seq<StableTableEntry<Value>>, base: int) -> Seq<StableTableKey>
    decreases entries.len(),
{
    if entries.len() == 0 {
        Seq::empty()
    } else {
        let rest = occupied_keys(entries.drop_first(), base + 1);
        if entries[0].value is Some {
            seq![StableTableKey { index: base as usize, version: entries[0].version }] + rest
        } else {
            rest
        }
    }
}

/// Slots without a value yield nothing.
proof fn lemma_occupied_none<Value>(entries: Seq<StableTableEntry<Value>>, base: int)
    requires
        forall|j: int| 0 <= j < entries.len() ==> (#[trigger] entries[j]).value is None,
    ensures
        occupied_keys(entries, base) == Seq::<StableTableKey>::empty(),
    decreases entries.len(),
{
    if entries.len() > 0 {
        assert(entries[0].value is None);
        let rest = entries.drop_first();
        assert forall|j: int| 0 <= j < rest.len() implies (#[trigger] rest[j]).value is None by {
            assert(rest[j] == entries[j + 1]);
        }
        lemma_occupied_none(rest, base + 1);
    }
}

/// After skipping the empty slots before `i`, slot `i` yields first, then
/// the slots after it.
proof fn lemma_occupied_first<Value>(entries: Seq<StableTableEntry<Value>>, base: int, i: int)
    requires
        0 <= i < entries.len(),
        entries[i].value is Some,
        forall|j: int| 0 <= j < i ==> (#[trigger] entries[j]).value is None,
    ensures
        occupied_keys(entries, base) == seq![StableTableKey { index: (base + i) as usize, version: entries[i].version }]
            + occupied_keys(entries.subrange(i + 1, entries.len() as int), base + i + 1),
    decreases i,
{
    let rest = entries.drop_first();
    if i == 0 {
        assert(rest =~= entries.subrange(1, entries.len() as int));
    } else {
        assert(entries[0].value is None);
        assert forall|j: int| 0 <= j < i - 1 implies (#[trigger] rest[j]).value is None by {
            assert(rest[j] == entries[j + 1]);
        }
        assert(rest[i - 1] == entries[i]);
        lemma_occupied_first(rest, base + 1, i - 1);
        assert(rest.subrange(i, rest.len() as int) =~= entries.subrange(i + 1, entries.len() as int));
    }
}

/// In a table whose slots all hold a value, iterating from the start yields
/// every slot's current key once, in slot order.
proof fn lemma_occupied_all<Value>(entries: Seq<StableTableEntry<Value>>, base: int)
    requires
        forall|j: int| 0 <= j < entries.len() ==> (#[trigger] entries[j]).value is Some,
    ensures
        occupied_keys(entries, base) == Seq::new(
            entries.len(),
            |j: int| StableTableKey { index: (base + j) as usize, version: entries[j].version },
        ),
    decreases entries.len(),
{
    if entries.len() > 0 {
        let rest = entries.drop_first();
        assert(entries[0].value is Some);
        assert forall|j: int| 0 <= j < rest.len() implies (#[trigger] rest[j]).value is Some by {
            assert(rest[j] == entries[j + 1]);
        }
        lemma_occupied_all(rest, base + 1);
        assert(occupied_keys(entries, base) =~= Seq::new(
            entries.len(),
            |j: int| StableTableKey { index: (base + j) as usize, version: entries[j].version },
        ));
    }
}

/// Walks the occupied slots of a table in slot order.
pub struct StableTableIter<'a, Key, Value> {
    entries: &'a Vec<StableTableEntry<Value>>,
    position: usize,
    _ghost: PhantomData<Key>,
}

impl<'a, Key: StableKey, Value> StableTableIter<'a, Key, Value> {
    /// The slots being walked.
    pub closed spec fn slots(&self) -> Seq<StableTableEntry<Value>> {
        self.entries@
    }

    /// The first slot not yet visited.
    pub closed spec fn position(&self) -> nat {
        self.position as nat
    }

    pub closed spec fn wf(&self) -> bool {
        self.position <= self.entries@.len()
    }

    /// The keys the iteration still yields, in order.
    pub open spec fn remaining_keys(&self) -> Seq<StableTableKey> {
        occupied_keys(self.slots().subrange(self.position() as int, self.slots().len() as int), self.position() as int)
    }

    /// The next occupied slot at or after the position, with its key.
    pub fn next(&mut self) -> (r: Option<(Key, &'a Value)>)
        requires
            old(self).wf(),
        ensures
            final(self).wf(),
            final(self).slots() == old(self).slots(),
            r is None ==> {
                &&& final(self).position() == old(self).slots().len()
                &&& forall|j: int|
                    old(self).position() <= j < old(self).slots().len()
                        ==> (#[trigger] old(self).slots()[j]).value is None
            },
            r is Some ==> {
                let (key, value) = r.unwrap();
                let i = key.raw().index as int;
                &&& old(self).position() <= i < old(self).slots().len()
                &&& key == Key::wrap(StableTableKey { index: i as usize, version: old(self).slots()[i].version })
                &&& old(self).slots()[i].value == Some(*value)
                &&& forall|j: int| old(self).position() <= j < i ==> (#[trigger] old(self).slots()[j]).value is None
                &&& final(self).position() == i + 1
            },
            r is None ==> old(self).remaining_keys() == Seq::<StableTableKey>::empty(),
            r is Some ==> old(self).remaining_keys() == seq![r.unwrap().0.raw()] + final(self).remaining_keys(),
    {
        while self.position < self.entries.len()
            invariant
                self.entries == old(self).entries,
                old(self).position <= self.position <= self.entries@.len(),
                forall|j: int| old(self).position <= j < self.position ==> (#[trigger] self.entries@[j]).value is None,
            decreases self.entries@.len() - self.position,
        {
            let index = self.position;
            let entries: &'a Vec<StableTableEntry<Value>> = self.entries;
            let entry: &'a StableTableEntry<Value> = &entries[index];
            self.position = index + 1;
            if let Some(value) = entry.value.as_ref() {
                let key = StableTableKey { index, version: entry.version };
                proof {
                    Key::lemma_wrap_raw(key);
                    let p0 = old(self).position as int;
                    let es = self.entries@.subrange(p0, self.entries@.len() as int);
                    assert forall|j: int| 0 <= j < index - p0 implies (#[trigger] es[j]).value is None by {
                        assert(es[j] == self.entries@[p0 + j]);
                    }
                    lemma_occupied_first(es, p0, index - p0);
                    assert(es.subrange(index - p0 + 1, es.len() as int) =~= self.entries@.subrange(
                        index + 1,
                        self.entries@.len() as int,
                    ));
                }
                return Some((Key::from_raw_key(key), value));
            }
        }
        proof {
            let p0 = old(self).position as int;
            let es = self.entries@.subrange(p0, self.entries@.len() as int);
            assert forall|j: int| 0 <= j < es.len() implies (#[trigger] es[j]).value is None by {
                assert(es[j] == self.entries@[p0 + j]);
            }
            lemma_occupied_none(es, p0);
        }
        None
    }
}

/// Walks the occupied slots of a table in slot order, handing out mutable
/// access to each value.
pub struct StableTableIterMut<'a, Key, Value> {
    pub entries: &'a mut [StableTableEntry<Value>],
    pub offset: usize,
    pub keys: PhantomData<Key>,
}

impl<'a, Key: StableKey, Value> StableTableIterMut<'a, Key, Value> {
    /// The slots not yet visited.
    pub closed spec fn rest(&self) -> Seq<StableTableEntry<Value>> {
        self.entries@
    }

    /// The slot index of the first slot not yet visited.
    pub closed spec fn offset(&self) -> int {
        self.offset as int
    }

    pub closed spec fn wf(&self) -> bool {
        self.offset + self.entries@.len() <= usize::MAX
    }

    /// The keys the iteration still yields, in order.
    pub open spec fn remaining_keys(&self) -> Seq<StableTableKey> {
        occupied_keys(self.rest(), self.offset())
    }

    /// The next occupied slot, with its key and mutable access to its value.
    pub fn next(&mut self) -> (r: Option<(Key, &'a mut Value)>)
        requires
            old(self).wf(),
        ensures
            final(self).wf(),
            r is None ==> final(old(self).entries)@ == old(self).entries@ + final(final(self).entries)@,
            r is Some ==> {
                let (key, value) = r.unwrap();
                let i = key.raw().index - old(self).offset();
                final(old(self).entries)@ == old(self).entries@.subrange(0, i).push(
                    StableTableEntry { version: old(self).entries@[i].version, value: Some(*final(value)) },
                ) + final(final(self).entries)@
            },
            r is None ==> {
                &&& final(self).rest().len() == 0
                &&& forall|j: int| 0 <= j < old(self).rest().len() ==> (#[trigger] old(self).rest()[j]).value is None
            },
            r is Some ==> {
                let (key, value) = r.unwrap();
                let i = key.raw().index - old(self).offset();
                &&& 0 <= i < old(self).rest().len()
                &&& key == Key::wrap(StableTableKey { index: key.raw().index, version: old(self).rest()[i].version })
                &&& old(self).rest()[i].value == Some(*value)
                &&& forall|j: int| 0 <= j < i ==> (#[trigger] old(self).rest()[j]).value is None
                &&& final(self).rest() == old(self).rest().subrange(i + 1, old(self).rest().len() as int)
                &&& final(self).offset() == key.raw().index + 1
            },
            r is None ==> old(self).remaining_keys() == Seq::<StableTableKey>::empty(),
            r is Some ==> old(self).remaining_keys() == seq![r.unwrap().0.raw()] + final(self).remaining_keys(),
    {
        loop
            invariant
                self.wf(),
                old(self).offset <= self.offset,
                self.offset + self.entries@.len() == old(self).offset + old(self).entries@.len(),
                self.entries@ == old(self).entries@.subrange(self.offset - old(self).offset, old(self).entries@.len() as int),
                forall|j: int| 0 <= j < self.offset - old(self).offset ==> (#[trigger] old(self).entries@[j]).value is None,
                final(old(self).entries)@ == old(self).entries@.subrange(0, self.offset - old(self).offset) + final(self.entries)@,
            decreases self.entries@.len(),
        {
            if self.entries.len() == 0 {
                proof {
                    let es = old(self).entries@;
                    assert forall|j: int| 0 <= j < es.len() implies (#[trigger] es[j]).value is None by {
                    }
                    lemma_occupied_none(es, old(self).offset as int);
                }
                return None;
            }
            let ghost skipped = self.offset - old(self).offset;
            let mut rest: &'a mut [StableTableEntry<Value>] = &mut [];
            std::mem::swap(&mut self.entries, &mut rest);
            let (first, tail) = rest.split_at_mut(1);
            self.entries = tail;
            let index = self.offset;
            self.offset = index + 1;
            let entry: &'a mut StableTableEntry<Value> = first.first_mut().unwrap();
            let version = entry.version;
            if let Some(value) = entry.value.as_mut() {
                let key = StableTableKey { index, version };
                proof {
                    Key::lemma_wrap_raw(key);
                    let es = old(self).entries@;
                    assert(es[skipped].value is Some);
                    assert(es[skipped].version == version);
                    lemma_occupied_first(es, old(self).offset as int, skipped);
                    assert(es.subrange(skipped + 1, es.len() as int) =~= self.entries@);
                }
                return Some((Key::from_raw_key(key), value));
            }
        }
    }
}

impl<Key: StableKey, Value> View for StableTable<Key, Value> {
    type V = TableModel<Key, Value>;

    open spec fn view(&self) -> TableModel<Key, Value> {
        TableModel { entries: self.entries@, unused: self.unused_keys@ }
    }
}

impl<Key: StableKey, Value> TableModel<Key, Value> {
    /// Every slot holds a value and every free key points at a slot.
    pub open spec fn wf(self) -> bool {
        &&& self.entries.len() <= usize::MAX
        &&& forall|i: int| 0 <= i < self.entries.len() ==> (#[trigger] self.entries[i]).value is Some
        &&& forall|j: int|
            0 <= j < self.unused.len() ==> (#[trigger] self.unused[j]).raw().index
                < self.entries.len()
    }

    /// `key` names a slot at the version the slot has now.
    pub open spec fn matches(self, key: StableTableKey) -> bool {
        &&& key.index < self.entries.len()
        &&& self.entries[key.index as int].version == key.version
    }

    /// What a lookup by `key` finds.
    pub open spec fn lookup(self, key: StableTableKey) -> Option<Value> {
        if self.matches(key) {
            self.entries[key.index as int].value
        } else {
            None
        }
    }

    /// The index is on the free-key stack.
    pub open spec fn is_free_index(self, index: usize) -> bool {
        exists|j: int| 0 <= j < self.unused.len() && (#[trigger] self.unused[j]).raw().index == index
    }

    /// A key that was handed out by `add` and not removed since.
    pub open spec fn live(self, key: StableTableKey) -> bool {
        self.lookup(key) is Some && !self.is_free_index(key.index)
    }

    /// The free-key stack is in step with the slots: each free key names its
    /// slot at the current version, and no slot is free twice.
    pub open spec fn sound(self) -> bool {
        &&& self.wf()
        &&& forall|j: int| 0 <= j < self.unused.len() ==> self.matches((#[trigger] self.unused[j]).raw())
        &&& forall|j1: int, j2: int|
            0 <= j1 < self.unused.len() && 0 <= j2 < self.unused.len() && j1 != j2
                ==> (#[trigger] self.unused[j1]).raw().index != (#[trigger] self.unused[j2]).raw().index
    }

    /// The key names its slot at an earlier version than the slot has now:
    /// it was removed.
    pub open spec fn retired(self, key: StableTableKey) -> bool {
        &&& key.index < self.entries.len()
        &&& key.version < self.entries[key.index as int].version
    }

    /// The raw key the next `add` hands out.
    pub open spec fn next_key(self) -> StableTableKey {
        if self.unused.len() > 0 {
            self.unused.last().raw()
        } else {
            StableTableKey { index: self.entries.len() as usize, version: 0 }
        }
    }

    /// The table after `add(value)`.
    pub open spec fn added(self, value: Value) -> Self {
        if self.unused.len() > 0 {
            let index = self.unused.last().raw().index as int;
            TableModel {
                entries: self.entries.update(
                    index,
                    StableTableEntry { version: self.entries[index].version, value: Some(value) },
                ),
                unused: self.unused.drop_last(),
            }
        } else {
            TableModel {
                entries: self.entries.push(StableTableEntry { version: 0, value: Some(value) }),
                unused: self.unused,
            }
        }
    }

    /// The table after `remove(key)`.
    pub open spec fn removed(self, key: StableTableKey) -> Self {
        if self.matches(key) {
            let index = key.index as int;
            let version = (key.version + 1) as usize;
            TableModel {
                entries: self.entries.update(
                    index,
                    StableTableEntry { version, value: self.entries[index].value },
                ),
                unused: self.unused.push(Key::wrap(StableTableKey { index: key.index, version })),
            }
        } else {
            self
        }
    }
}

impl<Key: StableKey, Value> StableTable<Key, Value> {
    pub fn new() -> (r: Self)
        ensures
            r@.entries == Seq::<StableTableEntry<Value>>::empty(),
            r@.unused == Seq::<Key>::empty(),
            r@.wf(),
            r@.sound(),
    {
        StableTable { entries: Vec::new(), unused_keys: Vec::new() }
    }

    /// Stores `value` in a free slot, or in a new one at the end, and returns
    /// its key.
    pub fn add(&mut self, value: Value) -> (r: Key)
        requires
            old(self)@.wf(),
        ensures
            r.raw() == old(self)@.next_key(),
            final(self)@ == old(self)@.added(value),
            final(self)@.wf(),
            old(self)@.sound() ==> final(self)@.sound(),
    {
        if let Some(unused_key) = self.unused_keys.pop() {
            proof {
                let last = old(self)@.unused.len() - 1;
                assert(old(self)@.unused[last] == unused_key);
            }
            let index = unused_key.raw_key().index;
            let version = self.entries[index].version;
            // The key and the slot version were bumped when the slot was freed.
            self.entries.set(index, StableTableEntry { version, value: Some(value) });
            proof {
                assert(final(self)@ =~= old(self)@.added(value));
                if old(self)@.sound() {
                    lemma_add_then_lookup(old(self)@, value);
                }
                assert forall|j: int| 0 <= j < final(self)@.unused.len() implies (#[trigger] final(self)@.unused[j]).raw().index
                    < final(self)@.entries.len() by {
                    assert(final(self)@.unused[j] == old(self)@.unused[j]);
                }
            }
            unused_key
        } else {
            let index = self.entries.len();
            self.entries.push(StableTableEntry { version: 0, value: Some(value) });
            proof {
                assert(final(self)@ =~= old(self)@.added(value));
                assert(final(self)@.entries.len() == self.entries.len());
                if old(self)@.sound() {
                    lemma_add_then_lookup(old(self)@, value);
                }
            }
            let key = StableTableKey { index, version: 0 };
            proof {
                Key::lemma_wrap_raw(key);
            }
            Key::from_raw_key(key)
        }
    }

    /// The value stored under `key`, if the key names its slot at the slot's
    /// current version.
    pub fn get(&self, key: Key) -> (r: Option<&Value>)
        requires
            self@.wf(),
        ensures
            r is Some <==> self@.lookup(key.raw()) is Some,
            r is Some ==> *r.unwrap() == self@.lookup(key.raw()).unwrap(),
    {
        let raw = key.raw_key();
        if raw.index < self.entries.len() {
            let entry = &self.entries[raw.index];
            if entry.version != raw.version {
                None
            } else {
                Some(entry.value.as_ref().unwrap())
            }
        } else {
            None
        }
    }

    /// Mutable access to the value stored under `key`; only that value can
    /// change through the returned reference.
    pub fn get_mut(&mut self, key: Key) -> (r: Option<&mut Value>)
        requires
            old(self)@.wf(),
        ensures
            r is Some <==> old(self)@.lookup(key.raw()) is Some,
            r is Some ==> *r.unwrap() == old(self)@.lookup(key.raw()).unwrap(),
            r is Some ==> final(self)@ == (TableModel {
                entries: old(self)@.entries.update(
                    key.raw().index as int,
                    StableTableEntry {
                        version: key.raw().version,
                        value: Some(*final(r.unwrap())),
                    },
                ),
                unused: old(self)@.unused,
            }),
            r is None ==> final(self)@ == old(self)@,
            old(self)@.sound() ==> final(self)@.sound(),
    {
        let raw = key.raw_key();
        if raw.index < self.entries.len() {
            if self.entries[raw.index].version != raw.version {
                None
            } else {
                let entry = &mut self.entries[raw.index];
                match &mut entry.value {
                    Some(value) => Some(value),
                    None => None,
                }
            }
        } else {
            None
        }
    }

    /// Invalidates `key`: bumps the version of its slot and puts the slot's
    /// next key on the free stack. Returns whether `key` was live: it names its
    /// slot at the current version and the slot is not already free. A key
    /// that is not live leaves the table as it is.
    pub fn remove(&mut self, key: Key) -> (r: bool)
        requires
            old(self)@.wf(),
            old(self)@.matches(key.raw()) ==> key.raw().version < usize::MAX,
        ensures
            r == old(self)@.live(key.raw()),
            r ==> final(self)@ == old(self)@.removed(key.raw()),
            !r ==> final(self)@ == old(self)@,
            final(self)@.wf(),
            old(self)@.sound() ==> final(self)@.sound(),
    {
        let raw = key.raw_key();
        if raw.index < self.entries.len() {
            if self.entries[raw.index].version != raw.version {
                false
            } else {
                // A slot that is already free was removed before: its next key
                // is on the free stack and must not be freed twice.
                let mut j: usize = 0;
                while j < self.unused_keys.len()
                    invariant
                        self@ == old(self)@,
                        raw == key.raw(),
                        old(self)@.wf(),
                        old(self)@.matches(raw),
                        j <= self@.unused.len(),
                        forall|t: int| 0 <= t < j ==> (#[trigger] self@.unused[t]).raw().index != raw.index,
                    decreases self@.unused.len() - j,
                {
                    let free = self.unused_keys[j].raw_key();
                    if free.index == raw.index {
                        proof {
                            assert(self@.unused[j as int].raw().index == raw.index);
                        }
                        return false;
                    }
                    j = j + 1;
                }
                let version = raw.version + 1;
                let entry = &mut self.entries[raw.index];
                entry.version = version;
                let freed = StableTableKey { index: raw.index, version };
                proof {
                    Key::lemma_wrap_raw(freed);
                }
                self.unused_keys.push(Key::from_raw_key(freed));
                proof {
                    assert(final(self)@ =~= old(self)@.removed(key.raw()));
                    if old(self)@.sound() {
                        lemma_remove_live_keeps_sound(old(self)@, key.raw());
                    }
                }
                true
            }
        } else {
            false
        }
    }

    /// Iterates over the occupied slots, yielding each slot's current key and
    /// its value.
    pub fn iter(&self) -> (r: StableTableIter<'_, Key, Value>)
        ensures
            r.wf(),
            r.slots() == self@.entries,
            r.position() == 0,
    {
        StableTableIter { entries: &self.entries, position: 0, _ghost: PhantomData }
    }

    /// Iterates over the occupied slots, yielding each slot's current key and
    /// mutable access to its value.
    pub fn iter_mut(&mut self) -> (r: StableTableIterMut<'_, Key, Value>)
        requires
            old(self).entries@.len() <= usize::MAX,
        ensures
            r.wf(),
            r.rest() == old(self)@.entries,
            r.offset() == 0,
            final(self)@.unused == old(self)@.unused,
            final(self)@.entries == final(r.entries)@,
    {
        StableTableIterMut { entries: self.entries.as_mut_slice(), offset: 0, keys: PhantomData }
    }

    /// The value under `key`; the key must be valid (a lookup by an invalid or
    /// deleted key is a caller error).
    pub fn index(&self, key: Key) -> (r: &Value)
        requires
            self@.wf(),
            self@.lookup(key.raw()) is Some,
        ensures
            *r == self@.lookup(key.raw()).unwrap(),
    {
        let raw = key.raw_key();
        self.entries[raw.index].value.as_ref().unwrap()
    }

    /// Mutable access to the value under `key`; the key must be valid.
    pub fn index_mut(&mut self, key: Key) -> (r: &mut Value)
        requires
            old(self)@.wf(),
            old(self)@.lookup(key.raw()) is Some,
        ensures
            *r == old(self)@.lookup(key.raw()).unwrap(),
            final(self)@ == (TableModel {
                entries: old(self)@.entries.update(
                    key.raw().index as int,
                    StableTableEntry { version: key.raw().version, value: Some(*final(r)) },
                ),
                unused: old(self)@.unused,
            }),
            old(self)@.sound() ==> final(self)@.sound(),
    {
        let raw = key.raw_key();
        let entry = &mut self.entries[raw.index];
        entry.value.as_mut().unwrap()
    }
}


impl<Key: StableKey, Value> Default for StableTable<Key, Value> {
    fn default() -> (r: Self)
        ensures
            r@.entries == Seq::<StableTableEntry<Value>>::empty(),
            r@.unused == Seq::<Key>::empty(),
    {
        StableTable { entries: Vec::new(), unused_keys: Vec::new() }
    }
}

/// Adding to a sound table hands out a key that reads back the added value
/// and is live, and the table stays sound.
pub proof fn lemma_add_then_lookup<Key: StableKey, Value>(m: TableModel<Key, Value>, value: Value)
    requires
        m.sound(),
        m.unused.len() == 0 ==> m.entries.len() < usize::MAX,
    ensures
        m.added(value).lookup(m.next_key()) == Some(value),
        m.added(value).live(m.next_key()),
        m.added(value).sound(),
{
    let a = m.added(value);
    if m.unused.len() > 0 {
        let last = m.unused.len() - 1;
        assert(m.matches(m.unused[last].raw()));
        assert forall|j: int| 0 <= j < a.unused.len() implies (#[trigger] a.unused[j]).raw().index
            != m.next_key().index by {
            assert(a.unused[j] == m.unused[j]);
        }
        assert forall|j: int| 0 <= j < a.unused.len() implies a.matches((#[trigger] a.unused[j]).raw()) by {
            assert(a.unused[j] == m.unused[j]);
            assert(m.matches(m.unused[j].raw()));
        }
        assert forall|j: int| 0 <= j < a.unused.len() implies (#[trigger] a.unused[j]).raw().index
            < a.entries.len() by {
            assert(a.unused[j] == m.unused[j]);
        }
        assert forall|j1: int, j2: int|
            0 <= j1 < a.unused.len() && 0 <= j2 < a.unused.len() && j1 != j2
                implies (#[trigger] a.unused[j1]).raw().index != (#[trigger] a.unused[j2]).raw().index by {
            assert(a.unused[j1] == m.unused[j1]);
            assert(a.unused[j2] == m.unused[j2]);
        }
    } else {
        assert forall|j: int| 0 <= j < a.unused.len() implies a.matches((#[trigger] a.unused[j]).raw()) by {
            assert(m.matches(m.unused[j].raw()));
        }
        assert forall|j: int| 0 <= j < a.unused.len() implies (#[trigger] a.unused[j]).raw().index
            != m.next_key().index by {
            assert(a.unused[j] == m.unused[j]);
        }
    }
}

/// Adding to a sound table leaves the lookup of every other key unchanged,
/// and every live key stays live with its value.
pub proof fn lemma_add_keeps_other_keys<Key: StableKey, Value>(
    m: TableModel<Key, Value>,
    value: Value,
    other: StableTableKey,
)
    requires
        m.sound(),
        other != m.next_key(),
    ensures
        m.added(value).lookup(other) == m.lookup(other),
        m.live(other) ==> m.added(value).live(other),
{
    let a = m.added(value);
    if m.unused.len() > 0 {
        let last = m.unused.len() - 1;
        assert(m.matches(m.unused[last].raw()));
        if m.live(other) {
            assert forall|j: int| 0 <= j < a.unused.len() implies (#[trigger] a.unused[j]).raw().index
                != other.index by {
                assert(a.unused[j] == m.unused[j]);
            }
        }
    } else {
        if m.live(other) {
            assert forall|j: int| 0 <= j < a.unused.len() implies (#[trigger] a.unused[j]).raw().index
                != other.index by {
                assert(a.unused[j] == m.unused[j]);
            }
        }
    }
}

/// A live key is never the key the next `add` hands out.
pub proof fn lemma_live_key_not_next<Key: StableKey, Value>(m: TableModel<Key, Value>, key: StableTableKey)
    requires
        m.sound(),
        m.live(key),
    ensures
        key != m.next_key(),
{
    if m.unused.len() > 0 {
        let last = m.unused.len() - 1;
        assert(m.unused[last].raw().index == m.next_key().index);
    }
}

/// After `remove(key)` the key no longer finds anything, and removing it
/// again reports that it was not there.
pub proof fn lemma_remove_then_lookup<Key: StableKey, Value>(m: TableModel<Key, Value>, key: StableTableKey)
    requires
        m.wf(),
        m.matches(key) ==> key.version < usize::MAX,
    ensures
        m.removed(key).lookup(key) is None,
        !m.removed(key).matches(key),
{
}

/// Removing a key leaves every key of another slot as it was: what it finds,
/// and whether it is live.
pub proof fn lemma_remove_keeps_other_slots<Key: StableKey, Value>(
    m: TableModel<Key, Value>,
    key: StableTableKey,
    other: StableTableKey,
)
    requires
        m.wf(),
        m.matches(key) ==> key.version < usize::MAX,
        other.index != key.index,
    ensures
        m.removed(key).lookup(other) == m.lookup(other),
        m.removed(key).live(other) == m.live(other),
{
    let r = m.removed(key);
    if m.matches(key) {
        let freed = StableTableKey { index: key.index, version: (key.version + 1) as usize };
        Key::lemma_wrap_raw(freed);
        assert(r.unused.last().raw() == freed);
        if r.is_free_index(other.index) {
            let j = choose|j: int| 0 <= j < r.unused.len() && (#[trigger] r.unused[j]).raw().index == other.index;
            assert(j < m.unused.len());
            assert(m.unused[j] == r.unused[j]);
        }
        if m.is_free_index(other.index) {
            let j = choose|j: int| 0 <= j < m.unused.len() && (#[trigger] m.unused[j]).raw().index == other.index;
            assert(m.unused[j] == r.unused[j]);
        }
    }
}

/// Removing a live key from a sound table keeps the table sound and makes
/// the key's successor the next key `add` hands out.
pub proof fn lemma_remove_live_keeps_sound<Key: StableKey, Value>(m: TableModel<Key, Value>, key: StableTableKey)
    requires
        m.sound(),
        m.live(key),
        key.version < usize::MAX,
    ensures
        m.removed(key).sound(),
        m.removed(key).next_key() == (StableTableKey { index: key.index, version: (key.version + 1) as usize }),
{
    let r = m.removed(key);
    let freed = StableTableKey { index: key.index, version: (key.version + 1) as usize };
    Key::lemma_wrap_raw(freed);
    let n = m.unused.len() as int;
    assert(r.unused[n].raw() == freed);
    assert forall|j: int| 0 <= j < r.unused.len() implies r.matches((#[trigger] r.unused[j]).raw()) by {
        if j < n {
            assert(r.unused[j] == m.unused[j]);
            assert(m.matches(m.unused[j].raw()));
            assert(m.unused[j].raw().index != key.index);
        }
    }
    assert forall|j1: int, j2: int|
        0 <= j1 < r.unused.len() && 0 <= j2 < r.unused.len() && j1 != j2
            implies (#[trigger] r.unused[j1]).raw().index != (#[trigger] r.unused[j2]).raw().index by {
        if j1 < n {
            assert(r.unused[j1] == m.unused[j1]);
        }
        if j2 < n {
            assert(r.unused[j2] == m.unused[j2]);
        }
        if j1 < n && j2 < n {
            assert(m.unused[j1].raw().index != m.unused[j2].raw().index);
        }
    }
    assert forall|j: int| 0 <= j < r.unused.len() implies (#[trigger] r.unused[j]).raw().index
        < r.entries.len() by {
        if j < n {
            assert(r.unused[j] == m.unused[j]);
        }
    }
}

/// Removing a live key retires it.
pub proof fn lemma_remove_retires<Key: StableKey, Value>(m: TableModel<Key, Value>, key: StableTableKey)
    requires
        m.wf(),
        m.live(key),
        key.version < usize::MAX,
    ensures
        m.removed(key).retired(key),
{
}

/// A retired key stays dead in a sound table: it finds nothing, the next
/// `add` does not hand it out, and it is still retired after any `add` or
/// `remove`. Every table built by `new`, `add`, `remove`, `get_mut` and
/// `index_mut` is sound, so a removed key is never handed out or revived.
pub proof fn lemma_retired_stays_dead<Key: StableKey, Value>(
    m: TableModel<Key, Value>,
    key: StableTableKey,
    value: Value,
    other: StableTableKey,
)
    requires
        m.sound(),
        m.retired(key),
        m.matches(other) ==> other.version < usize::MAX,
    ensures
        m.lookup(key) is None,
        key != m.next_key(),
        m.added(value).retired(key),
        m.removed(other).retired(key),
{
    if m.unused.len() > 0 {
        let last = m.unused.len() - 1;
        assert(m.matches(m.unused[last].raw()));
    }
}

/// A whole iteration over a well-formed table, by `iter` or `iter_mut`,
/// yields the key of every slot at its current version, once each and in
/// slot order; these are exactly the keys a lookup finds a value under.
pub proof fn lemma_iteration_yields_found_keys<Key: StableKey, Value>(m: TableModel<Key, Value>)
    requires
        m.wf(),
    ensures
        occupied_keys(m.entries, 0) == Seq::new(
            m.entries.len(),
            |i: int| StableTableKey { index: i as usize, version: m.entries[i].version },
        ),
        forall|i: int| 0 <= i < m.entries.len() ==> #[trigger] occupied_keys(m.entries, 0)[i].index == i,
        forall|k: StableTableKey| #[trigger] m.lookup(k) is Some <==> occupied_keys(m.entries, 0).contains(k),
{
    lemma_occupied_all(m.entries, 0);
    let keys = occupied_keys(m.entries, 0);
    assert forall|k: StableTableKey| #[trigger] m.lookup(k) is Some <==> keys.contains(k) by {
        if m.lookup(k) is Some {
            assert(keys[k.index as int] == k);
        }
        if keys.contains(k) {
            let i = choose|i: int| 0 <= i < keys.len() && keys[i] == k;
            assert(keys[i].index == i);
        }
    }
}

} // verus!
