//! Run-time descriptions of value types, and byte stores that hold values of
//! those types.
use crate::stable_table::{StableKey, StableTable, StableTableEntry, StableTableKey, TableModel};
use std::collections::HashMap;
use vstd::prelude::*;

verus! {

/// Key of a per-type value table inside a `MetaValueStore`.
#[derive(Clone, Copy, Debug, PartialEq, Eq, Hash, Structural)]
pub struct StoreValueTypeId(pub StableTableKey);

/// Key of a single value inside a `MetaValueStore`.
#[derive(Clone, Copy, Debug, PartialEq, Eq, Hash, Structural)]
pub struct StoreValueId(pub StableTableKey);

impl StableKey for StoreValueTypeId {
    open spec fn raw(&self) -> StableTableKey {
        self.0
    }

    open spec fn wrap(key: StableTableKey) -> Self {
        StoreValueTypeId(key)
    }

    proof fn lemma_wrap_raw(key: StableTableKey) {
    }

    fn from_raw_key(key: StableTableKey) -> (r: Self) {
        StoreValueTypeId(key)
    }

    fn raw_key(&self) -> (r: StableTableKey) {
        self.0
    }
}

impl StableKey for StoreValueId {
    open spec fn raw(&self) -> StableTableKey {
        self.0
    }

    open spec fn wrap(key: StableTableKey) -> Self {
        StoreValueId(key)
    }

    proof fn lemma_wrap_raw(key: StableTableKey) {
    }

    fn from_raw_key(key: StableTableKey) -> (r: Self) {
        StoreValueId(key)
    }

    fn raw_key(&self) -> (r: StableTableKey) {
        self.0
    }
}

/// Globally unique ID for a meta type.
///
/// On compile and hot-reload these IDs are not guaranteed to be consistent, so
/// `MetaTypeDefinition::ident` must be used for hot-reload diffing instead.
#[derive(Clone, Copy, PartialEq, Eq, PartialOrd, Ord, Hash, Debug, Structural)]
pub struct MetaTypeId(pub usize);

/// The layout of a type known at run time: its name, size and the fields it
/// exposes.
pub struct MetaTypeDefinition {
    pub id: MetaTypeId,
    pub ident: &'static str,
    pub byte_size: usize,
    pub fields: &'static [MetaFieldDefinition],
}

/// A field of a meta type: its name, where it starts in the value, and its
/// own type.
pub struct MetaFieldDefinition {
    pub ident: &'static str,
    pub byte_offset: usize,
    pub def: &'static MetaTypeDefinition,
}

impl MetaTypeDefinition {
    /// The byte range field `field_index` occupies in a value of this type.
    pub open spec fn field_range(&self, field_index: int) -> (int, int) {
        let field = self.fields@[field_index];
        (field.byte_offset as int, field.byte_offset + field.def.byte_size)
    }

    /// The bytes of field `field_index` inside `data`, a value of this type.
    pub fn get_field_data<'a>(&self, data: &'a [u8], field_index: usize) -> (r: &'a [u8])
        requires
            data@.len() == self.byte_size,
            field_index < self.fields@.len(),
            self.field_range(field_index as int).1 <= data@.len(),
        ensures
            r@ == data@.subrange(self.field_range(field_index as int).0, self.field_range(field_index as int).1),
    {
        let field = &self.fields[field_index];
        let start = field.byte_offset;
        let end = start + field.def.byte_size;
        &data[start..end]
    }

    /// Mutable access to the bytes of field `field_index` inside `data`; the
    /// bytes outside the field stay as they are.
    pub fn get_field_data_mut<'a>(&self, data: &'a mut [u8], field_index: usize) -> (r: &'a mut [u8])
        requires
            old(data)@.len() == self.byte_size,
            field_index < self.fields@.len(),
            self.field_range(field_index as int).1 <= old(data)@.len(),
        ensures
            r@ == old(data)@.subrange(self.field_range(field_index as int).0, self.field_range(field_index as int).1),
            final(data)@ == old(data)@.subrange(0, self.field_range(field_index as int).0) + final(r)@
                + old(data)@.subrange(self.field_range(field_index as int).1, old(data)@.len() as int),
    {
        let field = &self.fields[field_index];
        let start = field.byte_offset;
        let end = start + field.def.byte_size;
        let (_before, rest) = data.split_at_mut(start);
        let (middle, _after) = rest.split_at_mut(end - start);
        middle
    }
}

/// Stores values of one meta type back to back as raw bytes.
pub struct MetaValueVec {
    data: Vec<u8>,
    def: &'static MetaTypeDefinition,
}

impl MetaValueVec {
    /// The stored bytes.
    pub closed spec fn bytes(&self) -> Seq<u8> {
        self.data@
    }

    /// The type of the stored values.
    pub closed spec fn spec_def(&self) -> &'static MetaTypeDefinition {
        self.def
    }

    /// The size of one value.
    pub open spec fn stride(&self) -> int {
        self.spec_def().byte_size as int
    }

    /// The number of whole values stored.
    pub open spec fn count(&self) -> int {
        self.bytes().len() as int / self.stride()
    }

    /// The bytes of value `index`.
    pub open spec fn value(&self, index: int) -> Seq<u8> {
        self.bytes().subrange(index * self.stride(), index * self.stride() + self.stride())
    }

    /// The bytes are whole values of a type with a size.
    pub open spec fn whole(&self) -> bool {
        &&& self.stride() > 0
        &&& (self.bytes().len() as int) % self.stride() == 0
    }

    pub fn new(def: &'static MetaTypeDefinition) -> (r: Self)
        ensures
            r.bytes() == Seq::<u8>::empty(),
            r.spec_def() == def,
            def.byte_size > 0 ==> r.whole() && r.count() == 0,
    {
        Self { data: Vec::new(), def }
    }

    pub fn get_def(&self) -> (r: &'static MetaTypeDefinition)
        ensures
            r == self.spec_def(),
    {
        self.def
    }

    /// The byte range of value `index`.
    pub fn get_index_range(&self, index: usize) -> (r: std::ops::Range<usize>)
        requires
            (index + 1) * self.stride() <= usize::MAX,
        ensures
            r.start == index * self.stride(),
            r.end == index * self.stride() + self.stride(),
            r.start <= r.end,
            r.end == (index + 1) * self.stride(),
    {
        let stride = self.def.byte_size;
        proof {
            assert(index * stride + stride == (index + 1) * stride) by (nonlinear_arith);
            assert(0 <= index * stride <= (index + 1) * stride) by (nonlinear_arith);
        }
        let start = index * stride;
        let end = start + stride;
        start..end
    }

    /// The bytes of value `index`.
    pub fn get(&self, index: usize) -> (r: &[u8])
        requires
            (index + 1) * self.stride() <= self.bytes().len(),
        ensures
            r@ == self.value(index as int),
    {
        proof {
            assert(self.data.len() == self.data@.len());
        }
        let range = self.get_index_range(index);
        &self.data[range]
    }

    /// Mutable access to the bytes of value `index`; the other bytes stay as
    /// they are.
    pub fn get_mut(&mut self, index: usize) -> (r: &mut [u8])
        requires
            (index + 1) * old(self).stride() <= old(self).bytes().len(),
        ensures
            r@ == old(self).value(index as int),
            final(self).spec_def() == old(self).spec_def(),
            final(self).bytes() == old(self).bytes().subrange(0, index * old(self).stride()) + final(r)@
                + old(self).bytes().subrange(
                index * old(self).stride() + old(self).stride(),
                old(self).bytes().len() as int,
            ),
    {
        proof {
            assert(self.data.len() == self.data@.len());
        }
        let range = self.get_index_range(index);
        let slice = self.data.as_mut_slice();
        let (_before, rest) = slice.split_at_mut(range.start);
        let (middle, _after) = rest.split_at_mut(range.end - range.start);
        middle
    }

    /// Appends one value, given as its bytes.
    pub fn push(&mut self, data: &[u8])
        requires
            data@.len() == old(self).stride(),
        ensures
            final(self).bytes() == old(self).bytes() + data@,
            final(self).spec_def() == old(self).spec_def(),
            old(self).whole() ==> {
                &&& final(self).whole()
                &&& final(self).count() == old(self).count() + 1
                &&& final(self).value(old(self).count()) == data@
                &&& forall|i: int| 0 <= i < old(self).count() ==> #[trigger] final(self).value(i) == old(self).value(i)
            },
    {
        self.data.extend_from_slice(data);
        proof {
            assert(final(self).bytes() =~= old(self).bytes() + data@);
            if old(self).whole() {
                let stride = old(self).stride();
                let len = old(self).bytes().len() as int;
                let count = old(self).count();
                vstd::arithmetic::div_mod::lemma_fundamental_div_mod(len, stride);
                assert(count * stride == len);
                assert((count + 1) * stride == len + stride) by (nonlinear_arith)
                    requires
                        count * stride == len,
                ;
                vstd::arithmetic::div_mod::lemma_div_by_multiple(count + 1, stride);
                vstd::arithmetic::div_mod::lemma_mod_multiples_basic(count + 1, stride);
                assert(0 <= count) by {
                    vstd::arithmetic::div_mod::lemma_div_pos_is_pos(len, stride);
                }
                lemma_push_then_value(old(self).bytes(), data@, stride, count);
                assert forall|i: int| 0 <= i < count implies #[trigger] final(self).value(i) == old(self).value(i) by {
                    lemma_push_then_value(old(self).bytes(), data@, stride, i);
                }
            }
        }
    }

    /// Removes the bytes of value `index`, moving the later values down. The
    /// value's destructor is the caller's to run beforehand.
    pub fn remove(&mut self, index: usize)
        requires
            (index + 1) * old(self).stride() <= old(self).bytes().len(),
        ensures
            final(self).spec_def() == old(self).spec_def(),
            final(self).bytes() == old(self).bytes().subrange(0, index * old(self).stride())
                + old(self).bytes().subrange(
                index * old(self).stride() + old(self).stride(),
                old(self).bytes().len() as int,
            ),
            old(self).whole() ==> {
                &&& final(self).whole()
                &&& final(self).count() == old(self).count() - 1
                &&& forall|j: int| 0 <= j < index ==> #[trigger] final(self).value(j) == old(self).value(j)
                &&& forall|j: int| index <= j < old(self).count() - 1 ==> #[trigger] final(self).value(j) == old(
                    self,
                ).value(j + 1)
            },
    {
        proof {
            assert(self.data.len() == self.data@.len());
        }
        let range = self.get_index_range(index);
        let mut removed = self.data.split_off(range.start);
        let mut tail = removed.split_off(range.end - range.start);
        self.data.append(&mut tail);
        proof {
            if old(self).whole() {
                let stride = old(self).stride();
                let old_b = old(self).bytes();
                let new_b = self.bytes();
                let i = index as int;
                let len = old_b.len() as int;
                let count = old(self).count();
                assert(new_b =~= old_b.subrange(0, i * stride) + old_b.subrange(i * stride + stride, len));
                vstd::arithmetic::div_mod::lemma_fundamental_div_mod(len, stride);
                assert(count * stride == len);
                assert(i * stride + stride == (i + 1) * stride) by (nonlinear_arith);
                assert((i + 1) * stride <= len);
                assert(new_b.len() == len - stride);
                assert((count - 1) * stride == len - stride) by (nonlinear_arith)
                    requires
                        count * stride == len,
                ;
                assert(i + 1 <= count) by (nonlinear_arith)
                    requires
                        (i + 1) * stride <= count * stride,
                        stride > 0,
                ;
                vstd::arithmetic::div_mod::lemma_div_by_multiple(count - 1, stride);
                vstd::arithmetic::div_mod::lemma_mod_multiples_basic(count - 1, stride);
                assert forall|j: int| 0 <= j < index implies #[trigger] self.value(j) == old(self).value(j) by {
                    assert((j + 1) * stride <= i * stride) by (nonlinear_arith)
                        requires
                            j + 1 <= i,
                            stride > 0,
                    ;
                    assert(j * stride + stride == (j + 1) * stride) by (nonlinear_arith);
                    assert(0 <= j * stride) by (nonlinear_arith)
                        requires
                            0 <= j,
                            stride > 0,
                    ;
                    assert(new_b.subrange(j * stride, j * stride + stride) =~= old_b.subrange(
                        j * stride,
                        j * stride + stride,
                    ));
                }
                assert forall|j: int| index <= j < count - 1 implies #[trigger] self.value(j) == old(self).value(j + 1) by {
                    assert(i * stride <= j * stride) by (nonlinear_arith)
                        requires
                            i <= j,
                            stride > 0,
                    ;
                    assert((j + 1) * stride == j * stride + stride) by (nonlinear_arith);
                    assert((j + 2) * stride == j * stride + 2 * stride) by (nonlinear_arith);
                    assert((j + 2) * stride <= count * stride) by (nonlinear_arith)
                        requires
                            j + 2 <= count,
                            stride > 0,
                    ;
                    assert(new_b.subrange(j * stride, j * stride + stride) =~= old_b.subrange(
                        (j + 1) * stride,
                        (j + 1) * stride + stride,
                    ));
                }
            }
        }
    }

    /// The bytes after value `index` is removed by moving the last whole
    /// value into its place: the bytes end after the value before the last.
    pub open spec fn swap_removed(&self, index: int) -> Seq<u8> {
        let stride = self.stride();
        let last = self.count() - 1;
        if index == last {
            self.bytes().subrange(0, last * stride)
        } else {
            self.bytes().subrange(0, index * stride) + self.value(last) + self.bytes().subrange(
                index * stride + stride,
                last * stride,
            )
        }
    }

    /// Removes value `index` by moving the last value into its place; the
    /// values keep one value's bytes fewer. The value's destructor is the
    /// caller's to run beforehand.
    pub fn swap_remove(&mut self, index: usize)
        requires
            old(self).stride() > 0,
            (index + 1) * old(self).stride() <= old(self).bytes().len(),
        ensures
            final(self).bytes() == old(self).swap_removed(index as int),
            final(self).spec_def() == old(self).spec_def(),
            old(self).whole() ==> {
                &&& final(self).whole()
                &&& final(self).count() == old(self).count() - 1
                &&& index < old(self).count() - 1 ==> final(self).value(index as int) == old(self).value(
                    old(self).count() - 1,
                )
                &&& forall|j: int|
                    0 <= j < old(self).count() - 1 && j != index ==> #[trigger] final(self).value(j)
                        == old(self).value(j)
            },
    {
        let ghost old_b = self.data@;
        let ghost stride_i = self.stride();
        let ghost len = old_b.len() as int;
        proof {
            assert(self.data.len() == self.data@.len());
            vstd::arithmetic::div_mod::lemma_div_by_multiple(index + 1, stride_i);
            vstd::arithmetic::div_mod::lemma_div_is_ordered((index + 1) * stride_i, len, stride_i);
            vstd::arithmetic::div_mod::lemma_fundamental_div_mod(len, stride_i);
            vstd::arithmetic::div_mod::lemma_mod_pos_bound(len, stride_i);
        }
        let count = self.len();
        let last = count - 1;
        let stride = self.def.byte_size;
        proof {
            assert(count == len / stride_i);
            assert(count * stride_i <= len) by (nonlinear_arith)
                requires
                    len == stride_i * (len / stride_i) + len % stride_i,
                    0 <= len % stride_i,
                    count == len / stride_i,
            ;
            assert(last * stride_i + stride_i == count * stride_i) by (nonlinear_arith)
                requires
                    last == count - 1,
            ;
            assert((index + 1) * stride_i == index * stride_i + stride_i) by (nonlinear_arith);
        }
        let from = self.get_index_range(last);
        let to = self.get_index_range(index);
        if index != last {
            proof {
                assert((index + 1) * stride_i <= last * stride_i) by (nonlinear_arith)
                    requires
                        index + 1 <= last,
                        stride_i > 0,
                ;
            }
            let mut b: usize = 0;
            while b < stride
                invariant
                    stride == stride_i,
                    self.def == old(self).def,
                    old_b.len() == len,
                    self.data@.len() == len,
                    from.start == last * stride_i,
                    from.end == from.start + stride_i,
                    to.start == index * stride_i,
                    to.end == to.start + stride_i,
                    to.end <= from.start,
                    from.end <= len,
                    b <= stride,
                    self.data@ == old_b.subrange(0, to.start as int) + old_b.subrange(
                        from.start as int,
                        from.start + b,
                    ) + old_b.subrange(to.start + b, len),
                decreases stride - b,
            {
                let x = self.data[from.start + b];
                proof {
                    let k = from.start + b;
                    let head = old_b.subrange(0, to.start as int);
                    let moved = old_b.subrange(from.start as int, from.start + b);
                    let tail = old_b.subrange(to.start + b, len);
                    assert(head.len() == to.start);
                    assert(moved.len() == b);
                    assert(to.start + b <= k < len);
                    assert(self.data@ == head + moved + tail);
                    assert((head + moved).len() == to.start + b);
                    assert(self.data@[k] == tail[k - (to.start + b)]);
                    assert(x == old_b[from.start + b]);
                }
                self.data.set(to.start + b, x);
                proof {
                    assert(self.data@ =~= old_b.subrange(0, to.start as int) + old_b.subrange(
                        from.start as int,
                        from.start + b + 1,
                    ) + old_b.subrange(to.start + b + 1, len));
                }
                b = b + 1;
            }
        }
        self.data.truncate(from.start);
        proof {
            let new_b = self.data@;
            if index == last {
                assert(new_b =~= old(self).swap_removed(index as int));
            } else {
                assert(new_b =~= old(self).swap_removed(index as int));
            }
            if old(self).whole() {
                assert(new_b.len() == last * stride_i);
                vstd::arithmetic::div_mod::lemma_div_by_multiple(last as int, stride_i);
                vstd::arithmetic::div_mod::lemma_mod_multiples_basic(last as int, stride_i);
                assert forall|j: int| 0 <= j < old(self).count() - 1 && j != index implies #[trigger] self.value(j)
                    == old(self).value(j) by {
                    assert(0 <= j * stride_i) by (nonlinear_arith)
                        requires
                            0 <= j,
                            stride_i > 0,
                    ;
                    assert(j * stride_i + stride_i == (j + 1) * stride_i) by (nonlinear_arith);
                    assert((j + 1) * stride_i <= last * stride_i) by (nonlinear_arith)
                        requires
                            j + 1 <= last,
                            stride_i > 0,
                    ;
                    if j < index {
                        assert((j + 1) * stride_i <= index * stride_i) by (nonlinear_arith)
                            requires
                                j + 1 <= index,
                                stride_i > 0,
                        ;
                    } else {
                        assert((index + 1) * stride_i <= j * stride_i) by (nonlinear_arith)
                            requires
                                index + 1 <= j,
                                stride_i > 0,
                        ;
                    }
                    assert(new_b.subrange(j * stride_i, j * stride_i + stride_i) =~= old_b.subrange(
                        j * stride_i,
                        j * stride_i + stride_i,
                    ));
                }
                if index < last {
                    assert(new_b.subrange(index * stride_i, index * stride_i + stride_i) =~= old(self).value(
                        last as int,
                    ));
                }
            }
        }
    }

    /// Removes all values. Their destructors are the caller's to run
    /// beforehand.
    pub fn clear(&mut self)
        ensures
            final(self).bytes() == Seq::<u8>::empty(),
            final(self).spec_def() == old(self).spec_def(),
    {
        self.data.clear();
    }

    /// The number of whole values stored.
    pub fn len(&self) -> (r: usize)
        requires
            self.stride() > 0,
        ensures
            r == self.count(),
    {
        self.data.len() / self.def.byte_size
    }
}

/// A type whose values can be stored by the runtime: it names its run-time
/// definition and can show its value as raw bytes.
pub trait MetaType: Sized {
    fn meta_id() -> MetaTypeId;

    fn meta_def() -> &'static MetaTypeDefinition;

    fn as_bytes(&self) -> &[u8];
}

/// `d` is a definition `T::meta_def` can return.
pub open spec fn is_def_of<T: MetaType>(d: &'static MetaTypeDefinition) -> bool {
    call_ensures(T::meta_def, (), d)
}

/// `id` is an id `T::meta_id` can return.
pub open spec fn is_id_of<T: MetaType>(id: MetaTypeId) -> bool {
    call_ensures(T::meta_id, (), id)
}

/// `bytes` are bytes `value.as_bytes()` can return.
pub open spec fn are_bytes_of<T: MetaType>(value: &T, bytes: &[u8]) -> bool {
    call_ensures(T::as_bytes, (value,), bytes)
}

/// The parts of `T` agree as a derived implementation makes them agree: the
/// definition carries the id, has a size, and values show that many bytes.
pub open spec fn meta_type_consistent<T: MetaType>(value: &T) -> bool {
    &&& forall|d: &'static MetaTypeDefinition| #[trigger] is_def_of::<T>(d) ==> d.byte_size > 0
    &&& forall|d: &'static MetaTypeDefinition, id: MetaTypeId|
        #[trigger] is_def_of::<T>(d) && #[trigger] is_id_of::<T>(id) ==> d.id == id
    &&& forall|d: &'static MetaTypeDefinition, b: &[u8]|
        #[trigger] is_def_of::<T>(d) && #[trigger] are_bytes_of::<T>(value, b) ==> b@.len() == d.byte_size
}

/// The registered meta types, by id and by name.
pub struct MetaTypeLibrary {
    pub id_to_def: HashMap<usize, &'static MetaTypeDefinition>,
    pub ident_to_def: Vec<&'static MetaTypeDefinition>,
}

impl MetaTypeLibrary {
    /// The definitions registered under distinct names.
    pub open spec fn idents_distinct(&self) -> bool {
        forall|j1: int, j2: int|
            0 <= j1 < self.ident_to_def@.len() && 0 <= j2 < self.ident_to_def@.len() && j1 != j2
                ==> (#[trigger] self.ident_to_def@[j1]).ident@ != (#[trigger] self.ident_to_def@[j2]).ident@
    }

    /// Some registered definition has this name.
    pub open spec fn has_ident(&self, ident: Seq<char>) -> bool {
        exists|j: int| 0 <= j < self.ident_to_def@.len() && (#[trigger] self.ident_to_def@[j]).ident@ == ident
    }

    pub fn new() -> (r: Self)
        ensures
            r.id_to_def@ == Map::<usize, &'static MetaTypeDefinition>::empty(),
            r.ident_to_def@ == Seq::<&'static MetaTypeDefinition>::empty(),
            r.idents_distinct(),
    {
        Self::default()
    }

    /// Registers the definition of `T`; its id and its name must be new.
    pub fn register_type<T: MetaType>(&mut self)
        requires
            forall|d: &'static MetaTypeDefinition| #[trigger] is_def_of::<T>(d) ==> !old(self).id_to_def@.contains_key(d.id.0)
                && !old(self).has_ident(d.ident@),
            old(self).idents_distinct(),
        ensures
            exists|d: &'static MetaTypeDefinition|
                #[trigger] is_def_of::<T>(d) && final(self).id_to_def@ == old(self).id_to_def@.insert(d.id.0, d)
                    && final(self).ident_to_def@ == old(self).ident_to_def@.push(d),
            final(self).idents_distinct(),
    {
        let def = T::meta_def();
        proof {
            assert(is_def_of::<T>(def));
        }
        self.register_type_by_def(def);
    }

    /// Registers `def`; its id and its name must be new.
    pub fn register_type_by_def(&mut self, def: &'static MetaTypeDefinition)
        requires
            !old(self).id_to_def@.contains_key(def.id.0),
            !old(self).has_ident(def.ident@),
            old(self).idents_distinct(),
        ensures
            final(self).id_to_def@ == old(self).id_to_def@.insert(def.id.0, def),
            final(self).ident_to_def@ == old(self).ident_to_def@.push(def),
            final(self).idents_distinct(),
    {
        broadcast use vstd::std_specs::hash::group_hash_axioms;
        let had_id = self.id_to_def.insert(def.id.0, def).is_some();
        proof {
            assert(!had_id);
        }
        self.ident_to_def.push(def);
        proof {
            let s = self.ident_to_def@;
            assert forall|j1: int, j2: int|
                0 <= j1 < s.len() && 0 <= j2 < s.len() && j1 != j2 implies (#[trigger] s[j1]).ident@
                    != (#[trigger] s[j2]).ident@ by {
                if j1 < s.len() - 1 && j2 < s.len() - 1 {
                    assert(s[j1] == old(self).ident_to_def@[j1]);
                    assert(s[j2] == old(self).ident_to_def@[j2]);
                } else if j1 < s.len() - 1 {
                    assert(s[j1] == old(self).ident_to_def@[j1]);
                } else {
                    assert(s[j2] == old(self).ident_to_def@[j2]);
                }
            }
        }
    }
}

impl Default for MetaTypeLibrary {
    fn default() -> (r: Self)
        ensures
            r.id_to_def@ == Map::<usize, &'static MetaTypeDefinition>::empty(),
            r.ident_to_def@ == Seq::<&'static MetaTypeDefinition>::empty(),
    {
        MetaTypeLibrary { id_to_def: HashMap::new(), ident_to_def: Vec::new() }
    }
}

/// A queue of values of one meta type, stored as raw bytes.
pub struct MetaValueQueue {
    data: Vec<u8>,
    def: &'static MetaTypeDefinition,
}

/// Where a stored value lives: its type's table and its position there.
pub struct StoreValueRef {
    pub ty: StoreValueTypeId,
    pub index: usize,
}

/// The values of one type in a store.
pub struct StoreValueTable {
    pub values: MetaValueVec,
    pub value_ids: Vec<StoreValueId>,
}

/// Allocator and owner for meta values.
pub struct MetaValueStore {
    values: StableTable<StoreValueTypeId, StoreValueTable>,
    id_to_value: StableTable<StoreValueId, StoreValueRef>,
    def_to_type: HashMap<usize, StoreValueTypeId>,
}

/// The table a type key names in a store's table of types.
pub open spec fn type_table(
    values: TableModel<StoreValueTypeId, StoreValueTable>,
    ty: StoreValueTypeId,
) -> StoreValueTable {
    values.lookup(ty.0).unwrap()
}

impl MetaValueStore {
    /// The tables of the stored types.
    pub closed spec fn tables(&self) -> TableModel<StoreValueTypeId, StoreValueTable> {
        self.values@
    }

    /// Where each stored value lives.
    pub closed spec fn refs(&self) -> TableModel<StoreValueId, StoreValueRef> {
        self.id_to_value@
    }

    /// The table of each stored type, by type id.
    pub closed spec fn types(&self) -> Map<usize, StoreValueTypeId> {
        self.def_to_type@
    }

    /// The bytes of the value stored under `id`, if `id` names one.
    pub open spec fn value_of(&self, id: StoreValueId) -> Option<Seq<u8>> {
        match self.refs().lookup(id.0) {
            Some(r) => Some(type_table(self.tables(), r.ty).values.value(r.index as int)),
            None => None,
        }
    }

    /// The definition values of type id `id` are stored with, if any.
    pub open spec fn type_def(&self, id: usize) -> Option<&'static MetaTypeDefinition> {
        if self.types().contains_key(id) {
            Some(type_table(self.tables(), self.types()[id]).values.spec_def())
        } else {
            None
        }
    }

    /// Tables and values are only ever added: every slot is at version 0 and
    /// holds a value; every type id names a table of that type; every value
    /// names a whole value of a table.
    pub closed spec fn wf(&self) -> bool {
        let tables = self.values@;
        let refs = self.id_to_value@;
        &&& tables.wf()
        &&& refs.wf()
        &&& tables.unused.len() == 0
        &&& refs.unused.len() == 0
        &&& forall|i: int| 0 <= i < tables.entries.len() ==> (#[trigger] tables.entries[i]).version == 0
        &&& forall|i: int| 0 <= i < refs.entries.len() ==> (#[trigger] refs.entries[i]).version == 0
        &&& forall|i: int|
            0 <= i < tables.entries.len() ==> {
                let t = (#[trigger] tables.entries[i]).value.unwrap();
                &&& t.values.stride() > 0
                &&& (t.values.bytes().len() as int) % t.values.stride() == 0
            }
        &&& forall|id: usize|
            #[trigger] self.def_to_type@.contains_key(id) ==> {
                let ty = self.def_to_type@[id];
                &&& tables.lookup(ty.0) is Some
                &&& type_table(tables, ty).values.spec_def().id.0 == id
            }
        &&& forall|i: int|
            0 <= i < refs.entries.len() ==> {
                let r = (#[trigger] refs.entries[i]).value.unwrap();
                &&& tables.lookup(r.ty.0) is Some
                &&& (r.index + 1) * type_table(tables, r.ty).values.stride() <= type_table(
                    tables,
                    r.ty,
                ).values.bytes().len()
            }
    }

    pub fn new() -> (r: Self)
        ensures
            r.wf(),
            forall|id: StoreValueId| r.value_of(id) is None,
    {
        Self::default()
    }

    /// The bytes of the value stored under `value`.
    pub fn get(&self, value: StoreValueId) -> (r: &[u8])
        requires
            self.wf(),
            self.value_of(value) is Some,
        ensures
            r@ == self.value_of(value).unwrap(),
    {
        let path = self.id_to_value.index(value);
        let table = self.values.index(path.ty);
        proof {
            let i = value.0.index as int;
            assert(self.id_to_value@.entries[i].value.unwrap() == *path);
        }
        table.values.get(path.index)
    }

    /// Moves `value` into the store, in the table of its type (made on first
    /// use), and returns the id it can be read back under.
    pub fn add<T: MetaType>(&mut self, value: T) -> (r: StoreValueId)
        requires
            old(self).wf(),
            meta_type_consistent(&value),
            forall|id: MetaTypeId, b: &[u8]|
                #[trigger] is_id_of::<T>(id) && #[trigger] are_bytes_of(&value, b) && old(self).type_def(id.0) is Some
                    ==> old(self).type_def(id.0).unwrap().byte_size == b@.len(),
            old(self).refs().entries.len() < usize::MAX,
            old(self).tables().entries.len() < usize::MAX,
        ensures
            final(self).wf(),
            old(self).value_of(r) is None,
            exists|b: &[u8]| #[trigger] are_bytes_of(&value, b) && final(self).value_of(r) == Some(b@),
            forall|other: StoreValueId| other != r ==> final(self).value_of(other) == old(self).value_of(other),
            exists|id: MetaTypeId|
                #[trigger] is_id_of::<T>(id) && (old(self).type_def(id.0) is Some ==> final(self).type_def(id.0)
                    == old(self).type_def(id.0)) && (old(self).type_def(id.0) is None ==> exists|d: &'static MetaTypeDefinition|
                    #[trigger] is_def_of::<T>(d) && final(self).type_def(id.0) == Some(d)),
    {
        broadcast use vstd::std_specs::hash::group_hash_axioms;
        let ghost tables0 = self.values@;
        let ghost refs0 = self.id_to_value@;
        let meta_id = T::meta_id();
        proof {
            assert(is_id_of::<T>(meta_id));
        }
        let value_type_id = match self.def_to_type.get(&meta_id.0) {
            Some(value_type_id) => *value_type_id,
            None => {
                let def = T::meta_def();
                proof {
                    assert(is_def_of::<T>(def));
                }
                let table = StoreValueTable { values: MetaValueVec::new(def), value_ids: Vec::new() };
                let ghost new_table = table;
                let value_type_id = self.values.add(table);
                proof {
                    assert(self.values@.entries[tables0.entries.len() as int].value == Some(new_table));
                }
                self.def_to_type.insert(meta_id.0, value_type_id);
                value_type_id
            },
        };
        let ghost tables1 = self.values@;
        let ghost k = value_type_id.0.index as int;
        proof {
            // The tables present before are unchanged, and the type's table is
            // a table of `T`.
            assert(tables1.lookup(value_type_id.0) is Some);
            assert(tables1.entries.len() >= tables0.entries.len());
            assert forall|i: int| 0 <= i < tables0.entries.len() && i != k implies tables1.entries[i] == tables0.entries[i] by {
            }
            assert forall|i: int| 0 <= i < tables1.entries.len() implies {
                let t = (#[trigger] tables1.entries[i]).value.unwrap();
                &&& tables1.entries[i].value is Some
                &&& tables1.entries[i].version == 0
                &&& t.values.stride() > 0
                &&& (t.values.bytes().len() as int) % t.values.stride() == 0
            } by {
                if i < tables0.entries.len() {
                    assert(tables0.entries[i].version == 0);
                    assert(tables0.entries[i].value is Some);
                } else {
                    let t = tables1.entries[i].value.unwrap();
                    assert(t.values.bytes().len() == 0);
                    assert(t.values.stride() > 0);
                    assert((0int) % t.values.stride() == 0);
                }
            }
        }
        let value_table = self.values.index_mut(value_type_id);
        let index = value_table.values.len();
        let ghost len1 = value_table.values.bytes().len() as int;
        let ghost stride = value_table.values.stride();
        proof {
            let t = tables1.entries[k].value.unwrap();
            assert(tables1.lookup(value_type_id.0) == Some(t));
            assert(*value_table == t);
            assert(stride > 0 && len1 % stride == 0);
            assert(index as int == len1 / stride);
            assert(index * stride == len1) by {
                vstd::arithmetic::div_mod::lemma_fundamental_div_mod(len1, stride);
            }
        }
        let bytes = value.as_bytes();
        proof {
            assert(are_bytes_of(&value, bytes));
        }
        value_table.values.push(bytes);
        let ghost pushed = value_table.values.bytes();
        forget_value(value);
        let value_id = self.id_to_value.add(StoreValueRef { ty: value_type_id, index });
        proof {
            let tables2 = self.values@;
            let refs3 = self.id_to_value@;
            assert(pushed.subrange(index * stride, index * stride + stride) =~= bytes@);
            assert forall|i: int| 0 <= i < tables2.entries.len() && i != k implies tables2.entries[i] == tables1.entries[i] by {
            }
            assert forall|i: int| 0 <= i < refs0.entries.len() implies refs3.entries[i] == refs0.entries[i] by {
            }
            // Values stored before keep their bytes.
            assert forall|other: StoreValueId| other != value_id implies self.value_of(other) == old(self).value_of(other) by {
                assert(refs3.lookup(other.0) == refs0.lookup(other.0));
                if refs0.lookup(other.0) is Some {
                    let oi = other.0.index as int;
                    let rf = refs0.entries[oi].value.unwrap();
                    let ti = rf.ty.0.index as int;
                    assert(tables0.lookup(rf.ty.0) is Some);
                    if ti == k {
                        let old_bytes = tables1.entries[k].value.unwrap().values.bytes();
                        assert(tables0.entries[k] == tables1.entries[k]);
                        assert((rf.index + 1) * stride <= len1);
                        assert(rf.index * stride + stride == (rf.index + 1) * stride) by (nonlinear_arith);
                        assert(0 <= rf.index * stride) by (nonlinear_arith)
                            requires
                                rf.index >= 0,
                                stride > 0;
                        assert(pushed.subrange(rf.index * stride, rf.index * stride + stride) =~= old_bytes.subrange(
                            rf.index * stride,
                            rf.index * stride + stride,
                        ));
                    } else {
                        assert(tables2.entries[ti] == tables1.entries[ti]);
                        assert(tables1.entries[ti] == tables0.entries[ti]);
                    }
                }
            }
            assert forall|i: int| 0 <= i < tables2.entries.len() implies {
                let t = (#[trigger] tables2.entries[i]).value.unwrap();
                &&& tables2.entries[i].value is Some
                &&& tables2.entries[i].version == 0
                &&& t.values.stride() > 0
                &&& (t.values.bytes().len() as int) % t.values.stride() == 0
            } by {
                assert(tables1.entries[i].value is Some);
                if i == k {
                    assert((len1 + stride) % stride == 0) by {
                        vstd::arithmetic::div_mod::lemma_mod_add_multiples_vanish(len1, stride);
                        vstd::arithmetic::div_mod::lemma_fundamental_div_mod(len1, stride);
                    }
                }
            }
            assert forall|i: int| 0 <= i < refs3.entries.len() implies {
                let r = (#[trigger] refs3.entries[i]).value.unwrap();
                &&& refs3.entries[i].value is Some
                &&& refs3.entries[i].version == 0
                &&& tables2.lookup(r.ty.0) is Some
                &&& (r.index + 1) * type_table(tables2, r.ty).values.stride() <= type_table(
                    tables2,
                    r.ty,
                ).values.bytes().len()
            } by {
                if i < refs0.entries.len() {
                    let rf = refs0.entries[i].value.unwrap();
                    assert(refs0.entries[i].value is Some);
                    assert(tables0.lookup(rf.ty.0) is Some);
                    let ti = rf.ty.0.index as int;
                    if ti != k {
                        assert(tables2.entries[ti] == tables1.entries[ti]);
                    } else {
                        assert(tables0.entries[k] == tables1.entries[k]);
                    }
                } else {
                    assert((index + 1) * stride == index * stride + stride) by (nonlinear_arith);
                }
            }
            assert forall|id: usize| #[trigger] self.def_to_type@.contains_key(id) implies {
                let ty = self.def_to_type@[id];
                &&& tables2.lookup(ty.0) is Some
                &&& type_table(tables2, ty).values.spec_def().id.0 == id
            } by {
                let ty = self.def_to_type@[id];
                if id != meta_id.0 {
                    assert(old(self).def_to_type@.contains_key(id));
                    assert(tables0.lookup(ty.0) is Some);
                    let ti = ty.0.index as int;
                    if ti != k {
                        assert(tables2.entries[ti] == tables1.entries[ti]);
                    } else {
                        assert(tables0.entries[k] == tables1.entries[k]);
                    }
                }
            }
        }
        value_id
    }
}

impl Default for MetaValueStore {
    fn default() -> (r: Self)
        ensures
            r.wf(),
            forall|id: StoreValueId| r.value_of(id) is None,
    {
        broadcast use vstd::std_specs::hash::group_hash_axioms;
        MetaValueStore { values: StableTable::new(), id_to_value: StableTable::new(), def_to_type: HashMap::new() }
    }
}

/// Hands a value over without running its destructor: its bytes now live in
/// a store.
#[verifier::external_body]
fn forget_value<T>(value: T) {
    std::mem::forget(value);
}

/// Appending a value to whole values makes it the last value, and leaves the
/// values before it as they were.
pub proof fn lemma_push_then_value(bytes: Seq<u8>, data: Seq<u8>, stride: int, index: int)
    requires
        stride > 0,
        (bytes.len() as int) % stride == 0,
        data.len() == stride,
        0 <= index <= bytes.len() as int / stride,
    ensures
        index == bytes.len() as int / stride ==> (bytes + data).subrange(index * stride, index * stride + stride) == data,
        index < bytes.len() as int / stride ==> (bytes + data).subrange(index * stride, index * stride + stride)
            == bytes.subrange(index * stride, index * stride + stride),
{
    let count = bytes.len() as int / stride;
    vstd::arithmetic::div_mod::lemma_fundamental_div_mod(bytes.len() as int, stride);
    assert(count * stride == bytes.len());
    if index == count {
        assert((bytes + data).subrange(index * stride, index * stride + stride) =~= data);
    } else {
        assert(index + 1 <= count);
        assert((index + 1) * stride <= count * stride) by (nonlinear_arith)
            requires
                index + 1 <= count,
                stride > 0,
        ;
        assert(index * stride + stride == (index + 1) * stride) by (nonlinear_arith);
        assert(0 <= index * stride) by (nonlinear_arith)
            requires
                index >= 0,
                stride > 0,
        ;
        assert((bytes + data).subrange(index * stride, index * stride + stride) =~= bytes.subrange(
            index * stride,
            index * stride + stride,
        ));
    }
}

/// Value `j` of whole values lies inside the bytes.
proof fn lemma_value_bounds(len: int, stride: int, j: int)
    requires
        stride > 0,
        len >= 0,
        len % stride == 0,
        0 <= j < len / stride,
    ensures
        0 <= j * stride,
        j * stride + stride <= len,
{
    vstd::arithmetic::div_mod::lemma_fundamental_div_mod(len, stride);
    let count = len / stride;
    assert(0 <= j * stride) by (nonlinear_arith)
        requires
            0 <= j,
            stride > 0,
    ;
    assert(j * stride + stride <= count * stride) by (nonlinear_arith)
        requires
            j + 1 <= count,
            stride > 0,
    ;
}

/// Writing a value's bytes through `get_mut` changes that value alone: the
/// bytes stay whole values, as many as before, value `index` reads back what
/// was written and every other value is as it was.
pub proof fn lemma_write_then_value(before: MetaValueVec, after: MetaValueVec, index: int, written: Seq<u8>)
    requires
        before.whole(),
        0 <= index < before.count(),
        written.len() == before.stride(),
        after.spec_def() == before.spec_def(),
        after.bytes() == before.bytes().subrange(0, index * before.stride()) + written + before.bytes().subrange(
            index * before.stride() + before.stride(),
            before.bytes().len() as int,
        ),
    ensures
        after.whole(),
        after.count() == before.count(),
        after.value(index) == written,
        forall|j: int| 0 <= j < before.count() && j != index ==> #[trigger] after.value(j) == before.value(j),
{
    let stride = before.stride();
    let old_b = before.bytes();
    let new_b = after.bytes();
    let i = index;
    lemma_value_bounds(old_b.len() as int, stride, i);
    assert(new_b.len() == old_b.len());
    assert forall|j: int| 0 <= j < before.count() && j != i implies #[trigger] after.value(j) == before.value(j) by {
        lemma_value_bounds(old_b.len() as int, stride, j);
        if j < i {
            assert((j + 1) * stride <= i * stride) by (nonlinear_arith)
                requires
                    j + 1 <= i,
                    stride > 0,
            ;
            assert(j * stride + stride == (j + 1) * stride) by (nonlinear_arith);
            assert(new_b.subrange(j * stride, j * stride + stride) =~= old_b.subrange(j * stride, j * stride + stride));
        } else {
            assert((i + 1) * stride <= j * stride) by (nonlinear_arith)
                requires
                    i + 1 <= j,
                    stride > 0,
            ;
            assert(i * stride + stride == (i + 1) * stride) by (nonlinear_arith);
            assert(new_b.subrange(j * stride, j * stride + stride) =~= old_b.subrange(j * stride, j * stride + stride));
        }
    }
    assert(new_b.subrange(i * stride, i * stride + stride) =~= written);
}

} // verus!
