use brane::meta_type::{
    MetaFieldDefinition, MetaType, MetaTypeDefinition, MetaTypeId, MetaTypeLibrary, MetaValueStore,
    MetaValueVec, StoreValueId,
};
use brane::stable_table::StableTableKey;

fn leak(def: MetaTypeDefinition) -> &'static MetaTypeDefinition {
    Box::leak(Box::new(def))
}

fn u16_def() -> &'static MetaTypeDefinition {
    leak(MetaTypeDefinition { id: MetaTypeId(16), ident: "u16", byte_size: 2, fields: &[] })
}

fn pair_def() -> &'static MetaTypeDefinition {
    let inner = u16_def();
    let fields: &'static [MetaFieldDefinition] = Box::leak(
        vec![
            MetaFieldDefinition { ident: "x", byte_offset: 0, def: inner },
            MetaFieldDefinition { ident: "y", byte_offset: 2, def: inner },
        ]
        .into_boxed_slice(),
    );
    leak(MetaTypeDefinition { id: MetaTypeId(32), ident: "Pair", byte_size: 4, fields })
}

/// A four-byte value kept as its bytes.
struct Word([u8; 4]);

impl MetaType for Word {
    fn meta_id() -> MetaTypeId {
        MetaTypeId(4)
    }

    fn meta_def() -> &'static MetaTypeDefinition {
        leak(MetaTypeDefinition { id: MetaTypeId(4), ident: "Word", byte_size: 4, fields: &[] })
    }

    fn as_bytes(&self) -> &[u8] {
        &self.0
    }
}

/// A two-byte value kept as its bytes.
struct Half([u8; 2]);

impl MetaType for Half {
    fn meta_id() -> MetaTypeId {
        MetaTypeId(2)
    }

    fn meta_def() -> &'static MetaTypeDefinition {
        leak(MetaTypeDefinition { id: MetaTypeId(2), ident: "Half", byte_size: 2, fields: &[] })
    }

    fn as_bytes(&self) -> &[u8] {
        &self.0
    }
}

#[test]
fn field_data_is_the_field_bytes() {
    let def = pair_def();
    let value = [1u8, 2, 3, 4];
    assert_eq!(def.get_field_data(&value, 0), &[1, 2]);
    assert_eq!(def.get_field_data(&value, 1), &[3, 4]);
}

#[test]
fn field_data_mut_writes_only_the_field() {
    let def = pair_def();
    let mut value = [1u8, 2, 3, 4];
    {
        let field = def.get_field_data_mut(&mut value, 1);
        field[0] = 30;
        field[1] = 40;
    }
    assert_eq!(value, [1, 2, 30, 40]);
}

#[test]
fn value_vec_push_get_len() {
    let mut vec = MetaValueVec::new(u16_def());
    assert_eq!(vec.len(), 0);
    vec.push(&[1, 2]);
    vec.push(&[3, 4]);
    assert_eq!(vec.len(), 2);
    assert_eq!(vec.get(0), &[1, 2]);
    assert_eq!(vec.get(1), &[3, 4]);
    assert_eq!(vec.get_index_range(1), 2..4);
    assert_eq!(vec.get_def().ident, "u16");
}

#[test]
fn value_vec_get_mut_and_remove() {
    let mut vec = MetaValueVec::new(u16_def());
    vec.push(&[1, 2]);
    vec.push(&[3, 4]);
    vec.push(&[5, 6]);
    vec.get_mut(1)[0] = 9;
    assert_eq!(vec.get(1), &[9, 4]);
    vec.remove(0);
    assert_eq!(vec.len(), 2);
    assert_eq!(vec.get(0), &[9, 4]);
    assert_eq!(vec.get(1), &[5, 6]);
}

#[test]
fn value_vec_swap_remove_moves_last_value_and_clear_empties() {
    let word = leak(MetaTypeDefinition { id: MetaTypeId(40), ident: "u32", byte_size: 4, fields: &[] });
    let mut vec = MetaValueVec::new(word);
    vec.push(&1u32.to_ne_bytes());
    vec.push(&2u32.to_ne_bytes());
    vec.push(&3u32.to_ne_bytes());
    vec.swap_remove(0);
    assert_eq!(vec.len(), 2);
    assert_eq!(vec.get(0), &3u32.to_ne_bytes());
    assert_eq!(vec.get(1), &2u32.to_ne_bytes());
    // Removing the last value only drops it.
    vec.swap_remove(1);
    assert_eq!(vec.len(), 1);
    assert_eq!(vec.get(0), &3u32.to_ne_bytes());
    vec.clear();
    assert_eq!(vec.len(), 0);
}

#[test]
fn library_registers_types() {
    let mut library = MetaTypeLibrary::new();
    library.register_type_by_def(u16_def());
    library.register_type::<Word>();
    assert_eq!(library.id_to_def.len(), 2);
    assert_eq!(library.id_to_def[&4].ident, "Word");
    assert_eq!(library.ident_to_def.len(), 2);
    assert_eq!(library.ident_to_def[0].ident, "u16");
}

#[test]
fn store_reads_back_what_was_added() {
    let mut store = MetaValueStore::new();
    let a = store.add(Word([1, 2, 3, 4]));
    let b = store.add(Half([5, 6]));
    let c = store.add(Word([7, 8, 9, 10]));
    assert_eq!(store.get(a), &[1, 2, 3, 4]);
    assert_eq!(store.get(b), &[5, 6]);
    assert_eq!(store.get(c), &[7, 8, 9, 10]);
    assert_eq!(a, StoreValueId(StableTableKey { index: 0, version: 0 }));
    assert_eq!(c, StoreValueId(StableTableKey { index: 2, version: 0 }));
}
