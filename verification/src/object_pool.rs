use crate::bytecode::{
    bencode_tokens, decode_value, encode_value, lemma_values_depth_bound, lemma_values_model_index,
    lemma_values_model_push, starts_with, value_bytes, value_depth, value_tokens, values_model,
    BencodeItem, BencodeValue, BytecodeError, ValueModel,
};
use vstd::prelude::*;

verus! {

/// The key value which never refers to an item inside an [`ObjectPool`]
pub fn key_none_value() -> (key: usize)
    ensures
        key == usize::MAX,
{
    usize::MAX
}

/// Tells if the given key could refer to an item of an [`ObjectPool`],
/// i.e. it is not the marker returned by [`key_none_value`]
pub fn key_might_be_valid(key: usize) -> (valid: bool)
    ensures
        valid == (key != usize::MAX),
{
    key < usize::MAX
}

/// The value marking the absence of an element, stored in places where
/// 32 bit keys or palette indices are expected (e.g. in GPU buffers)
pub fn empty_marker() -> (marker: u32)
    ensures
        marker == u32::MAX,
{
    u32::MAX
}

/// The value marking the absence of a 16 bit palette index
pub fn empty_marker_u16() -> (marker: u16)
    ensures
        marker == u16::MAX,
{
    u16::MAX
}

/// The key the next allocation in a pool hands out, given the reserved items, the number of
/// slots and the free-slot hint: the slot at the hint if it is free, else the slot after it if
/// that one is free, else a new slot at the end
pub open spec fn next_key<T>(items: Map<usize, T>, len: nat, hint: nat) -> nat {
    if hint < len && !items.contains_key(hint as usize) {
        hint
    } else if hint + 1 < len && !items.contains_key((hint + 1) as usize) {
        hint + 1
    } else {
        len
    }
}

/// One item in a datapool with a used flag
pub struct ReusableItem<T> {
    pub reserved: bool,
    pub item: T,
}

/// Stores re-usable objects to eliminate data allocation overhead when inserting and removing Nodes
/// Keys of removed items are handed out again by later allocations.
pub struct ObjectPool<T> {
    buffer: Vec<ReusableItem<T>>,
    first_available: usize,
}

impl<T> View for ObjectPool<T> {
    /// The items currently reserved in the pool, by their keys
    type V = Map<usize, T>;

    closed spec fn view(&self) -> Map<usize, T> {
        Map::new(
            |k: usize| k < self.buffer@.len() && self.buffer@[k as int].reserved,
            |k: usize| self.buffer@[k as int].item,
        )
    }
}

impl<T: Default> ObjectPool<T> {
    /// Number of slots the pool holds, reserved or not; every key of the pool is below it
    pub closed spec fn spec_len(&self) -> nat {
        self.buffer@.len()
    }

    /// The hint about where the next allocation starts looking for a free slot
    pub closed spec fn first_free_hint(&self) -> nat {
        self.first_available as nat
    }

    /// The item held by a slot of the pool, reserved or not: a freed slot keeps the item it
    /// held until the slot is handed out again
    pub closed spec fn slot_item(&self, key: usize) -> T {
        self.buffer@[key as int].item
    }

    /// A reserved key's slot holds the key's item
    pub proof fn lemma_slot_item(&self)
        ensures
            forall|k: usize| #[trigger] self@.contains_key(k) ==> self.slot_item(k) == self@[k],
    {
    }

    /// Internal consistency of the pool
    pub closed spec fn wf(&self) -> bool {
        self.first_available <= self.buffer@.len()
    }

    /// Every key of the pool is below the number of its slots
    pub proof fn lemma_keys_below_len(&self)
        ensures
            forall|k: usize| #[trigger] self@.contains_key(k) ==> k < self.spec_len(),
    {
    }

    /// Creates an empty pool
    pub fn with_capacity(capacity: usize) -> (pool: Self)
        ensures
            pool.wf(),
            pool@ == Map::<usize, T>::empty(),
            pool.spec_len() == 0,
    {
        let pool = ObjectPool { buffer: Vec::with_capacity(capacity), first_available: 0 };
        assert(pool@ =~= Map::<usize, T>::empty());
        pool
    }

    /// Tells if the slot after the one the hint points at is free
    fn is_next_available(&self) -> (available: bool)
        requires
            self.wf(),
        ensures
            available == (self.first_available + 1 < self.buffer@.len()
                && !self.buffer@[self.first_available + 1].reserved),
    {
        self.buffer.len() > 0 && self.first_available < self.buffer.len() - 1
            && !self.buffer[self.first_available + 1].reserved
    }

    /// Moves the first_available hint so that it points to a free slot if it can
    /// find one next to it; otherwise sets it to the length of the buffer
    fn check_first_available(&mut self) -> (found: bool)
        requires
            old(self).wf(),
        ensures
            final(self).wf(),
            final(self).buffer == old(self).buffer,
            found ==> final(self).first_available < final(self).buffer@.len()
                && !final(self).buffer@[final(self).first_available as int].reserved,
            !found ==> final(self).first_available == final(self).buffer@.len(),
            final(self).first_available == next_key(
                old(self)@,
                old(self).buffer@.len(),
                old(self).first_available as nat,
            ),
            old(self).first_available < old(self).buffer@.len() && !old(self).buffer@[old(
                self,
            ).first_available as int].reserved ==> final(self).first_available == old(
                self,
            ).first_available,
    {
        if self.first_available < self.buffer.len()
            && !self.buffer[self.first_available].reserved {
            true
        } else if self.is_next_available() {
            self.first_available = self.first_available + 1;
            true
        } else {
            self.first_available = self.buffer.len();
            false
        }
    }

    /// Number of slots inside the pool, reserved or not
    pub fn len(&self) -> (len: usize)
        ensures
            len == self.spec_len(),
    {
        self.buffer.len()
    }

    /// Stores the given item in the pool, returns with the key it can be reached by
    pub fn push(&mut self, item: T) -> (key: usize)
        requires
            old(self).wf(),
        ensures
            final(self).wf(),
            !old(self)@.contains_key(key),
            final(self)@ == old(self)@.insert(key, item),
            key < final(self).spec_len(),
            key < old(self).spec_len() ==> final(self).spec_len() == old(self).spec_len(),
            key >= old(self).spec_len() ==> key == old(self).spec_len() && final(self).spec_len()
                == old(self).spec_len() + 1,
            old(self).first_free_hint() < old(self).spec_len() && !old(self)@.contains_key(
                old(self).first_free_hint() as usize,
            ) ==> key == old(self).first_free_hint(),
            key == next_key(old(self)@, old(self).spec_len(), old(self).first_free_hint()),
            final(self).first_free_hint() == if key + 1 < final(self).spec_len()
                && !final(self)@.contains_key((key + 1) as usize) {
                (key + 1) as nat
            } else {
                key as nat
            },
            forall|k: usize|
                k != key && k < old(self).spec_len() ==> #[trigger] final(self).slot_item(k)
                    == old(self).slot_item(k),
    {
        let key = self.allocate();
        let ghost allocated = *self;
        self.buffer.set(key, ReusableItem { reserved: true, item });
        proof {
            assert forall|k: usize| k != key && k < old(self).spec_len() implies #[trigger] self.slot_item(k)
                == old(self).slot_item(k) by {
                assert(self.slot_item(k) == allocated.slot_item(k));
            }
            assert forall|k: usize| #[trigger] self@.contains_key(k) == old(self)@.insert(
                key,
                item,
            ).contains_key(k) by {
                assert(allocated@.dom().contains(k) == old(self)@.dom().insert(key).contains(k));
            }
            assert forall|k: usize| #[trigger] self@.contains_key(k) implies self@[k] == old(
                self,
            )@.insert(key, item)[k] by {
                if k != key {
                    assert(old(self)@.contains_key(k));
                    assert(allocated@[k] == old(self)@[k]);
                }
            }
            assert(self@ =~= old(self)@.insert(key, item));
            assert(self@.dom() == allocated@.dom());
        }
        key
    }

    /// Reserves a slot in the pool, returns with the key of it. The item stored
    /// in the slot is unspecified
    pub fn allocate(&mut self) -> (key: usize)
        requires
            old(self).wf(),
        ensures
            final(self).wf(),
            !old(self)@.contains_key(key),
            final(self)@.dom() == old(self)@.dom().insert(key),
            forall|k: usize| k != key && #[trigger] old(self)@.contains_key(k) ==> final(self)@[k]
                == old(self)@[k],
            key < final(self).spec_len(),
            key < old(self).spec_len() ==> final(self).spec_len() == old(self).spec_len(),
            key >= old(self).spec_len() ==> key == old(self).spec_len() && final(self).spec_len()
                == old(self).spec_len() + 1,
            old(self).first_free_hint() < old(self).spec_len() && !old(self)@.contains_key(
                old(self).first_free_hint() as usize,
            ) ==> key == old(self).first_free_hint(),
            key == next_key(old(self)@, old(self).spec_len(), old(self).first_free_hint()),
            final(self).first_free_hint() == if key + 1 < final(self).spec_len()
                && !final(self)@.contains_key((key + 1) as usize) {
                (key + 1) as nat
            } else {
                key as nat
            },
            key < old(self).spec_len() ==> final(self)@[key] == old(self).slot_item(key),
            key >= old(self).spec_len() ==> call_ensures(T::default, (), final(self)@[key]),
            forall|k: usize|
                k != key && k < old(self).spec_len() ==> #[trigger] final(self).slot_item(k)
                    == old(self).slot_item(k),
    {
        let key = if self.check_first_available() {
            let fa = self.first_available;
            let mut slot = ReusableItem { reserved: true, item: T::default() };
            self.buffer.set_and_swap(fa, &mut slot);
            self.buffer.set(fa, ReusableItem { reserved: true, item: slot.item });
            fa
        } else {
            // mark the new slot as reserved and return with its key
            self.buffer.push(ReusableItem { reserved: true, item: T::default() });
            self.buffer.len() - 1
        };
        if self.is_next_available() {
            self.first_available = self.first_available + 1;
        }
        proof {
            assert(self@.dom() =~= old(self)@.dom().insert(key));
        }
        key
    }

    /// Removes the item under the given key from the pool, returns with it, if it was present
    pub fn pop(&mut self, key: usize) -> (item: Option<T>)
        requires
            old(self).wf(),
        ensures
            final(self).wf(),
            old(self)@.contains_key(key) ==> item == Some(old(self)@[key]) && final(self)@
                == old(self)@.remove(key),
            !old(self)@.contains_key(key) ==> item.is_none() && final(self)@ == old(self)@,
            final(self).spec_len() == old(self).spec_len(),
            final(self).first_free_hint() == if old(self)@.contains_key(key) && key < old(
                self,
            ).first_free_hint() {
                key as nat
            } else {
                old(self).first_free_hint()
            },
            old(self)@.contains_key(key) ==> call_ensures(T::default, (), final(self).slot_item(key)),
            forall|k: usize|
                k != key && k < old(self).spec_len() ==> #[trigger] final(self).slot_item(k)
                    == old(self).slot_item(k),
    {
        if key < self.buffer.len() && self.buffer[key].reserved {
            let mut slot = ReusableItem { reserved: false, item: T::default() };
            self.buffer.set_and_swap(key, &mut slot);
            if key < self.first_available {
                self.first_available = key;
            }
            proof {
                assert(self@ =~= old(self)@.remove(key));
            }
            Some(slot.item)
        } else {
            None
        }
    }

    /// Marks the slot under the given key as free, returns true if it was reserved
    pub fn free(&mut self, key: usize) -> (freed: bool)
        requires
            old(self).wf(),
        ensures
            final(self).wf(),
            freed == old(self)@.contains_key(key),
            final(self)@ == old(self)@.remove(key),
            final(self).spec_len() == old(self).spec_len(),
            final(self).first_free_hint() == if freed && key < old(self).first_free_hint() {
                key as nat
            } else {
                old(self).first_free_hint()
            },
            forall|k: usize|
                k < old(self).spec_len() ==> #[trigger] final(self).slot_item(k) == old(
                    self,
                ).slot_item(k),
    {
        if key < self.buffer.len() && self.buffer[key].reserved {
            let mut slot = ReusableItem { reserved: false, item: T::default() };
            self.buffer.set_and_swap(key, &mut slot);
            self.buffer.set(key, ReusableItem { reserved: false, item: slot.item });
            if key < self.first_available {
                self.first_available = key;
            }
            proof {
                assert(self@ =~= old(self)@.remove(key));
            }
            true
        } else {
            proof {
                assert(self@ =~= old(self)@.remove(key));
            }
            false
        }
    }

    /// Tells if the given key refers to a reserved item
    pub fn key_is_valid(&self, key: usize) -> (valid: bool)
        ensures
            valid == self@.contains_key(key),
    {
        key < self.buffer.len() && self.buffer[key].reserved
    }

    /// Provides a reference to the item under the given key, which must be reserved
    pub fn get(&self, key: usize) -> (item: &T)
        requires
            self@.contains_key(key),
        ensures
            *item == self@[key],
    {
        &self.buffer[key].item
    }

    /// Provides a mutable reference to the item under the given key, which must be reserved
    pub fn get_mut(&mut self, key: usize) -> (item: &mut T)
        requires
            old(self)@.contains_key(key),
        ensures
            *item == old(self)@[key],
            final(self).wf() == old(self).wf(),
            final(self)@ == old(self)@.insert(key, *final(item)),
            final(self).spec_len() == old(self).spec_len(),
            final(self).first_free_hint() == old(self).first_free_hint(),
    {
        &mut self.buffer[key].item
    }

    /// Replaces the item under the given key, which must be reserved
    pub fn set(&mut self, key: usize, item: T)
        requires
            old(self).wf(),
            old(self)@.contains_key(key),
        ensures
            final(self).wf(),
            final(self)@ == old(self)@.insert(key, item),
            final(self).spec_len() == old(self).spec_len(),
            final(self).first_free_hint() == old(self).first_free_hint(),
    {
        self.buffer.set(key, ReusableItem { reserved: true, item });
        proof {
            assert(self@ =~= old(self)@.insert(key, item));
        }
    }
}

/// The bencode form of a slot of a pool: whether it is reserved, as 0 or 1, then its item
pub open spec fn slot_value<T: BencodeItem>(reserved: bool, item: T::Model) -> ValueModel {
    ValueModel::List(seq![ValueModel::Int(if reserved { 1 } else { 0 }), T::model_value(item)])
}

/// The slot a bencode value describes, if it describes one
pub open spec fn slot_of_value<T: BencodeItem>(value: ValueModel) -> Option<(bool, T::Model)> {
    match value {
        ValueModel::List(items) => if items.len() == 2 && items[0] is Int && items[0]->Int_0 <= 1
            && T::value_item_model(items[1]) is Some {
            Some((items[0]->Int_0 == 1, T::value_item_model(items[1])->0))
        } else {
            None
        },
        _ => None,
    }
}

/// The bencode form of a pool: the hint of its first free slot, then the list of its slots
pub open spec fn pool_value<T: BencodeItem>(first_available: u64, slots: Seq<(bool, T::Model)>) -> ValueModel {
    ValueModel::List(
        seq![
            ValueModel::Int(first_available),
            ValueModel::List(slots.map_values(|slot: (bool, T::Model)| slot_value::<T>(slot.0, slot.1))),
        ],
    )
}

/// The hint and the slots a bencode value describes, if it describes a pool
pub open spec fn pool_of_value<T: BencodeItem>(value: ValueModel) -> Option<(u64, Seq<(bool, T::Model)>)> {
    match value {
        ValueModel::List(items) => if items.len() == 2 && items[0] is Int && items[1] is List && forall|i: int|
            0 <= i < items[1]->List_0.len() ==> #[trigger] slot_of_value::<T>(items[1]->List_0[i]) is Some {
            Some(
                (
                    items[0]->Int_0,
                    items[1]->List_0.map_values(|v: ValueModel| slot_of_value::<T>(v)->0),
                ),
            )
        } else {
            None
        },
        _ => None,
    }
}

/// Reading back the bencode form of a pool gives its hint and its slots; lists nest at most 7
/// deep in it
pub proof fn lemma_pool_roundtrip<T: BencodeItem>(first_available: u64, slots: Seq<(bool, T::Model)>)
    requires
        forall|i: int| 0 <= i < slots.len() ==> T::model_ok(#[trigger] slots[i].1),
    ensures
        pool_of_value::<T>(pool_value::<T>(first_available, slots)) == Some((first_available, slots)),
        value_depth(pool_value::<T>(first_available, slots)) <= 7,
{
    let slot_values = slots.map_values(|slot: (bool, T::Model)| slot_value::<T>(slot.0, slot.1));
    assert forall|i: int| 0 <= i < slot_values.len() implies #[trigger] slot_of_value::<T>(slot_values[i])
        == Some(slots[i]) && value_depth(slot_values[i]) <= 5 by {
        T::lemma_model_roundtrip(slots[i].1);
        let items = slot_values[i]->List_0;
        assert(items[1] == T::model_value(slots[i].1));
        assert forall|j: int| 0 <= j < items.len() implies value_depth(#[trigger] items[j]) <= 4 by {}
        lemma_values_depth_bound(items, 4);
    }
    assert(slot_values.map_values(|v: ValueModel| slot_of_value::<T>(v)->0) =~= slots);
    lemma_values_depth_bound(slot_values, 5);
    let items = pool_value::<T>(first_available, slots)->List_0;
    assert forall|j: int| 0 <= j < items.len() implies value_depth(#[trigger] items[j]) <= 6 by {}
    lemma_values_depth_bound(items, 6);
}

impl<T: BencodeItem> ReusableItem<T> {
    /// The bencode value of the slot
    pub fn to_bencode_value(&self) -> (value: BencodeValue)
        ensures
            value@ == slot_value::<T>(self.reserved, self.item.item_model()),
    {
        let mut fields: Vec<BencodeValue> = Vec::new();
        let flag = BencodeValue::Int(if self.reserved { 1 } else { 0 });
        proof {
            lemma_values_model_push(fields@, flag);
            assert(values_model(Seq::<BencodeValue>::empty()) =~= Seq::<ValueModel>::empty());
        }
        fields.push(flag);
        let item = self.item.item_to_value();
        proof {
            lemma_values_model_push(fields@, item);
        }
        fields.push(item);
        let value = BencodeValue::List(fields);
        assert(values_model(fields@) =~= seq![
            ValueModel::Int(if self.reserved { 1 } else { 0 }),
            T::model_value(self.item.item_model()),
        ]);
        value
    }

    /// The slot a bencode value describes
    pub fn from_bencode_value(value: &BencodeValue) -> (result: Result<Self, BytecodeError>)
        ensures
            match slot_of_value::<T>(value@) {
                Some(slot) => result matches Ok(r) && r.reserved == slot.0 && r.item.item_model()
                    == slot.1,
                None => result matches Err(e) && e == BytecodeError::UnexpectedContent,
            },
    {
        match value {
            BencodeValue::List(fields) => {
                proof {
                    lemma_values_model_index(fields@);
                }
                if fields.len() != 2 {
                    return Err(BytecodeError::UnexpectedContent);
                }
                let reserved = match &fields[0] {
                    BencodeValue::Int(0) => false,
                    BencodeValue::Int(1) => true,
                    _ => {
                        return Err(BytecodeError::UnexpectedContent);
                    },
                };
                match T::item_from_value(&fields[1]) {
                    Ok(item) => Ok(ReusableItem { reserved, item }),
                    Err(e) => Err(e),
                }
            },
            _ => Err(BytecodeError::UnexpectedContent),
        }
    }
}

impl<T: BencodeItem + Default> ObjectPool<T> {
    /// The slots of the pool in order: whether each is reserved, and the form of its item
    pub closed spec fn slot_models(&self) -> Seq<(bool, T::Model)> {
        self.buffer@.map_values(|slot: ReusableItem<T>| (slot.reserved, slot.item.item_model()))
    }

    /// The slots of the pool tell which keys it holds, and the forms of their items
    pub proof fn lemma_slot_models(&self)
        ensures
            self.slot_models().len() == self.spec_len(),
            forall|k: usize|
                k < self.spec_len() ==> (#[trigger] self@.contains_key(k) <==> self.slot_models()[k as int].0),
            forall|k: usize|
                #[trigger] self@.contains_key(k) ==> self.slot_models()[k as int].1 == self@[k].item_model(),
            forall|i: int| 0 <= i < self.slot_models().len() ==> T::model_ok(#[trigger] self.slot_models()[i].1),
    {
        assert forall|i: int| 0 <= i < self.slot_models().len() implies T::model_ok(
            #[trigger] self.slot_models()[i].1,
        ) by {
            T::lemma_item_model_ok(&self.buffer@[i].item);
        }
    }

    /// The bencode value of the pool
    pub fn to_bencode_value(&self) -> (value: BencodeValue)
        ensures
            value@ == pool_value::<T>(self.first_free_hint() as u64, self.slot_models()),
    {
        let ghost slots = self.slot_models();
        let ghost wanted = slots.map_values(|slot: (bool, T::Model)| slot_value::<T>(slot.0, slot.1));
        let mut slot_values: Vec<BencodeValue> = Vec::new();
        assert(values_model(slot_values@) =~= wanted.take(0));
        let mut i: usize = 0;
        while i < self.buffer.len()
            invariant
                i <= self.buffer@.len(),
                slots == self.slot_models(),
                slots.len() == self.buffer@.len(),
                wanted == slots.map_values(|slot: (bool, T::Model)| slot_value::<T>(slot.0, slot.1)),
                values_model(slot_values@) == wanted.take(i as int),
            decreases self.buffer@.len() - i,
        {
            let v = self.buffer[i].to_bencode_value();
            proof {
                lemma_values_model_push(slot_values@, v);
                assert(wanted.take(i as int).push(v@) =~= wanted.take(i + 1));
            }
            slot_values.push(v);
            i = i + 1;
        }
        assert(wanted.take(i as int) =~= wanted);
        let mut fields: Vec<BencodeValue> = Vec::new();
        let hint = BencodeValue::Int(self.first_available as u64);
        proof {
            lemma_values_model_push(fields@, hint);
            assert(values_model(Seq::<BencodeValue>::empty()) =~= Seq::<ValueModel>::empty());
        }
        fields.push(hint);
        let list = BencodeValue::List(slot_values);
        proof {
            lemma_values_model_push(fields@, list);
        }
        fields.push(list);
        assert(values_model(fields@) =~= seq![
            ValueModel::Int(self.first_available as u64),
            ValueModel::List(wanted),
        ]);
        BencodeValue::List(fields)
    }

    /// The pool a bencode value describes. A hint beyond the last slot is read as the number
    /// of slots: either way the next allocation appends a slot.
    pub fn from_bencode_value(value: &BencodeValue) -> (result: Result<Self, BytecodeError>)
        ensures
            match pool_of_value::<T>(value@) {
                Some((hint, slots)) => result matches Ok(pool) && pool.wf() && pool.slot_models()
                    == slots && pool.first_free_hint() == if hint < slots.len() {
                    hint as nat
                } else {
                    slots.len()
                },
                None => result matches Err(e) && e == BytecodeError::UnexpectedContent,
            },
    {
        match value {
            BencodeValue::List(fields) => {
                proof {
                    lemma_values_model_index(fields@);
                }
                if fields.len() != 2 {
                    return Err(BytecodeError::UnexpectedContent);
                }
                let hint = match &fields[0] {
                    BencodeValue::Int(n) => *n,
                    _ => {
                        return Err(BytecodeError::UnexpectedContent);
                    },
                };
                let slot_values = match &fields[1] {
                    BencodeValue::List(items) => items,
                    _ => {
                        return Err(BytecodeError::UnexpectedContent);
                    },
                };
                let ghost models = values_model(slot_values@);
                proof {
                    lemma_values_model_index(slot_values@);
                    assert(value@->List_0[1] == fields@[1]@);
                    assert(value@->List_0[1] == ValueModel::List(models));
                }
                let mut buffer: Vec<ReusableItem<T>> = Vec::new();
                let mut i: usize = 0;
                while i < slot_values.len()
                    invariant
                        i <= slot_values@.len(),
                        models == values_model(slot_values@),
                        models.len() == slot_values@.len(),
                        value@->List_0[1] == ValueModel::List(models),
                        forall|j: int| 0 <= j < slot_values@.len() ==> #[trigger] models[j] == slot_values@[j]@,
                        buffer@.len() == i,
                        forall|j: int| 0 <= j < i ==> (#[trigger] slot_of_value::<T>(models[j])) == Some(
                            (buffer@[j].reserved, buffer@[j].item.item_model()),
                        ),
                    decreases slot_values@.len() - i,
                {
                    match ReusableItem::<T>::from_bencode_value(&slot_values[i]) {
                        Ok(slot) => {
                            buffer.push(slot);
                        },
                        Err(e) => {
                            proof {
                                assert(value@->List_0[1] == ValueModel::List(models));
                                assert(slot_of_value::<T>(models[i as int]) is None);
                            }
                            return Err(e);
                        },
                    }
                    i = i + 1;
                }
                let len = buffer.len();
                let first_available = if hint < len as u64 {
                    hint as usize
                } else {
                    len
                };
                let pool = ObjectPool { buffer, first_available };
                proof {
                    assert(pool.slot_models() =~= models.map_values(
                        |v: ValueModel| slot_of_value::<T>(v)->0,
                    ));
                }
                Ok(pool)
            },
            _ => Err(BytecodeError::UnexpectedContent),
        }
    }
}

impl<T: BencodeItem + Default> ObjectPool<T> {
    /// The bencoding of the pool
    pub fn to_bencode(&self) -> (result: Result<Vec<u8>, BytecodeError>)
        ensures
            result matches Ok(bytes) ==> bytes@ == value_bytes(
                pool_value::<T>(self.first_free_hint() as u64, self.slot_models()),
            ),
            result is Ok,
    {
        proof {
            self.lemma_slot_models();
            lemma_pool_roundtrip::<T>(self.first_free_hint() as u64, self.slot_models());
        }
        encode_value(&self.to_bencode_value())
    }

    /// The pool the first bencoded value of the bytes describes
    pub fn from_bencode(bytes: &[u8]) -> (result: Result<Self, BytecodeError>)
        ensures
            result is Ok <==> exists|m: ValueModel|
                value_depth(m) <= 2048 && starts_with(bencode_tokens(bytes@), #[trigger] value_tokens(m))
                    && pool_of_value::<T>(m) is Some,
            forall|m: ValueModel|
                value_depth(m) <= 2048 && starts_with(bencode_tokens(bytes@), #[trigger] value_tokens(m))
                    ==> (result matches Ok(pool) ==> (pool.wf() && match pool_of_value::<T>(m) {
                    Some((hint, slots)) => pool.slot_models() == slots && pool.first_free_hint()
                        == if hint < slots.len() {
                        hint as nat
                    } else {
                        slots.len()
                    },
                    None => false,
                })),
            forall|hint: u64, slots: Seq<(bool, T::Model)>|
                hint <= slots.len() && (forall|i: int| 0 <= i < slots.len() ==> T::model_ok(#[trigger] slots[i].1))
                    && bytes@ == #[trigger] value_bytes(pool_value::<T>(hint, slots)) ==> (result matches Ok(
                    pool,
                ) && pool.wf() && pool.slot_models() == slots && pool.first_free_hint() == hint),
    {
        let decoded = decode_value(bytes);
        proof {
            assert forall|hint: u64, slots: Seq<(bool, T::Model)>|
                hint <= slots.len() && (forall|i: int| 0 <= i < slots.len() ==> T::model_ok(#[trigger] slots[i].1))
                    && bytes@ == #[trigger] value_bytes(pool_value::<T>(hint, slots)) implies value_depth(
                pool_value::<T>(hint, slots),
            ) <= 2048 && starts_with(bencode_tokens(bytes@), value_tokens(pool_value::<T>(hint, slots))) by {
                lemma_pool_roundtrip::<T>(hint, slots);
            }
        }
        match decoded {
            Ok(value) => {
                let result = Self::from_bencode_value(&value);
                proof {
                    assert forall|m: ValueModel|
                        value_depth(m) <= 2048 && starts_with(
                            bencode_tokens(bytes@),
                            #[trigger] value_tokens(m),
                        ) implies m == value@ by {}
                    assert forall|hint: u64, slots: Seq<(bool, T::Model)>|
                        hint <= slots.len() && (forall|i: int| 0 <= i < slots.len() ==> T::model_ok(#[trigger] slots[i].1))
                            && bytes@ == #[trigger] value_bytes(pool_value::<T>(hint, slots)) implies (result matches Ok(
                            pool,
                        ) && pool.wf() && pool.slot_models() == slots && pool.first_free_hint() == hint) by {
                        lemma_pool_roundtrip::<T>(hint, slots);
                        assert(value_tokens(pool_value::<T>(hint, slots)) == value_tokens(value@));
                    }
                }
                result
            },
            Err(e) => Err(e),
        }
    }
}


/// A reserved key at or below the free-slot hint that is popped or freed is the key the next
/// allocation hands out: the hint then points at it, its slot is free, and the pool does not
/// grow
pub proof fn lemma_freed_key_handed_out_again<T>(items: Map<usize, T>, len: nat, hint: nat, key: usize)
    requires
        items.contains_key(key),
        key < len,
        key <= hint,
    ensures
        next_key(items.remove(key), len, if key < hint { key as nat } else { hint }) == key,
        next_key(items.remove(key), len, if key < hint { key as nat } else { hint }) < len,
{
}

/// Popping or freeing a key that is not reserved leaves the key the next allocation hands out
/// as it was
pub proof fn lemma_unreserved_pop_keeps_next_key<T>(items: Map<usize, T>, len: nat, hint: nat, key: usize)
    requires
        !items.contains_key(key),
    ensures
        next_key(items.remove(key), len, hint) == next_key(items, len, hint),
{
    assert(items.remove(key) =~= items);
}

} // verus!
