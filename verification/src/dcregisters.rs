//! The registers: 256 of them, one for each byte, each a stack of slots. A
//! slot holds a value of its own and an array, a map from numbers to values.
//! The array belongs to the slot: a slot pushed on top hides it, and it is
//! back when that slot is popped.

use vstd::prelude::*;
use crate::DcValue;
use crate::Value;
use crate::big_real::BigReal;
use crate::big_real::Real;
use crate::big_real::lemma_simplified;
use crate::big_real::lemma_same_number_by_shortest_form;

verus! {

/// The mathematical model of a [`DcRegister`].
pub struct Slot {
    /// The value of the slot, if it has one.
    pub main: Option<Value>,
    /// The array of the slot. A key stands for every number of its value:
    /// it is the number with the zeros at the end of its fraction dropped.
    pub array: Map<Real, Value>,
}

impl Slot {
    /// A slot with the given value and an empty array.
    pub open spec fn new(main: Option<Value>) -> Slot {
        Slot { main, array: Map::empty() }
    }

    /// The slot with `value` stored in its array under `key`.
    pub open spec fn store(self, key: Real, value: Value) -> Slot {
        Slot { main: self.main, array: self.array.insert(key.simplified(), value) }
    }

    /// What the array holds under `key`: zero where nothing was stored.
    pub open spec fn load(self, key: Real) -> Value {
        if self.array.contains_key(key.simplified()) {
            self.array[key.simplified()]
        } else {
            Value::Num(Real::integer(0))
        }
    }
}

/// The register with `value` stored in the array of its top slot. An empty
/// register gets a slot without a value of its own.
pub open spec fn stack_array_store(slots: Seq<Slot>, key: Real, value: Value) -> Seq<Slot> {
    if slots.len() == 0 {
        seq![Slot::new(None).store(key, value)]
    } else {
        slots.update(slots.len() - 1, slots.last().store(key, value))
    }
}

/// What the array of the top slot holds under `key`: zero where nothing was
/// stored, and in an empty register.
pub open spec fn stack_array_load(slots: Seq<Slot>, key: Real) -> Value {
    if slots.len() == 0 {
        Value::Num(Real::integer(0))
    } else {
        slots.last().load(key)
    }
}

/// The value of the top slot, if there is a slot and it has one.
pub open spec fn stack_value(slots: Seq<Slot>) -> Option<Value> {
    if slots.len() == 0 {
        None
    } else {
        slots.last().main
    }
}

/// The register with the value of its top slot replaced. The array of the
/// slot stays. An empty register gets a slot.
pub open spec fn stack_set(slots: Seq<Slot>, value: Value) -> Seq<Slot> {
    if slots.len() == 0 {
        seq![Slot::new(Some(value))]
    } else {
        slots.update(slots.len() - 1, Slot { main: Some(value), array: slots.last().array })
    }
}

/// The keys and values of an array as a map; the keys are all different.
pub open spec fn entries_map(entries: Seq<(Real, Value)>) -> Map<Real, Value> {
    Map::new(
        |k: Real| exists|i: int| 0 <= i < entries.len() && #[trigger] entries[i].0 == k,
        |k: Real| entries[choose|i: int| 0 <= i < entries.len() && #[trigger] entries[i].0 == k].1,
    )
}

/// Whether the keys are all different.
pub open spec fn distinct_keys(entries: Seq<(Real, Value)>) -> bool {
    forall|i: int, j: int|
        0 <= i < j < entries.len() ==> (#[trigger] entries[i]).0 != (#[trigger] entries[j]).0
}

/// An entry is found in the map under its key.
pub proof fn lemma_entries_map_at(entries: Seq<(Real, Value)>, i: int)
    requires
        distinct_keys(entries),
        0 <= i < entries.len(),
    ensures
        entries_map(entries).contains_key(entries[i].0),
        entries_map(entries)[entries[i].0] == entries[i].1,
{
    let k = entries[i].0;
    let j = choose|j: int| 0 <= j < entries.len() && #[trigger] entries[j].0 == k;
    if j < i {
        assert(entries[j].0 != entries[i].0);
    } else if i < j {
        assert(entries[i].0 != entries[j].0);
    }
}

/// A further entry under a new key is an insertion into the map.
pub proof fn lemma_entries_map_push(entries: Seq<(Real, Value)>, key: Real, value: Value)
    requires
        distinct_keys(entries),
        !entries_map(entries).contains_key(key),
    ensures
        distinct_keys(entries.push((key, value))),
        entries_map(entries.push((key, value))) == entries_map(entries).insert(key, value),
{
    let longer = entries.push((key, value));
    assert forall|i: int, j: int| 0 <= i < j < longer.len() implies (#[trigger] longer[i]).0 != (
    #[trigger] longer[j]).0 by {
        if j == entries.len() {
            if longer[i].0 == key {
                assert(entries[i].0 == key);
            }
        } else {
            assert(entries[i].0 != entries[j].0);
        }
    }
    assert forall|k: Real| #[trigger]
        entries_map(longer).contains_key(k) == entries_map(entries).insert(
            key,
            value,
        ).contains_key(k) by {
        if entries_map(longer).contains_key(k) {
            let i = choose|i: int| 0 <= i < longer.len() && #[trigger] longer[i].0 == k;
            if i < entries.len() {
                assert(entries[i].0 == k);
            }
        }
        if entries_map(entries).contains_key(k) {
            let i = choose|i: int| 0 <= i < entries.len() && #[trigger] entries[i].0 == k;
            assert(longer[i].0 == k);
        }
        if k == key {
            assert(longer[entries.len() as int].0 == k);
        }
    }
    assert forall|k: Real| #[trigger]
        entries_map(longer).contains_key(k) implies entries_map(longer)[k] == entries_map(
        entries,
    ).insert(key, value)[k] by {
        let i = choose|i: int| 0 <= i < longer.len() && #[trigger] longer[i].0 == k;
        lemma_entries_map_at(longer, i);
        if i < entries.len() {
            assert(entries[i].0 == k);
            lemma_entries_map_at(entries, i);
        }
    }
    assert(entries_map(longer) =~= entries_map(entries).insert(key, value));
}

/// A new value in an entry is an insertion into the map under its key.
pub proof fn lemma_entries_map_update(entries: Seq<(Real, Value)>, i: int, value: Value)
    requires
        distinct_keys(entries),
        0 <= i < entries.len(),
    ensures
        distinct_keys(entries.update(i, (entries[i].0, value))),
        entries_map(entries.update(i, (entries[i].0, value))) == entries_map(entries).insert(
            entries[i].0,
            value,
        ),
{
    let key = entries[i].0;
    let changed = entries.update(i, (key, value));
    assert forall|a: int, b: int| 0 <= a < b < changed.len() implies (#[trigger] changed[a]).0 != (
    #[trigger] changed[b]).0 by {
        assert(entries[a].0 != entries[b].0);
    }
    assert forall|k: Real| #[trigger]
        entries_map(changed).contains_key(k) == entries_map(entries).insert(
            key,
            value,
        ).contains_key(k) by {
        if entries_map(changed).contains_key(k) {
            let j = choose|j: int| 0 <= j < changed.len() && #[trigger] changed[j].0 == k;
            assert(entries[j].0 == k);
        }
        if entries_map(entries).contains_key(k) {
            let j = choose|j: int| 0 <= j < entries.len() && #[trigger] entries[j].0 == k;
            assert(changed[j].0 == k);
        }
        if k == key {
            assert(changed[i].0 == k);
        }
    }
    assert forall|k: Real| #[trigger]
        entries_map(changed).contains_key(k) implies entries_map(changed)[k] == entries_map(
        entries,
    ).insert(key, value)[k] by {
        let j = choose|j: int| 0 <= j < changed.len() && #[trigger] changed[j].0 == k;
        lemma_entries_map_at(changed, j);
        assert(entries[j].0 == k);
        lemma_entries_map_at(entries, j);
    }
    assert(entries_map(changed) =~= entries_map(entries).insert(key, value));
}

/// One slot of a register: a value of its own, if it has one, and an array.
#[derive(Debug)]
pub struct DcRegister {
    /// The value of the slot.
    pub main_value: Option<DcValue>,
    /// The entries of the array, under keys that are all different and have
    /// no zero at the end of their fraction.
    pub map: Vec<(BigReal, DcValue)>,
}

impl DcRegister {
    /// The entries of the array as pairs of models.
    pub open spec fn entries(&self) -> Seq<(Real, Value)> {
        self.map@.map_values(|e: (BigReal, DcValue)| (e.0@, e.1@))
    }

    /// Whether the keys of the array are all different and in their
    /// shortest form.
    pub open spec fn wf(&self) -> bool {
        &&& distinct_keys(self.entries())
        &&& forall|i: int|
            0 <= i < self.map.len() ==> (#[trigger] self.map[i]).0@.simplified() == self.map[i].0@
    }
}

impl View for DcRegister {
    type V = Slot;

    open spec fn view(&self) -> Slot {
        Slot {
            main: match self.main_value {
                Some(v) => Some(v@),
                None => None,
            },
            array: entries_map(self.entries()),
        }
    }
}

impl DcRegister {
    /// A slot with the given value and an empty array.
    pub fn new(value: Option<DcValue>) -> (r: DcRegister)
        ensures
            r.wf(),
            r@ == Slot::new(
                match value {
                    Some(v) => Some(v@),
                    None => None,
                },
            ),
    {
        let r = DcRegister { main_value: value, map: Vec::new() };
        assert(r@.array =~= Map::empty());
        r
    }

    /// Where in the entries the key stands that has no zero at the end of
    /// its fraction.
    fn find(&self, key: &BigReal) -> (r: Option<usize>)
        requires
            self.wf(),
        ensures
            match r {
                Some(i) => i < self.map.len() && self.map[i as int].0@ == key@,
                None => !self@.array.contains_key(key@),
            },
    {
        let mut i: usize = 0;
        while i < self.map.len()
            invariant
                i <= self.map.len(),
                forall|j: int| 0 <= j < i ==> (#[trigger] self.entries()[j]).0 != key@,
            decreases self.map.len() - i,
        {
            let found = &self.map[i].0;
            if found.num_frx_digits() == key.num_frx_digits() && found.value().equals(key.value()) {
                return Some(i);
            }
            i += 1;
        }
        None
    }

    /// The value that the array holds under the key, if it holds one. Keys
    /// are the same where they are equal as numbers.
    pub fn map_lookup(&self, key: &BigReal) -> (r: Option<&DcValue>)
        requires
            self.wf(),
        ensures
            match r {
                Some(v) => self@.array.contains_key(key@.simplified()) && v@
                    == self@.array[key@.simplified()],
                None => !self@.array.contains_key(key@.simplified()),
            },
    {
        let mut short = key.clone();
        short.simplify();
        match self.find(&short) {
            Some(i) => {
                proof {
                    lemma_entries_map_at(self.entries(), i as int);
                }
                Some(&self.map[i].1)
            },
            None => None,
        }
    }

    /// Stores the value in the array under the key, in place of what the
    /// array held under a key that is equal to it as a number.
    pub fn map_insert(&mut self, key: BigReal, value: DcValue)
        requires
            old(self).wf(),
        ensures
            final(self).wf(),
            final(self)@ == old(self)@.store(key@, value@),
    {
        let mut short = key;
        short.simplify();
        proof {
            lemma_simplified(key@);
            lemma_simplified_twice(key@);
        }
        let ghost before = self.entries();
        match self.find(&short) {
            Some(i) => {
                proof {
                    lemma_entries_map_update(before, i as int, value@);
                }
                let kept = self.map[i].0.clone();
                self.map.set(i, (kept, value));
                assert(self.entries() =~= before.update(i as int, (short@, value@)));
            },
            None => {
                proof {
                    lemma_entries_map_push(before, short@, value@);
                }
                self.map.push((short, value));
                assert(self.entries() =~= before.push((short@, value@)));
            },
        }
    }
}

/// A number in its shortest form stays as it is when it is shortened again.
pub proof fn lemma_simplified_twice(a: Real)
    ensures
        a.simplified().simplified() == a.simplified(),
    decreases a.shift,
{
    if a.shift > 0 && a.value % 10 == 0 {
        lemma_simplified_twice(Real { value: a.value / 10, shift: (a.shift - 1) as nat });
    }
}

/// A register: a stack of slots, the top one last.
#[derive(Debug)]
pub struct DcRegisterStack {
    /// The slots, the top one last.
    pub stack: Vec<DcRegister>,
}

impl View for DcRegisterStack {
    type V = Seq<Slot>;

    open spec fn view(&self) -> Seq<Slot> {
        self.stack@.map_values(|r: DcRegister| r@)
    }
}

impl DcRegisterStack {
    /// Whether every slot is well formed.
    pub open spec fn wf(&self) -> bool {
        forall|i: int| 0 <= i < self.stack.len() ==> (#[trigger] self.stack[i]).wf()
    }

    /// A register without slots.
    pub fn new() -> (r: DcRegisterStack)
        ensures
            r.wf(),
            r@ == Seq::<Slot>::empty(),
    {
        let r = DcRegisterStack { stack: Vec::new() };
        assert(r@ =~= Seq::<Slot>::empty());
        r
    }

    /// The value of the top slot, if there is a slot and it has a value.
    pub fn value(&self) -> (r: Option<&DcValue>)
        ensures
            match r {
                Some(v) => stack_value(self@) == Some(v@),
                None => stack_value(self@) is None,
            },
    {
        let n = self.stack.len();
        if n == 0 {
            None
        } else {
            self.stack[n - 1].main_value.as_ref()
        }
    }

    /// Stores the value under the key in the array of the top slot. An
    /// empty register gets a slot without a value of its own.
    pub fn array_store(&mut self, key: BigReal, value: DcValue)
        requires
            old(self).wf(),
        ensures
            final(self).wf(),
            final(self)@ == stack_array_store(old(self)@, key@, value@),
    {
        let mut top = match self.stack.pop() {
            Some(top) => top,
            None => DcRegister::new(None),
        };
        top.map_insert(key, value);
        self.stack.push(top);
        assert(self@ =~= stack_array_store(old(self)@, key@, value@));
    }

    /// What the array of the top slot holds under the key: zero where
    /// nothing was stored under it, and in an empty register.
    pub fn array_load(&self, key: &BigReal) -> (r: DcValue)
        requires
            self.wf(),
        ensures
            r@ == stack_array_load(self@, key@),
    {
        let n = self.stack.len();
        if n == 0 {
            DcValue::Num(BigReal::zero())
        } else {
            match self.stack[n - 1].map_lookup(key) {
                Some(value) => value.clone(),
                None => DcValue::Num(BigReal::zero()),
            }
        }
    }

    /// Replaces the value of the top slot; the array of the slot stays. An
    /// empty register gets a slot.
    pub fn set(&mut self, value: DcValue)
        requires
            old(self).wf(),
        ensures
            final(self).wf(),
            final(self)@ == stack_set(old(self)@, value@),
    {
        let top = match self.stack.pop() {
            Some(top) => DcRegister { main_value: Some(value), map: top.map },
            None => DcRegister::new(Some(value)),
        };
        self.stack.push(top);
        assert(self@ =~= stack_set(old(self)@, value@));
    }

    /// Removes the top slot and returns its value, if there was a slot and
    /// it had one. The array of the slot is gone with it.
    pub fn pop(&mut self) -> (r: Option<DcValue>)
        requires
            old(self).wf(),
        ensures
            final(self).wf(),
            final(self)@ == (if old(self)@.len() == 0 {
                old(self)@
            } else {
                old(self)@.drop_last()
            }),
            match r {
                Some(v) => stack_value(old(self)@) == Some(v@),
                None => stack_value(old(self)@) is None,
            },
    {
        let r = match self.stack.pop() {
            Some(top) => top.main_value,
            None => None,
        };
        assert(self@ =~= (if old(self)@.len() == 0 {
            old(self)@
        } else {
            old(self)@.drop_last()
        }));
        r
    }

    /// Puts a new slot with the given value and an empty array on top.
    pub fn push(&mut self, value: DcValue)
        requires
            old(self).wf(),
        ensures
            final(self).wf(),
            final(self)@ == old(self)@.push(Slot::new(Some(value@))),
    {
        self.stack.push(DcRegister::new(Some(value)));
        assert(self@ =~= old(self)@.push(Slot::new(Some(value@))));
    }
}

/// The registers, one for each byte.
#[derive(Debug)]
pub struct DcRegisters {
    /// The 256 registers, in the order of their bytes.
    pub registers: Vec<DcRegisterStack>,
}

impl View for DcRegisters {
    type V = Seq<Seq<Slot>>;

    open spec fn view(&self) -> Seq<Seq<Slot>> {
        self.registers@.map_values(|r: DcRegisterStack| r@)
    }
}

impl DcRegisters {
    /// Whether there are 256 registers, each well formed.
    pub open spec fn wf(&self) -> bool {
        &&& self.registers.len() == 256
        &&& forall|i: int| 0 <= i < self.registers.len() ==> (#[trigger] self.registers[i]).wf()
    }

    /// 256 registers without slots.
    pub fn new() -> (r: DcRegisters)
        ensures
            r.wf(),
            r@ == Seq::new(256, |i: int| Seq::<Slot>::empty()),
    {
        let mut registers: Vec<DcRegisterStack> = Vec::new();
        let mut i: usize = 0;
        while i < 256
            invariant
                i <= 256,
                registers.len() == i,
                forall|j: int| 0 <= j < i ==> (#[trigger] registers[j]).wf(),
                forall|j: int| 0 <= j < i ==> (#[trigger] registers[j])@ == Seq::<Slot>::empty(),
            decreases 256 - i,
        {
            registers.push(DcRegisterStack::new());
            i += 1;
        }
        let r = DcRegisters { registers };
        assert(r@ =~= Seq::new(256, |i: int| Seq::<Slot>::empty()));
        r
    }

    /// The register named by the byte.
    pub fn get(&self, c: u8) -> (r: &DcRegisterStack)
        requires
            self.wf(),
        ensures
            r.wf(),
            r@ == self@[c as int],
            *r == self.registers[c as int],
    {
        &self.registers[c as usize]
    }

    /// The register named by the byte, to be changed.
    pub fn get_mut(&mut self, c: u8) -> (r: &mut DcRegisterStack)
        requires
            old(self).wf(),
        ensures
            *r == old(self).registers[c as int],
            final(self).registers@ == old(self).registers@.update(c as int, *final(r)),
    {
        &mut self.registers[c as usize]
    }
}

/// The keys of an array are numbers by their values: what is stored under
/// a key is found under every key that is equal to it in value, and a store
/// leaves what is found under the other keys.
pub proof fn lemma_array_keys_by_value(slot: Slot, key: Real, value: Value, other: Real)
    ensures
        other.same_number(key) ==> slot.store(key, value).load(other) == value,
        !other.same_number(key) ==> slot.store(key, value).load(other) == slot.load(other),
{
    lemma_same_number_by_shortest_form(other, key);
}

/// The array of a slot below the top is out of reach: a slot pushed onto a
/// register, stores into the array of the register and the pop of the slot
/// leave the slots that were there, and with them their arrays, as they
/// were.
pub proof fn lemma_array_slot_locality(slots: Seq<Slot>, pushed: Value, key: Real, value: Value)
    ensures
        stack_array_store(slots.push(Slot::new(Some(pushed))), key, value).drop_last() == slots,
        stack_value(stack_array_store(slots.push(Slot::new(Some(pushed))), key, value)) == Some(
            pushed,
        ),
{
    let stored = stack_array_store(slots.push(Slot::new(Some(pushed))), key, value);
    assert(stored.drop_last() =~= slots);
}

} // verus!
