//! A keyed store where effects keep state of their own between frames:
//! each key holds one value of one of a few kinds, and reading a key as the
//! wrong kind is told apart from reading a key that holds nothing.
use vstd::prelude::*;

use crate::error::SledError;
use crate::geometry::Point;

verus! {

/// A value the store can hold, tagged with its kind.
#[derive(Debug)]
pub enum DataValue {
    Bool(bool),
    Int(i64),
    UInt(u64),
    Index(usize),
    Point(Point),
    Text(String),
    Indices(Vec<usize>),
}

/// A value tucked away with nothing added.
pub struct DataWrapper<T>(pub T);

impl<T> DataWrapper<T> {
    pub fn new(value: T) -> (r: DataWrapper<T>)
        ensures
            r.0 == value,
    {
        DataWrapper(value)
    }
}

/// A kind of value the store can hold.
pub trait StorableData: Sized {
    /// `v` holds a value of this kind.
    spec fn is_kind(v: DataValue) -> bool;

    /// The tagged value that holds `self`.
    spec fn tagged(self) -> DataValue;

    /// A tagged value is of its own kind.
    proof fn lemma_tagged_is_kind(self)
        ensures
            Self::is_kind(self.tagged()),
    ;

    /// Tagging loses nothing: equal tagged values come from equal values.
    proof fn lemma_tagged_injective(self, other: Self)
        ensures
            self.tagged() == other.tagged() ==> self == other,
    ;

    fn wrap(self) -> (r: DataValue)
        ensures
            r == self.tagged(),
            Self::is_kind(r),
    ;

    fn unwrap_ref(v: &DataValue) -> (r: Option<&Self>)
        ensures
            r.is_some() == Self::is_kind(*v),
            r.is_some() ==> r.unwrap().tagged() == *v,
    ;

    fn unwrap_mut(v: &mut DataValue) -> (r: Option<&mut Self>)
        ensures
            r.is_some() == Self::is_kind(*old(v)),
            r.is_some() ==> (*r.unwrap()).tagged() == *old(v),
            r.is_some() ==> *final(v) == (*final(r.unwrap())).tagged(),
            r.is_none() ==> *final(v) == *old(v),
    ;
}

impl StorableData for bool {
    open spec fn is_kind(v: DataValue) -> bool {
        v is Bool
    }

    open spec fn tagged(self) -> DataValue {
        DataValue::Bool(self)
    }

    proof fn lemma_tagged_is_kind(self) {
    }

    proof fn lemma_tagged_injective(self, other: Self) {
    }

    fn wrap(self) -> (r: DataValue) {
        DataValue::Bool(self)
    }

    fn unwrap_ref(v: &DataValue) -> (r: Option<&bool>) {
        match v {
            DataValue::Bool(b) => Some(b),
            _ => None,
        }
    }

    fn unwrap_mut(v: &mut DataValue) -> (r: Option<&mut bool>) {
        match v {
            DataValue::Bool(x) => Some(x),
            _ => None,
        }
    }
}

impl StorableData for i64 {
    open spec fn is_kind(v: DataValue) -> bool {
        v is Int
    }

    open spec fn tagged(self) -> DataValue {
        DataValue::Int(self)
    }

    proof fn lemma_tagged_is_kind(self) {
    }

    proof fn lemma_tagged_injective(self, other: Self) {
    }

    fn wrap(self) -> (r: DataValue) {
        DataValue::Int(self)
    }

    fn unwrap_ref(v: &DataValue) -> (r: Option<&i64>) {
        match v {
            DataValue::Int(x) => Some(x),
            _ => None,
        }
    }

    fn unwrap_mut(v: &mut DataValue) -> (r: Option<&mut i64>) {
        match v {
            DataValue::Int(x) => Some(x),
            _ => None,
        }
    }
}

impl StorableData for u64 {
    open spec fn is_kind(v: DataValue) -> bool {
        v is UInt
    }

    open spec fn tagged(self) -> DataValue {
        DataValue::UInt(self)
    }

    proof fn lemma_tagged_is_kind(self) {
    }

    proof fn lemma_tagged_injective(self, other: Self) {
    }

    fn wrap(self) -> (r: DataValue) {
        DataValue::UInt(self)
    }

    fn unwrap_ref(v: &DataValue) -> (r: Option<&u64>) {
        match v {
            DataValue::UInt(x) => Some(x),
            _ => None,
        }
    }

    fn unwrap_mut(v: &mut DataValue) -> (r: Option<&mut u64>) {
        match v {
            DataValue::UInt(x) => Some(x),
            _ => None,
        }
    }
}

impl StorableData for usize {
    open spec fn is_kind(v: DataValue) -> bool {
        v is Index
    }

    open spec fn tagged(self) -> DataValue {
        DataValue::Index(self)
    }

    proof fn lemma_tagged_is_kind(self) {
    }

    proof fn lemma_tagged_injective(self, other: Self) {
    }

    fn wrap(self) -> (r: DataValue) {
        DataValue::Index(self)
    }

    fn unwrap_ref(v: &DataValue) -> (r: Option<&usize>) {
        match v {
            DataValue::Index(x) => Some(x),
            _ => None,
        }
    }

    fn unwrap_mut(v: &mut DataValue) -> (r: Option<&mut usize>) {
        match v {
            DataValue::Index(x) => Some(x),
            _ => None,
        }
    }
}

impl StorableData for Point {
    open spec fn is_kind(v: DataValue) -> bool {
        v is Point
    }

    open spec fn tagged(self) -> DataValue {
        DataValue::Point(self)
    }

    proof fn lemma_tagged_is_kind(self) {
    }

    proof fn lemma_tagged_injective(self, other: Self) {
    }

    fn wrap(self) -> (r: DataValue) {
        DataValue::Point(self)
    }

    fn unwrap_ref(v: &DataValue) -> (r: Option<&Point>) {
        match v {
            DataValue::Point(x) => Some(x),
            _ => None,
        }
    }

    fn unwrap_mut(v: &mut DataValue) -> (r: Option<&mut Point>) {
        match v {
            DataValue::Point(x) => Some(x),
            _ => None,
        }
    }
}

impl StorableData for String {
    open spec fn is_kind(v: DataValue) -> bool {
        v is Text
    }

    open spec fn tagged(self) -> DataValue {
        DataValue::Text(self)
    }

    proof fn lemma_tagged_is_kind(self) {
    }

    proof fn lemma_tagged_injective(self, other: Self) {
    }

    fn wrap(self) -> (r: DataValue) {
        DataValue::Text(self)
    }

    fn unwrap_ref(v: &DataValue) -> (r: Option<&String>) {
        match v {
            DataValue::Text(x) => Some(x),
            _ => None,
        }
    }

    fn unwrap_mut(v: &mut DataValue) -> (r: Option<&mut String>) {
        match v {
            DataValue::Text(x) => Some(x),
            _ => None,
        }
    }
}

impl StorableData for Vec<usize> {
    open spec fn is_kind(v: DataValue) -> bool {
        v is Indices
    }

    open spec fn tagged(self) -> DataValue {
        DataValue::Indices(self)
    }

    proof fn lemma_tagged_is_kind(self) {
    }

    proof fn lemma_tagged_injective(self, other: Self) {
    }

    fn wrap(self) -> (r: DataValue) {
        DataValue::Indices(self)
    }

    fn unwrap_ref(v: &DataValue) -> (r: Option<&Vec<usize>>) {
        match v {
            DataValue::Indices(x) => Some(x),
            _ => None,
        }
    }

    fn unwrap_mut(v: &mut DataValue) -> (r: Option<&mut Vec<usize>>) {
        match v {
            DataValue::Indices(x) => Some(x),
            _ => None,
        }
    }
}

/// Replacing the value at a key keeps the keys distinct, gives the key its
/// new value, and leaves every other key as it was.
pub broadcast proof fn lemma_replaced(after: Data, before: Data, key: Seq<char>, v: DataValue)
    requires
        before.wf(),
        #[trigger] after.replaced(before, key, v),
    ensures
        after.wf(),
        after.lookup(key) == Some(v),
        forall|k: Seq<char>| k != key ==> #[trigger] after.lookup(k) == before.lookup(k),
{
    let i = choose|i: int|
        0 <= i < before.entries@.len() && before.entries@[i].0@ == key && #[trigger] after.entries@
            == before.entries@.update(i, (before.entries@[i].0, v));
    assert forall|a: int, b: int|
        0 <= a < after.entries@.len() && 0 <= b < after.entries@.len() && a != b
            implies #[trigger] after.entries@[a].0@ != #[trigger] after.entries@[b].0@ by {
        assert(before.entries@[a].0@ != before.entries@[b].0@);
    }
    after.lemma_at_index(i);
    assert forall|k: Seq<char>| k != key implies #[trigger] after.lookup(k) == before.lookup(k) by {
        if after.has(k) {
            let j = choose|j: int| 0 <= j < after.entries@.len() && #[trigger] after.entries@[j].0@ == k;
            after.lemma_at_index(j);
            before.lemma_at_index(j);
        }
        if before.has(k) {
            let j = choose|j: int| 0 <= j < before.entries@.len() && #[trigger] before.entries@[j].0@ == k;
            assert(after.entries@[j].0@ == k);
        }
    }
}


/// The store: entries with distinct keys.
pub struct Data {
    entries: Vec<(String, DataValue)>,
}

impl Data {
    /// No two entries share a key.
    pub closed spec fn wf(self) -> bool {
        forall|i: int, j: int|
            0 <= i < self.entries@.len() && 0 <= j < self.entries@.len() && i != j
                ==> #[trigger] self.entries@[i].0@ != #[trigger] self.entries@[j].0@
    }

    /// Whether some value sits at `key`.
    pub closed spec fn has(self, key: Seq<char>) -> bool {
        exists|i: int| 0 <= i < self.entries@.len() && #[trigger] self.entries@[i].0@ == key
    }

    /// The value at `key`, when `has(key)`.
    pub closed spec fn at(self, key: Seq<char>) -> DataValue {
        self.entries@[choose|i: int| 0 <= i < self.entries@.len() && #[trigger] self.entries@[i].0@ == key].1
    }

    /// The value at `key`, if any.
    pub open spec fn lookup(self, key: Seq<char>) -> Option<DataValue> {
        if self.has(key) {
            Some(self.at(key))
        } else {
            None
        }
    }

    proof fn lemma_at_index(self, i: int)
        requires
            self.wf(),
            0 <= i < self.entries@.len(),
        ensures
            self.has(self.entries@[i].0@),
            self.at(self.entries@[i].0@) == self.entries@[i].1,
    {
        let k = self.entries@[i].0@;
        assert(self.entries@[i].0@ == k);
        let c = choose|j: int| 0 <= j < self.entries@.len() && #[trigger] self.entries@[j].0@ == k;
        if c != i {
            assert(self.entries@[c].0@ != self.entries@[i].0@);
        }
    }

    pub fn new() -> (r: Data)
        ensures
            r.wf(),
            forall|k: Seq<char>| #[trigger] r.lookup(k) == None::<DataValue>,
    {
        Data { entries: Vec::new() }
    }

    /// Where `key` sits among the entries, if anywhere.
    fn position(&self, key: &str) -> (r: Option<usize>)
        requires
            self.wf(),
        ensures
            r.is_some() == self.has(key@),
            r.is_some() ==> r.unwrap() < self.entries@.len() && self.entries@[r.unwrap() as int].0@
                == key@ && self.at(key@) == self.entries@[r.unwrap() as int].1,
    {
        let owned = key.to_owned();
        let mut i: usize = 0;
        while i < self.entries.len()
            invariant
                self.wf(),
                owned@ == key@,
                i <= self.entries@.len(),
                forall|j: int| 0 <= j < i ==> #[trigger] self.entries@[j].0@ != key@,
            decreases self.entries@.len() - i,
        {
            if self.entries[i].0 == owned {
                proof {
                    self.lemma_at_index(i as int);
                }
                return Some(i);
            }
            i = i + 1;
        }
        None
    }

    /// Whether no value sits at `key`.
    pub fn empty_at(&self, key: &str) -> (r: bool)
        requires
            self.wf(),
        ensures
            r == self.lookup(key@).is_none(),
    {
        self.position(key).is_none()
    }

    /// The value of kind `T` at `key`; fails when nothing sits there, and
    /// otherwise when what sits there is of another kind.
    pub fn get<T: StorableData>(&self, key: &str) -> (r: Result<&T, SledError>)
        requires
            self.wf(),
        ensures
            self.lookup(key@).is_none() ==> r == Err::<&T, SledError>(SledError::NoDataAtKey),
            self.lookup(key@).is_some() && !T::is_kind(self.lookup(key@).unwrap()) ==> r == Err::<
                &T,
                SledError,
            >(SledError::WrongDataKind),
            self.lookup(key@).is_some() && T::is_kind(self.lookup(key@).unwrap()) ==> r.is_ok()
                && r.unwrap().tagged() == self.lookup(key@).unwrap(),
    {
        match self.position(key) {
            None => Err(SledError::NoDataAtKey),
            Some(i) => match T::unwrap_ref(&self.entries[i].1) {
                Some(v) => Ok(v),
                None => Err(SledError::WrongDataKind),
            },
        }
    }

    /// Entries that differ from `before`'s only in the value at `key`, which is now `v`.
    pub closed spec fn replaced(self, before: Data, key: Seq<char>, v: DataValue) -> bool {
        exists|i: int|
            0 <= i < before.entries@.len() && before.entries@[i].0@ == key && #[trigger] self.entries@
                == before.entries@.update(i, (before.entries@[i].0, v))
    }

    /// The value of kind `T` at `key`, for changing in place; fails when
    /// nothing sits there or what sits there is of another kind, and then
    /// every key keeps its value (see `lemma_replaced`).
    pub fn get_mut<T: StorableData>(&mut self, key: &str) -> (r: Result<&mut T, SledError>)
        requires
            old(self).wf(),
        ensures
            old(self).lookup(key@).is_none() ==> r == Err::<&mut T, SledError>(
                SledError::NoDataAtKey,
            ) && *final(self) == *old(self),
            old(self).lookup(key@).is_some() && !T::is_kind(old(self).lookup(key@).unwrap()) ==> r
                == Err::<&mut T, SledError>(SledError::WrongDataKind) && final(self).replaced(
                *old(self),
                key@,
                old(self).lookup(key@).unwrap(),
            ),
            old(self).lookup(key@).is_some() && T::is_kind(old(self).lookup(key@).unwrap()) ==> r.is_ok()
                && (*r.unwrap()).tagged() == old(self).lookup(key@).unwrap() && final(self).replaced(
                *old(self),
                key@,
                (*final(r.unwrap())).tagged(),
            ),
    {
        match self.position(key) {
            None => Err(SledError::NoDataAtKey),
            Some(i) => {
                let entry = &mut self.entries[i];
                match T::unwrap_mut(&mut entry.1) {
                    Some(v) => Ok(v),
                    None => Err(SledError::WrongDataKind),
                }
            },
        }
    }

    /// Puts `value` at `key`, replacing what sat there, and hands it back for
    /// changing in place; other keys keep their values.
    pub fn store<T: StorableData>(&mut self, key: &str, value: T) -> (r: &mut T)
        requires
            old(self).wf(),
        ensures
            (*r).tagged() == value.tagged(),
            final(self).wf(),
            final(self).lookup(key@) == Some((*final(r)).tagged()),
            forall|k: Seq<char>| k != key@ ==> #[trigger] final(self).lookup(k) == old(self).lookup(k),
    {
        broadcast use lemma_replaced;

        proof {
            value.lemma_tagged_is_kind();
        }
        self.set(key, value);
        self.get_mut::<T>(key).unwrap()
    }

    /// Puts `value` at `key`, replacing what sat there; other keys keep their values.
    pub fn set<T: StorableData>(&mut self, key: &str, value: T)
        requires
            old(self).wf(),
        ensures
            final(self).wf(),
            final(self).lookup(key@) == Some(value.tagged()),
            forall|k: Seq<char>| k != key@ ==> #[trigger] final(self).lookup(k) == old(self).lookup(k),
    {
        let v = value.wrap();
        let owned = key.to_owned();
        let ghost before = *self;
        let ghost idx: int;
        match self.position(key) {
            Some(i) => {
                self.entries.set(i, (owned, v));
                proof {
                    idx = i as int;
                }
            },
            None => {
                self.entries.push((owned, v));
                proof {
                    idx = before.entries@.len() as int;
                    assert forall|a: int| 0 <= a < before.entries@.len() implies #[trigger] before.entries@[a].0@ != key@ by {
                        if before.entries@[a].0@ == key@ {
                            assert(before.has(key@));
                        }
                    }
                }
            },
        }
        proof {
            assert(forall|a: int| 0 <= a < self.entries@.len() && a != idx ==> #[trigger] self.entries@[a] == before.entries@[a]);
            assert forall|a: int, b: int|
                0 <= a < self.entries@.len() && 0 <= b < self.entries@.len() && a != b
                    implies #[trigger] self.entries@[a].0@ != #[trigger] self.entries@[b].0@ by {
                if a != idx && b != idx {
                    assert(before.entries@[a].0@ != before.entries@[b].0@);
                }
            }
            self.lemma_at_index(idx);
            assert forall|k: Seq<char>| k != key@ implies #[trigger] self.lookup(k) == before.lookup(k) by {
                if self.has(k) {
                    let j = choose|j: int| 0 <= j < self.entries@.len() && #[trigger] self.entries@[j].0@ == k;
                    assert(j != idx);
                    self.lemma_at_index(j);
                    before.lemma_at_index(j);
                }
                if before.has(k) {
                    let j = choose|j: int| 0 <= j < before.entries@.len() && #[trigger] before.entries@[j].0@ == k;
                    assert(j != idx);
                    assert(self.entries@[j].0@ == k);
                }
            }
        }
    }
}

} // verus!
