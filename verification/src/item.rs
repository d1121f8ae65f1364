use vstd::prelude::*;

verus! {

/// A single versioned record stored at a leaf of the trie.
///
/// `timestamp` is a wall-clock instant in milliseconds since the Unix
/// epoch, captured when the record was written.  `id` is a
/// process-monotonic identifier stamped at write time; it singles out
/// one specific version for expiration or removal.
pub struct Item {
    pub key: String,
    pub value: Vec<u8>,
    pub timestamp: u64,
    pub id: i64,
}

/// The mathematical value of an [`Item`]: its fields taken as sequences
/// and integers.
pub ghost struct ItemModel {
    pub key: Seq<char>,
    pub value: Seq<u8>,
    pub timestamp: int,
    pub id: int,
}

impl View for Item {
    type V = ItemModel;

    open spec fn view(&self) -> ItemModel {
        ItemModel {
            key: self.key@,
            value: self.value@,
            timestamp: self.timestamp as int,
            id: self.id as int,
        }
    }
}

impl DeepView for Item {
    type V = ItemModel;

    open spec fn deep_view(&self) -> ItemModel {
        self.view()
    }
}

impl Item {
    /// An exact copy of the record.
    pub fn duplicate(&self) -> (r: Item)
        ensures
            r@ == self@,
    {
        Item {
            key: self.key.clone(),
            value: vstd::slice::slice_to_vec(self.value.as_slice()),
            timestamp: self.timestamp,
            id: self.id,
        }
    }
}

/// Two records are considered equal when their key and value agree;
/// timestamps and ids are ignored.
pub fn items_equal(a: &Item, b: &Item) -> (r: bool)
    ensures
        r == (a@.key == b@.key && a@.value == b@.value),
{
    let keys_eq = a.key == b.key;
    let vals_eq = a.value == b.value;
    proof {
        if vals_eq {
            assert(a.value@ =~= b.value@);
        }
        if a.value@ == b.value@ {
            assert(forall|i: int| 0 <= i < a.value@.len() ==> a.value@[i] == b.value@[i]);
        }
    }
    keys_eq && vals_eq
}

/// Relies on std's `SystemTime::now` and `duration_since`: the current
/// wall-clock time, in milliseconds since the Unix epoch.  Nothing is
/// promised of the value; the clock may move in either direction.
#[verifier::external_body]
pub fn now_millis() -> u64 {
    match std::time::SystemTime::now().duration_since(std::time::SystemTime::UNIX_EPOCH) {
        Ok(d) => d.as_millis() as u64,
        Err(_) => 0,
    }
}

/// A record carrying the given key and value, stamped with the current
/// wall clock and a placeholder id.
pub fn create_item(key: &str, value: &[u8]) -> (r: Item)
    ensures
        r@.key == key@,
        r@.value == value@,
        r@.id == 1,
{
    Item {
        key: key.to_owned(),
        value: vstd::slice::slice_to_vec(value),
        timestamp: now_millis(),
        id: 1,
    }
}

} // verus!
