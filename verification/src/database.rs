//! The in-memory store: datasets with per-key expiry, and the database
//! that owns them together with the config map.
//!
//! A dataset is a pair of key-unique association lists: `data` maps byte
//! strings to stored values, `expiry` maps a sparse subset of keys to an
//! absolute wall-clock instant in milliseconds since the UNIX epoch.  An
//! expired key is invisible to reads but is not proactively deleted.

use vstd::prelude::*;
use vstd::slice::slice_to_vec;

use crate::ascii::bytes_eq;
use crate::assoc::{
    assoc_contains, assoc_find, assoc_get, assoc_keys_unique, lemma_assoc_find_at,
    lemma_assoc_find_props, lemma_assoc_remove_props, lemma_assoc_set_props, spec_assoc_remove,
    spec_assoc_set,
};

verus! {

/// A stored value.  The only defined tag holds a byte string; the enum
/// leaves room for further kinds.
pub enum Value {
    String(Vec<u8>),
}

/// Mathematical shape of a stored value.
pub enum ValueV {
    Str(Seq<u8>),
}

impl View for Value {
    type V = ValueV;

    open spec fn view(&self) -> ValueV {
        match self {
            Value::String(v) => ValueV::Str(v@),
        }
    }
}

/// The association list a vector of pairs stands for.
pub open spec fn pair_views<T: View>(s: Seq<(Vec<u8>, T)>) -> Seq<(Seq<u8>, T::V)> {
    s.map_values(|p: (Vec<u8>, T)| (p.0@, p.1@))
}

/// Index of the first entry whose key equals `key`, byte for byte.
pub(crate) fn assoc_index_of<T: View>(entries: &Vec<(Vec<u8>, T)>, key: &[u8]) -> (r: Option<usize>)
    ensures
        match r {
            Some(i) => i < entries@.len() && assoc_find(pair_views(entries@), key@) == Some(
                i as int,
            ),
            None => assoc_find(pair_views(entries@), key@) is None,
        },
{
    let ghost pv = pair_views(entries@);
    let mut i: usize = 0;
    while i < entries.len()
        invariant
            i <= entries@.len(),
            pv == pair_views(entries@),
            forall|j: int| 0 <= j < i ==> (#[trigger] pv[j]).0 != key@,
        decreases entries@.len() - i,
    {
        proof {
            assert(pv[i as int].0 == entries@[i as int].0@);
        }
        if bytes_eq(entries[i].0.as_slice(), key) {
            proof {
                lemma_assoc_find_at(pv, key@, i as int);
            }
            return Some(i);
        }
        i = i + 1;
    }
    proof {
        lemma_assoc_find_props(pv, key@);
        if assoc_find(pv, key@) is Some {
            let m = assoc_find(pv, key@)->Some_0;
            assert(pv[m].0 == key@);
        }
    }
    None
}

/// One dataset: the value store and the sparse expiry store.
pub struct Dataset {
    data: Vec<(Vec<u8>, Value)>,
    expiry: Vec<(Vec<u8>, u64)>,
}

/// Mathematical shape of a dataset.
pub struct DatasetView {
    pub data: Seq<(Seq<u8>, ValueV)>,
    pub expiry: Seq<(Seq<u8>, u64)>,
}

impl DatasetView {
    /// Keys are unique in both stores.
    pub open spec fn wf(self) -> bool {
        assoc_keys_unique(self.data) && assoc_keys_unique(self.expiry)
    }

    pub open spec fn empty() -> DatasetView {
        DatasetView { data: Seq::empty(), expiry: Seq::empty() }
    }

    /// What a read at wall-clock `now_ms` sees: nothing when an expiry is
    /// recorded and has been reached, the stored value otherwise.
    pub open spec fn lookup(self, key: Seq<u8>, now_ms: u64) -> Option<ValueV> {
        if assoc_contains(self.expiry, key) && assoc_get(self.expiry, key)->Some_0 <= now_ms {
            None
        } else {
            assoc_get(self.data, key)
        }
    }
}

impl View for Dataset {
    type V = DatasetView;

    closed spec fn view(&self) -> DatasetView {
        DatasetView { data: pair_views(self.data@), expiry: pair_views(self.expiry@) }
    }
}

/// Milliseconds since the UNIX epoch, from the wall clock.
///
/// Relies on `std::time::SystemTime::now` and
/// `SystemTime::duration_since`: a clock before the epoch is reported as
/// the epoch itself.  Nothing is promised of the result: callers state
/// what holds whatever instant comes back.
#[verifier::external_body]
pub fn now_unix_ms() -> u64 {
    match std::time::SystemTime::now().duration_since(std::time::UNIX_EPOCH) {
        Ok(d) => d.as_millis() as u64,
        Err(_) => 0,
    }
}

impl Dataset {
    pub open spec fn wf(&self) -> bool {
        self@.wf()
    }

    pub fn new() -> (r: Dataset)
        ensures
            r@ == DatasetView::empty(),
            r.wf(),
    {
        let r = Dataset { data: Vec::new(), expiry: Vec::new() };
        proof {
            assert(pair_views(r.data@) =~= Seq::<(Seq<u8>, ValueV)>::empty());
            assert(pair_views(r.expiry@) =~= Seq::<(Seq<u8>, u64)>::empty());
        }
        r
    }

    /// The value visible at wall-clock `now_ms`, if any.
    pub fn get_at(&self, key: &[u8], now_ms: u64) -> (r: Option<&Value>)
        requires
            self.wf(),
        ensures
            match r {
                Some(v) => self@.lookup(key@, now_ms) == Some(v@),
                None => self@.lookup(key@, now_ms) is None,
            },
    {
        match assoc_index_of(&self.expiry, key) {
            Some(i) => {
                proof {
                    assert(pair_views(self.expiry@)[i as int].1 == self.expiry@[i as int].1@);
                }
                if self.expiry[i].1 <= now_ms {
                    return None;
                }
            },
            None => {},
        }
        match assoc_index_of(&self.data, key) {
            Some(i) => {
                proof {
                    assert(pair_views(self.data@)[i as int].1 == self.data@[i as int].1@);
                }
                Some(&self.data[i].1)
            },
            None => None,
        }
    }

    /// The value visible now.  The instant the clock returns is not
    /// modelled, so the contract states what holds at every instant: a
    /// value that comes back is the stored one, and a read can come back
    /// empty only for a key that is absent or carries some expiry.
    pub fn get(&self, key: &[u8]) -> (r: Option<&Value>)
        requires
            self.wf(),
        ensures
            match r {
                Some(v) => assoc_get(self@.data, key@) == Some(v@),
                None => assoc_get(self@.data, key@) is None || assoc_contains(
                    self@.expiry,
                    key@,
                ),
            },
    {
        let now_ms = now_unix_ms();
        self.get_at(key, now_ms)
    }

    /// Upsert a value; any recorded expiry is left as it is.
    pub fn set(&mut self, key: Vec<u8>, value: Value)
        requires
            old(self).wf(),
        ensures
            final(self).wf(),
            final(self)@.data == spec_assoc_set(old(self)@.data, key@, value@),
            final(self)@.expiry == old(self)@.expiry,
    {
        let ghost pv = pair_views(self.data@);
        let ghost kv = key@;
        let ghost vv = value@;
        proof {
            lemma_assoc_set_props(pv, kv, vv);
        }
        match assoc_index_of(&self.data, key.as_slice()) {
            Some(i) => {
                self.data.set(i, (key, value));
                proof {
                    assert(pair_views(self.data@) =~= pv.update(i as int, (kv, vv)));
                }
            },
            None => {
                self.data.push((key, value));
                proof {
                    assert(pair_views(self.data@) =~= pv.push((kv, vv)));
                }
            },
        }
    }

    /// Upsert an absolute expiry instant for a key.
    pub fn set_expiry(&mut self, key: Vec<u8>, expiry_ms: u64)
        requires
            old(self).wf(),
        ensures
            final(self).wf(),
            final(self)@.expiry == spec_assoc_set(old(self)@.expiry, key@, expiry_ms),
            final(self)@.data == old(self)@.data,
    {
        let ghost pv = pair_views(self.expiry@);
        let ghost kv = key@;
        proof {
            lemma_assoc_set_props(pv, kv, expiry_ms);
        }
        match assoc_index_of(&self.expiry, key.as_slice()) {
            Some(i) => {
                self.expiry.set(i, (key, expiry_ms));
                proof {
                    assert(pair_views(self.expiry@) =~= pv.update(i as int, (kv, expiry_ms)));
                }
            },
            None => {
                self.expiry.push((key, expiry_ms));
                proof {
                    assert(pair_views(self.expiry@) =~= pv.push((kv, expiry_ms)));
                }
            },
        }
    }

    /// Drop any recorded expiry for a key.
    pub fn unset_expiry(&mut self, key: &[u8])
        requires
            old(self).wf(),
        ensures
            final(self).wf(),
            final(self)@.expiry == spec_assoc_remove(old(self)@.expiry, key@),
            final(self)@.data == old(self)@.data,
    {
        let ghost pv = pair_views(self.expiry@);
        proof {
            lemma_assoc_remove_props(pv, key@);
        }
        match assoc_index_of(&self.expiry, key) {
            Some(i) => {
                self.expiry.remove(i);
                proof {
                    assert forall|j: int| 0 <= j < pair_views(self.expiry@).len() implies
                        #[trigger] pair_views(self.expiry@)[j] == pv.remove(i as int)[j] by {
                        if j < i {
                            assert(self.expiry@[j] == old(self).expiry@[j]);
                        } else {
                            assert(self.expiry@[j] == old(self).expiry@[j + 1]);
                        }
                    }
                    assert(pair_views(self.expiry@) =~= pv.remove(i as int));
                }
            },
            None => {},
        }
    }

    /// A snapshot of every key in `data`, in store order.
    pub fn all_keys(&self) -> (r: Vec<Vec<u8>>)
        ensures
            r@.len() == self@.data.len(),
            forall|i: int| 0 <= i < r@.len() ==> (#[trigger] r@[i])@ == self@.data[i].0,
    {
        let mut r: Vec<Vec<u8>> = Vec::new();
        let mut i: usize = 0;
        while i < self.data.len()
            invariant
                i <= self.data@.len(),
                r@.len() == i,
                forall|j: int| 0 <= j < i ==> (#[trigger] r@[j])@ == pair_views(self.data@)[j].0,
            decreases self.data@.len() - i,
        {
            proof {
                assert(pair_views(self.data@)[i as int].0 == self.data@[i as int].0@);
            }
            r.push(slice_to_vec(self.data[i].0.as_slice()));
            i = i + 1;
        }
        r
    }
}

/// Law: the key snapshot names every key of the store, each exactly once.
pub proof fn lemma_all_keys_exact(d: DatasetView, keys: Seq<Seq<u8>>)
    requires
        d.wf(),
        keys.len() == d.data.len(),
        forall|i: int| 0 <= i < keys.len() ==> #[trigger] keys[i] == d.data[i].0,
    ensures
        forall|k: Seq<u8>| #[trigger] keys.contains(k) <==> assoc_contains(d.data, k),
        forall|i: int, j: int| 0 <= i < j < keys.len() ==> keys[i] != keys[j],
{
    assert forall|k: Seq<u8>| #[trigger] keys.contains(k) <==> assoc_contains(d.data, k) by {
        lemma_assoc_find_props(d.data, k);
        if keys.contains(k) {
            let i = choose|i: int| 0 <= i < keys.len() && keys[i] == k;
            assert(d.data[i].0 == k);
        }
        if assoc_contains(d.data, k) {
            let i = assoc_find(d.data, k)->Some_0;
            assert(keys[i] == k);
            assert(keys.contains(k));
        }
    }
}

/// The database: the datasets and the process-wide config map.
pub struct Database {
    config: Vec<(Vec<u8>, Vec<u8>)>,
    datasets: Vec<Dataset>,
}

/// Mathematical shape of the database.
pub struct DatabaseView {
    pub config: Seq<(Seq<u8>, Seq<u8>)>,
    pub datasets: Seq<DatasetView>,
}

impl DatabaseView {
    pub open spec fn wf(self) -> bool {
        self.datasets.len() >= 1 && assoc_keys_unique(self.config) && (forall|i: int|
            0 <= i < self.datasets.len() ==> (#[trigger] self.datasets[i]).wf())
    }
}

impl View for Database {
    type V = DatabaseView;

    closed spec fn view(&self) -> DatabaseView {
        DatabaseView {
            config: pair_views(self.config@),
            datasets: self.datasets@.map_values(|d: Dataset| d@),
        }
    }
}

impl Database {
    pub open spec fn wf(&self) -> bool {
        self@.wf()
    }

    /// One empty dataset, no config.
    pub fn new() -> (r: Database)
        ensures
            r.wf(),
            r@.config == Seq::<(Seq<u8>, Seq<u8>)>::empty(),
            r@.datasets == seq![DatasetView::empty()],
    {
        let mut datasets: Vec<Dataset> = Vec::new();
        datasets.push(Dataset::new());
        let r = Database { config: Vec::new(), datasets };
        proof {
            assert(pair_views(r.config@) =~= Seq::<(Seq<u8>, Seq<u8>)>::empty());
            assert(r@.datasets =~= seq![DatasetView::empty()]);
        }
        r
    }

    /// Current value of a config key.
    pub fn get_config(&self, key: &[u8]) -> (r: Option<Vec<u8>>)
        requires
            self.wf(),
        ensures
            match r {
                Some(v) => assoc_get(self@.config, key@) == Some(v@),
                None => assoc_get(self@.config, key@) is None,
            },
    {
        match assoc_index_of(&self.config, key) {
            Some(i) => {
                proof {
                    assert(pair_views(self.config@)[i as int].1 == self.config@[i as int].1@);
                }
                Some(slice_to_vec(self.config[i].1.as_slice()))
            },
            None => None,
        }
    }

    /// Upsert a config key.
    pub fn set_config(&mut self, key: &[u8], value: Vec<u8>)
        requires
            old(self).wf(),
        ensures
            final(self).wf(),
            final(self)@.config == spec_assoc_set(old(self)@.config, key@, value@),
            final(self)@.datasets == old(self)@.datasets,
    {
        let ghost pv = pair_views(self.config@);
        let ghost kv = key@;
        let ghost vv = value@;
        proof {
            lemma_assoc_set_props(pv, kv, vv);
        }
        let key_owned = slice_to_vec(key);
        match assoc_index_of(&self.config, key) {
            Some(i) => {
                self.config.set(i, (key_owned, value));
                proof {
                    assert(pair_views(self.config@) =~= pv.update(i as int, (kv, vv)));
                }
            },
            None => {
                self.config.push((key_owned, value));
                proof {
                    assert(pair_views(self.config@) =~= pv.push((kv, vv)));
                }
            },
        }
    }

    /// Shared access to one dataset, as a reader lock grants it.
    pub fn read(&self, dataset: usize) -> (d: &Dataset)
        requires
            self.wf(),
            dataset < self@.datasets.len(),
        ensures
            d@ == self@.datasets[dataset as int],
            d.wf(),
    {
        proof {
            assert(self@.datasets[dataset as int].wf());
        }
        &self.datasets[dataset]
    }

    /// Exclusive access to one dataset, as a writer lock grants it: the
    /// database afterwards holds whatever the borrow was left with.
    pub fn write(&mut self, dataset: usize) -> (d: &mut Dataset)
        requires
            old(self).wf(),
            dataset < old(self)@.datasets.len(),
        ensures
            d@ == old(self)@.datasets[dataset as int],
            d.wf(),
            final(self)@.datasets == old(self)@.datasets.update(dataset as int, final(d)@),
            final(self)@.config == old(self)@.config,
    {
        proof {
            assert(self@.datasets[dataset as int].wf());
        }
        &mut self.datasets[dataset]
    }

    /// Replace every dataset, as the snapshot loader does at startup.
    pub fn swap_datasets(&mut self, datasets: Vec<Dataset>)
        requires
            old(self).wf(),
            datasets@.len() >= 1,
            forall|i: int| 0 <= i < datasets@.len() ==> (#[trigger] datasets@[i]).wf(),
        ensures
            final(self).wf(),
            final(self)@.datasets == datasets@.map_values(|d: Dataset| d@),
            final(self)@.config == old(self)@.config,
    {
        self.datasets = datasets;
    }
}

} // verus!
