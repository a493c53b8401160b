use vstd::prelude::*;

use crate::hashing::{hash_f, key_hash};

verus! {

/// One stored value, with its key and the key's hash, taken once when the
/// entry is added.
pub struct DictEntry<T> {
    pub hash: u64,
    pub key: String,
    pub val: T,
}

impl<T> std::hash::Hash for DictEntry<T> {
    /// Relies on `String`'s `Hash`: an entry hashes as its key alone.
    #[verifier::external_body]
    fn hash<H: std::hash::Hasher>(&self, state: &mut H) {
        self.key.hash(state)
    }
}

/// The hash of an entry's key.
pub open spec fn entry_hash<T>(e: DictEntry<T>) -> u64 {
    key_hash(e.key@)
}

/// Entries in strictly ascending order of key hash: no two share a hash.
pub open spec fn ascending<T>(s: Seq<DictEntry<T>>) -> bool {
    forall|i: int, j: int|
        0 <= i < j < s.len() ==> entry_hash(#[trigger] s[i]) < entry_hash(#[trigger] s[j])
}

/// What a sequence of entries files under each hash: the key and the value.
pub open spec fn model<T>(s: Seq<DictEntry<T>>) -> Map<u64, (String, T)>
    decreases s.len(),
{
    if s.len() == 0 {
        Map::empty()
    } else {
        let e = s.last();
        model(s.drop_last()).insert(entry_hash(e), (e.key, e.val))
    }
}

/// The value filed under the hash of `k`, if any.
pub open spec fn lookup<T>(m: Map<u64, (String, T)>, k: Seq<char>) -> Option<T> {
    if m.contains_key(key_hash(k)) {
        Some(m[key_hash(k)].1)
    } else {
        None
    }
}

/// The contents after adding `v` under `k`: unchanged where the hash of `k`
/// is taken already.
pub open spec fn added<T>(m: Map<u64, (String, T)>, k: String, v: T) -> Map<u64, (String, T)> {
    if m.contains_key(key_hash(k@)) {
        m
    } else {
        m.insert(key_hash(k@), (k, v))
    }
}

/// The contents after removing what is filed under the hash of `k`.
pub open spec fn removed<T>(m: Map<u64, (String, T)>, k: Seq<char>) -> Map<u64, (String, T)> {
    m.remove(key_hash(k))
}

/// The model's domain is finite and holds exactly the hashes of the entries.
proof fn lemma_model_dom<T>(s: Seq<DictEntry<T>>)
    ensures
        model(s).dom().finite(),
        forall|h: u64|
            #[trigger] model(s).contains_key(h) <==> exists|i: int|
                0 <= i < s.len() && entry_hash(s[i]) == h,
    decreases s.len(),
{
    if s.len() > 0 {
        let p = s.drop_last();
        lemma_model_dom(p);
        assert forall|h: u64|
            #[trigger] model(s).contains_key(h) <==> exists|i: int|
                0 <= i < s.len() && entry_hash(s[i]) == h by {
            if model(s).contains_key(h) {
                if h == entry_hash(s.last()) {
                    assert(entry_hash(s[s.len() - 1]) == h);
                } else {
                    let i = choose|i: int| 0 <= i < p.len() && entry_hash(p[i]) == h;
                    assert(s[i] == p[i]);
                }
            }
            if exists|i: int| 0 <= i < s.len() && entry_hash(s[i]) == h {
                let i = choose|i: int| 0 <= i < s.len() && entry_hash(s[i]) == h;
                if i < p.len() {
                    assert(p[i] == s[i]);
                }
            }
        }
    }
}

/// Dropping the last entry keeps the order, and every other entry's hash is below it.
proof fn lemma_ascending_prefix<T>(s: Seq<DictEntry<T>>)
    requires
        s.len() > 0,
        ascending(s),
    ensures
        ascending(s.drop_last()),
        forall|i: int| 0 <= i < s.len() - 1 ==> entry_hash(#[trigger] s.drop_last()[i]) < entry_hash(s.last()),
{
    let p = s.drop_last();
    assert forall|i: int, j: int| 0 <= i < j < p.len() implies entry_hash(#[trigger] p[i]) < entry_hash(#[trigger] p[j]) by {
        assert(p[i] == s[i] && p[j] == s[j]);
    }
    assert forall|i: int| 0 <= i < s.len() - 1 implies entry_hash(#[trigger] p[i]) < entry_hash(s.last()) by {
        assert(p[i] == s[i]);
        assert(s.last() == s[s.len() - 1]);
    }
}

/// In an ordered sequence, the model files each entry under its own hash.
proof fn lemma_model_at<T>(s: Seq<DictEntry<T>>, i: int)
    requires
        ascending(s),
        0 <= i < s.len(),
    ensures
        model(s).contains_key(entry_hash(s[i])),
        model(s)[entry_hash(s[i])] == (s[i].key, s[i].val),
    decreases s.len(),
{
    if i < s.len() - 1 {
        let p = s.drop_last();
        lemma_ascending_prefix(s);
        lemma_model_at(p, i);
        assert(p[i] == s[i]);
    }
}

/// In an ordered sequence, the model has one key per entry.
proof fn lemma_model_len<T>(s: Seq<DictEntry<T>>)
    requires
        ascending(s),
    ensures
        model(s).dom().len() == s.len(),
    decreases s.len(),
{
    if s.len() > 0 {
        let p = s.drop_last();
        lemma_ascending_prefix(s);
        lemma_model_len(p);
        lemma_model_dom(p);
        if model(p).contains_key(entry_hash(s.last())) {
            let i = choose|i: int| 0 <= i < p.len() && entry_hash(p[i]) == entry_hash(s.last());
            assert(entry_hash(p[i]) < entry_hash(s.last()));
        }
    }
}

/// Inserting an entry where it keeps the order adds it to the model.
proof fn lemma_model_insert<T>(s: Seq<DictEntry<T>>, pos: int, e: DictEntry<T>)
    requires
        ascending(s),
        0 <= pos <= s.len(),
        forall|j: int| 0 <= j < pos ==> entry_hash(#[trigger] s[j]) < entry_hash(e),
        forall|j: int| pos <= j < s.len() ==> entry_hash(e) < entry_hash(#[trigger] s[j]),
    ensures
        ascending(s.insert(pos, e)),
        model(s.insert(pos, e)) == model(s).insert(entry_hash(e), (e.key, e.val)),
{
    let t = s.insert(pos, e);
    s.insert_ensures(pos, e);
    assert forall|k: int| 0 <= k < t.len() implies #[trigger] t[k] == (if k < pos {
        s[k]
    } else if k == pos {
        e
    } else {
        s[k - 1]
    }) by {
        if k > pos {
            assert(t[(k - 1) + 1] == s[k - 1]);
        }
    }
    assert forall|i: int, j: int| 0 <= i < j < t.len() implies entry_hash(#[trigger] t[i])
        < entry_hash(#[trigger] t[j]) by {
        if j < pos {
        } else if j == pos {
        } else if i < pos {
            assert(entry_hash(s[i]) < entry_hash(e));
        } else if i == pos {
        } else {
            assert(entry_hash(s[i - 1]) < entry_hash(s[j - 1]));
        }
    }
    let m = model(s).insert(entry_hash(e), (e.key, e.val));
    lemma_model_dom(s);
    lemma_model_dom(t);
    assert forall|h: u64| #[trigger] model(t).contains_key(h) <==> m.contains_key(h) by {
        if model(t).contains_key(h) {
            let k = choose|k: int| 0 <= k < t.len() && entry_hash(t[k]) == h;
            if k < pos {
                assert(entry_hash(s[k]) == h);
            } else if k > pos {
                assert(entry_hash(s[k - 1]) == h);
            }
        }
        if m.contains_key(h) && h != entry_hash(e) {
            let k = choose|k: int| 0 <= k < s.len() && entry_hash(s[k]) == h;
            if k < pos {
                assert(entry_hash(t[k]) == h);
            } else {
                assert(entry_hash(t[k + 1]) == h);
            }
        }
        if h == entry_hash(e) {
            assert(entry_hash(t[pos]) == h);
        }
    }
    assert forall|h: u64| #[trigger] model(t).contains_key(h) implies model(t)[h] == m[h] by {
        let k = choose|k: int| 0 <= k < t.len() && entry_hash(t[k]) == h;
        lemma_model_at(t, k);
        if k < pos {
            lemma_model_at(s, k);
        } else if k > pos {
            lemma_model_at(s, k - 1);
        }
    }
    assert(model(t) =~= m);
}

/// Removing an entry keeps the order and removes its hash from the model.
proof fn lemma_model_remove<T>(s: Seq<DictEntry<T>>, pos: int)
    requires
        ascending(s),
        0 <= pos < s.len(),
    ensures
        ascending(s.remove(pos)),
        model(s.remove(pos)) == model(s).remove(entry_hash(s[pos])),
{
    let t = s.remove(pos);
    s.remove_ensures(pos);
    assert forall|k: int| 0 <= k < t.len() implies #[trigger] t[k] == (if k < pos {
        s[k]
    } else {
        s[k + 1]
    }) by {}
    assert forall|i: int, j: int| 0 <= i < j < t.len() implies entry_hash(#[trigger] t[i])
        < entry_hash(#[trigger] t[j]) by {
        if j < pos {
            assert(entry_hash(s[i]) < entry_hash(s[j]));
        } else if i < pos {
            assert(entry_hash(s[i]) < entry_hash(s[j + 1]));
        } else {
            assert(entry_hash(s[i + 1]) < entry_hash(s[j + 1]));
        }
    }
    let m = model(s).remove(entry_hash(s[pos]));
    lemma_model_dom(s);
    lemma_model_dom(t);
    assert forall|h: u64| #[trigger] model(t).contains_key(h) <==> m.contains_key(h) by {
        if model(t).contains_key(h) {
            let k = choose|k: int| 0 <= k < t.len() && entry_hash(t[k]) == h;
            if k < pos {
                assert(entry_hash(s[k]) == h);
                assert(entry_hash(s[k]) < entry_hash(s[pos]));
            } else {
                assert(entry_hash(s[k + 1]) == h);
                assert(entry_hash(s[pos]) < entry_hash(s[k + 1]));
            }
        }
        if m.contains_key(h) {
            let k = choose|k: int| 0 <= k < s.len() && entry_hash(s[k]) == h;
            if k < pos {
                assert(entry_hash(t[k]) == h);
            } else if k > pos {
                assert(entry_hash(t[k - 1]) == h);
            }
        }
    }
    assert forall|h: u64| #[trigger] model(t).contains_key(h) implies model(t)[h] == m[h] by {
        let k = choose|k: int| 0 <= k < t.len() && entry_hash(t[k]) == h;
        lemma_model_at(t, k);
        if k < pos {
            lemma_model_at(s, k);
        } else {
            lemma_model_at(s, k + 1);
        }
    }
    assert(model(t) =~= m);
}

/// Associative access by string key.
pub trait DictIface<T>: Sized {
    /// The container's internal invariant.
    spec fn well_formed(&self) -> bool;

    /// The stored keys and values, by the hash of each key.
    spec fn contents(&self) -> Map<u64, (String, T)>;

    /// Adds `val` under `key`. Returns false, and changes nothing, where an
    /// entry with the same key hash is stored already (the same key, or a
    /// colliding one).
    fn add(&mut self, key: String, val: T) -> (r: bool)
        requires
            old(self).well_formed(),
        ensures
            final(self).well_formed(),
            r == !old(self).contents().contains_key(key_hash(key@)),
            final(self).contents() == added(old(self).contents(), key, val),
    ;

    /// The value stored under the hash of `key`, if any.
    fn get(&self, key: &str) -> (r: Option<&T>)
        requires
            self.well_formed(),
        ensures
            match r {
                Some(v) => lookup(self.contents(), key@) == Some(*v),
                None => lookup(self.contents(), key@) is None,
            },
    ;

    /// Whether a value is stored under the hash of `key`.
    fn contains_key(&self, key: &str) -> (r: bool)
        requires
            self.well_formed(),
        ensures
            r == lookup(self.contents(), key@) is Some,
    ;

    /// Takes out the value stored under the hash of `key`, if any.
    fn remove_key(&mut self, key: &str) -> (r: Option<T>)
        requires
            old(self).well_formed(),
        ensures
            final(self).well_formed(),
            r == lookup(old(self).contents(), key@),
            final(self).contents() == removed(old(self).contents(), key@),
    ;
}

/// A dictionary: entries kept in strictly ascending order of key hash.
pub struct Dict<T> {
    entries: Vec<DictEntry<T>>,
}

impl<T> View for Dict<T> {
    type V = Seq<DictEntry<T>>;

    /// The entries, in the order they are stored and iterated.
    closed spec fn view(&self) -> Seq<DictEntry<T>> {
        self.entries@
    }
}

impl<T> Dict<T> {
    /// Each entry holds the hash of its own key, and the hashes ascend strictly.
    spec fn inv(&self) -> bool {
        &&& forall|i: int|
            0 <= i < self.entries@.len() ==> (#[trigger] self.entries@[i]).hash == key_hash(
                self.entries@[i].key@,
            )
        &&& ascending(self.entries@)
    }

    /// An empty dictionary.
    pub fn new() -> (r: Self)
        ensures
            r.well_formed(),
            r@ == Seq::<DictEntry<T>>::empty(),
            r.contents() == Map::<u64, (String, T)>::empty(),
    {
        Dict { entries: Vec::new() }
    }

    /// The number of entries.
    pub fn len(&self) -> (r: usize)
        requires
            self.well_formed(),
        ensures
            r == self@.len(),
            r == self.contents().dom().len(),
    {
        proof {
            lemma_model_len(self@);
        }
        self.entries.len()
    }

    /// Whether there are no entries.
    pub fn is_empty(&self) -> (r: bool)
        requires
            self.well_formed(),
        ensures
            r == (self@.len() == 0),
            r == (self.contents().dom().len() == 0),
    {
        proof {
            lemma_model_len(self@);
        }
        self.entries.len() == 0
    }

    /// The entries, in ascending order of key hash, for iteration and
    /// indexed access.
    pub fn entries(&self) -> (r: &[DictEntry<T>])
        ensures
            r@ == self@,
    {
        self.entries.as_slice()
    }

    /// Binary search for `h` among the stored hashes: the index of the entry
    /// that holds it, or else the index at which it would keep the order.
    fn search(&self, h: u64) -> (r: Result<usize, usize>)
        requires
            self.inv(),
        ensures
            match r {
                Ok(i) => i < self@.len() && entry_hash(self@[i as int]) == h,
                Err(i) => i <= self@.len() && (forall|j: int|
                    0 <= j < i ==> entry_hash(#[trigger] self@[j]) < h) && (forall|j: int|
                    i <= j < self@.len() ==> h < entry_hash(#[trigger] self@[j])),
            },
    {
        let mut lo: usize = 0;
        let mut hi: usize = self.entries.len();
        while lo < hi
            invariant
                self.inv(),
                lo <= hi <= self.entries@.len(),
                forall|j: int| 0 <= j < lo ==> entry_hash(#[trigger] self.entries@[j]) < h,
                forall|j: int| hi <= j < self.entries@.len() ==> h < entry_hash(#[trigger] self.entries@[j]),
            decreases hi - lo,
        {
            let mid: usize = lo + (hi - lo) / 2;
            let mh = self.entries[mid].hash;
            if mh == h {
                return Ok(mid);
            } else if mh < h {
                assert forall|j: int| 0 <= j <= mid implies entry_hash(#[trigger] self.entries@[j]) < h by {
                    if j < mid {
                        assert(entry_hash(self.entries@[j]) < entry_hash(self.entries@[mid as int]));
                    }
                }
                lo = mid + 1;
            } else {
                assert forall|j: int| mid <= j < self.entries@.len() implies h < entry_hash(#[trigger] self.entries@[j]) by {
                    if j > mid {
                        assert(entry_hash(self.entries@[mid as int]) < entry_hash(self.entries@[j]));
                    }
                }
                hi = mid;
            }
        }
        Err(lo)
    }
}

impl<T> DictIface<T> for Dict<T> {
    closed spec fn well_formed(&self) -> bool {
        self.inv()
    }

    open spec fn contents(&self) -> Map<u64, (String, T)> {
        model(self@)
    }

    fn add(&mut self, key: String, val: T) -> (r: bool)
        ensures
            final(self)@.len() == old(self)@.len() + if r { 1int } else { 0int },
            !r ==> final(self)@ == old(self)@,
    {
        let h = hash_f(key.as_str());
        proof {
            lemma_model_dom(self@);
        }
        match self.search(h) {
            Ok(_) => false,
            Err(pos) => {
                let ghost s = self.entries@;
                let entry = DictEntry { hash: h, key, val };
                self.entries.insert(pos, entry);
                proof {
                    lemma_model_insert(s, pos as int, entry);
                    s.insert_ensures(pos as int, entry);
                    assert forall|i: int| 0 <= i < self.entries@.len() implies (
                    #[trigger] self.entries@[i]).hash == key_hash(self.entries@[i].key@) by {
                        if i > pos {
                            assert(self.entries@[(i - 1) + 1] == s[i - 1]);
                        }
                    }
                }
                true
            },
        }
    }

    fn get(&self, key: &str) -> (r: Option<&T>) {
        let h = hash_f(key);
        match self.search(h) {
            Ok(i) => {
                proof {
                    lemma_model_at(self@, i as int);
                }
                Some(&self.entries[i].val)
            },
            Err(_) => {
                proof {
                    lemma_model_dom(self@);
                }
                None
            },
        }
    }

    fn contains_key(&self, key: &str) -> (r: bool) {
        self.get(key).is_some()
    }

    fn remove_key(&mut self, key: &str) -> (r: Option<T>)
        ensures
            r is Some ==> final(self)@.len() == old(self)@.len() - 1,
            r is None ==> final(self)@ == old(self)@,
    {
        let h = hash_f(key);
        match self.search(h) {
            Ok(pos) => {
                let ghost s = self.entries@;
                proof {
                    lemma_model_at(s, pos as int);
                    lemma_model_remove(s, pos as int);
                    s.remove_ensures(pos as int);
                }
                let entry = self.entries.remove(pos);
                proof {
                    assert forall|i: int| 0 <= i < self.entries@.len() implies (
                    #[trigger] self.entries@[i]).hash == key_hash(self.entries@[i].key@) by {
                        if i >= pos {
                            assert(self.entries@[i] == s[i + 1]);
                        }
                    }
                }
                Some(entry.val)
            },
            Err(_) => {
                proof {
                    lemma_model_dom(self@);
                }
                None
            },
        }
    }
}

/// Every state the operations leave behind lists its entries in strictly
/// ascending order of key hash, each entry holding the hash of its own key.
pub proof fn lemma_entries_ascending<T>(d: &Dict<T>)
    requires
        d.well_formed(),
    ensures
        ascending(d@),
        forall|i: int| 0 <= i < d@.len() ==> (#[trigger] d@[i]).hash == key_hash(d@[i].key@),
{
}

} // verus!
