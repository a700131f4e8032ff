//! An in-memory key-value cache with per-entry absolute expiry times and
//! lazy (on-read) eviction of expired entries.

use vstd::prelude::*;

verus! {

/// Mathematical model of one stored entry: the value together with its
/// absolute expiry time in whole Unix seconds.
pub ghost struct EntryModel {
    pub value: Seq<char>,
    pub expiry: u64,
}

/// One stored entry: a value and the absolute Unix second at which it
/// stops being valid.
pub struct CacheEntry {
    value: String,
    expiry: u64,
}

impl View for CacheEntry {
    type V = EntryModel;

    closed spec fn view(&self) -> EntryModel {
        EntryModel { value: self.value@, expiry: self.expiry }
    }
}

/// The abstract contents of a sequence of key/entry pairs, read left to
/// right: a later pair for the same key overwrites an earlier one.
pub open spec fn map_of(s: Seq<(Seq<char>, EntryModel)>) -> Map<Seq<char>, EntryModel>
    decreases s.len(),
{
    if s.len() == 0 {
        Map::empty()
    } else {
        map_of(s.drop_last()).insert(s.last().0, s.last().1)
    }
}

/// No key occurs twice in the sequence of pairs.
pub open spec fn unique_keys(s: Seq<(Seq<char>, EntryModel)>) -> bool {
    forall|i: int, j: int| 0 <= i < j < s.len() ==> s[i].0 != s[j].0
}

/// An in-memory cache from string keys to string values, where every entry
/// carries an absolute expiry time; expired entries are removed lazily by
/// `get`.
pub struct Cache {
    entries: Vec<(String, CacheEntry)>,
}

/// The expiry second assigned by an insertion performed at time `now` with
/// time-to-live `ttl` seconds; the sum saturates at the largest representable
/// second.
pub open spec fn expiry_at(now: u64, ttl: u64) -> u64 {
    if now + ttl <= u64::MAX {
        (now + ttl) as u64
    } else {
        u64::MAX
    }
}

/// What a lookup of `k` at time `now` returns out of contents `m`:
/// the value while `now` is strictly before the expiry second, nothing
/// otherwise.
pub open spec fn lookup_at(
    m: Map<Seq<char>, EntryModel>,
    k: Seq<char>,
    now: u64,
) -> Option<Seq<char>> {
    if m.contains_key(k) && now < m[k].expiry {
        Some(m[k].value)
    } else {
        None
    }
}

/// The contents after a lookup of `k` at time `now`: an entry found expired
/// is removed, everything else is untouched.
pub open spec fn map_after_get(
    m: Map<Seq<char>, EntryModel>,
    k: Seq<char>,
    now: u64,
) -> Map<Seq<char>, EntryModel> {
    if m.contains_key(k) && now >= m[k].expiry {
        m.remove(k)
    } else {
        m
    }
}

pub(crate) proof fn lemma_map_of_contains(s: Seq<(Seq<char>, EntryModel)>, k: Seq<char>)
    ensures
        map_of(s).contains_key(k) <==> exists|i: int| 0 <= i < s.len() && s[i].0 == k,
    decreases s.len(),
{
    if s.len() == 0 {
    } else {
        lemma_map_of_contains(s.drop_last(), k);
        if s.last().0 == k {
            assert(s[s.len() - 1].0 == k);
        } else {
            if map_of(s).contains_key(k) {
                let i = choose|i: int| 0 <= i < s.drop_last().len() && s.drop_last()[i].0 == k;
                assert(s[i].0 == k);
            }
            if exists|i: int| 0 <= i < s.len() && s[i].0 == k {
                let i = choose|i: int| 0 <= i < s.len() && s[i].0 == k;
                assert(i < s.len() - 1);
                assert(s.drop_last()[i].0 == k);
            }
        }
    }
}

proof fn lemma_map_of_index(s: Seq<(Seq<char>, EntryModel)>, i: int)
    requires
        unique_keys(s),
        0 <= i < s.len(),
    ensures
        map_of(s).contains_key(s[i].0),
        map_of(s)[s[i].0] == s[i].1,
    decreases s.len(),
{
    if i == s.len() - 1 {
    } else {
        assert(s[i].0 != s[s.len() - 1].0);
        assert(unique_keys(s.drop_last())) by {
            assert(forall|a: int, b: int|
                0 <= a < b < s.drop_last().len() ==> s.drop_last()[a].0 != s.drop_last()[b].0);
        }
        assert(s.drop_last()[i] == s[i]);
        lemma_map_of_index(s.drop_last(), i);
    }
}

proof fn lemma_map_of_remove(s: Seq<(Seq<char>, EntryModel)>, i: int)
    requires
        unique_keys(s),
        0 <= i < s.len(),
    ensures
        map_of(s.remove(i)) == map_of(s).remove(s[i].0),
    decreases s.len(),
{
    let k = s[i].0;
    assert(unique_keys(s.drop_last())) by {
        assert(forall|a: int, b: int|
            0 <= a < b < s.drop_last().len() ==> s.drop_last()[a].0 != s.drop_last()[b].0);
    }
    if i == s.len() - 1 {
        assert(s.remove(i) =~= s.drop_last());
        lemma_map_of_contains(s.drop_last(), k);
        assert(!map_of(s.drop_last()).contains_key(k));
        assert(map_of(s.drop_last()) =~= map_of(s.drop_last()).insert(k, s[i].1).remove(k));
    } else {
        let t = s.remove(i);
        assert(t.drop_last() =~= s.drop_last().remove(i));
        assert(t.last() == s.last());
        lemma_map_of_remove(s.drop_last(), i);
        assert(k != s.last().0);
        assert(map_of(t) == map_of(s.drop_last().remove(i)).insert(s.last().0, s.last().1));
        assert(map_of(s.drop_last()).remove(k).insert(s.last().0, s.last().1)
            =~= map_of(s.drop_last()).insert(s.last().0, s.last().1).remove(k));
    }
}

impl View for Cache {
    type V = Map<Seq<char>, EntryModel>;

    closed spec fn view(&self) -> Map<Seq<char>, EntryModel> {
        map_of(self.entries_view())
    }
}

impl Cache {
    /// The cache's stored pairs, in storage order, as mathematical values.
    pub closed spec fn entries_view(&self) -> Seq<(Seq<char>, EntryModel)> {
        self.entries@.map(|i: int, p: (String, CacheEntry)| (p.0@, p.1@))
    }

    /// Structural validity: no key is stored twice.
    pub closed spec fn wf(&self) -> bool {
        unique_keys(self.entries_view())
    }

    /// Creates a new empty cache.
    pub fn new() -> (r: Self)
        ensures
            r.wf(),
            r@ == Map::<Seq<char>, EntryModel>::empty(),
            r.entries_view() == Seq::<(Seq<char>, EntryModel)>::empty(),
    {
        let r = Cache { entries: Vec::new() };
        proof {
            assert(r.entries_view() =~= Seq::<(Seq<char>, EntryModel)>::empty());
        }
        r
    }

    fn find_index(&self, key: &String) -> (r: Option<usize>)
        ensures
            match r {
                Some(i) => i < self.entries_view().len() && self.entries_view()[i as int].0
                    == key@,
                None => forall|i: int|
                    0 <= i < self.entries_view().len() ==> self.entries_view()[i].0 != key@,
            },
    {
        let mut i: usize = 0;
        while i < self.entries.len()
            invariant
                i <= self.entries@.len(),
                forall|j: int| 0 <= j < i ==> self.entries_view()[j].0 != key@,
            decreases self.entries@.len() - i,
        {
            let pair = &self.entries[i];
            if pair.0 == *key {
                assert(self.entries_view()[i as int].0 == key@);
                return Some(i);
            }
            assert(self.entries_view()[i as int].0 != key@);
            i = i + 1;
        }
        None
    }

    /// Removes the entry for `key`, if any; absent keys are no error.
    pub fn invalidate(&mut self, key: &str)
        requires
            old(self).wf(),
        ensures
            final(self).wf(),
            final(self)@ == old(self)@.remove(key@),
            !old(self)@.contains_key(key@) ==> final(self).entries_view() == old(
                self,
            ).entries_view(),
    {
        let ks: String = key.to_owned();
        proof {
            lemma_map_of_contains(self.entries_view(), key@);
        }
        match self.find_index(&ks) {
            Some(i) => {
                proof {
                    lemma_map_of_remove(self.entries_view(), i as int);
                }
                let ghost pre = self.entries_view();
                self.entries.remove(i);
                proof {
                    assert(self.entries_view() =~= pre.remove(i as int));
                    assert(forall|a: int, b: int|
                        0 <= a < b < pre.remove(i as int).len() ==> pre.remove(i as int)[a].0
                            != pre.remove(i as int)[b].0);
                }
            },
            None => {
                proof {
                    assert(!old(self)@.contains_key(key@));
                    assert(old(self)@ =~= old(self)@.remove(key@));
                }
            },
        }
    }

    /// The number of stored entries.
    pub(crate) fn n_entries(&self) -> (n: usize)
        ensures
            n == self.entries_view().len(),
    {
        self.entries.len()
    }

    /// The key of the entry at storage position `i`.
    pub(crate) fn key_at(&self, i: usize) -> (k: &String)
        requires
            i < self.entries_view().len(),
        ensures
            k@ == self.entries_view()[i as int].0,
    {
        &self.entries[i].0
    }

    /// The value of the entry at storage position `i`.
    pub(crate) fn value_at(&self, i: usize) -> (v: &String)
        requires
            i < self.entries_view().len(),
        ensures
            v@ == self.entries_view()[i as int].1.value,
    {
        &self.entries[i].1.value
    }

    /// The expiry second of the entry at storage position `i`.
    pub(crate) fn expiry_at_index(&self, i: usize) -> (x: u64)
        requires
            i < self.entries_view().len(),
        ensures
            x == self.entries_view()[i as int].1.expiry,
    {
        self.entries[i].1.expiry
    }

    /// Stores `value` under `key` with the given absolute expiry second,
    /// overwriting any previous entry for `key`.
    pub(crate) fn put(&mut self, key: String, value: String, expiry: u64)
        requires
            old(self).wf(),
        ensures
            final(self).wf(),
            final(self)@ == old(self)@.insert(
                key@,
                EntryModel { value: value@, expiry: expiry },
            ),
            !old(self)@.contains_key(key@) ==> final(self).entries_view() == old(
                self,
            ).entries_view().push((key@, EntryModel { value: value@, expiry: expiry })),
    {
        let ghost m0 = self.entries_view();
        self.invalidate(key.as_str());
        let ghost m1 = self.entries_view();
        proof {
            lemma_map_of_contains(m1, key@);
        }
        self.entries.push((key, CacheEntry { value, expiry }));
        proof {
            assert(self.entries_view() =~= m1.push(self.entries_view().last()));
            assert(self.entries_view().drop_last() =~= m1);
            assert(forall|a: int, b: int|
                0 <= a < b < self.entries_view().len() ==> self.entries_view()[a].0
                    != self.entries_view()[b].0);
            assert(final(self)@ =~= old(self)@.insert(
                key@,
                EntryModel { value: value@, expiry: expiry },
            ));
        }
    }

    /// Stores `value` under `key` as if the clock read `now`, giving the
    /// entry `ttl_secs` seconds to live.
    pub fn insert_at(&mut self, key: &str, value: String, ttl_secs: u64, now: u64)
        requires
            old(self).wf(),
        ensures
            final(self).wf(),
            final(self)@ == old(self)@.insert(
                key@,
                EntryModel { value: value@, expiry: expiry_at(now, ttl_secs) },
            ),
    {
        let expiry: u64 = if ttl_secs <= u64::MAX - now {
            now + ttl_secs
        } else {
            u64::MAX
        };
        self.put(key.to_owned(), value, expiry);
    }

    /// Stores `value` under `key` for `ttl_secs` seconds from now, reading
    /// the system clock; overwrites any previous entry for `key`.
    pub fn insert(&mut self, key: &str, value: String, ttl_secs: u64)
        requires
            old(self).wf(),
        ensures
            final(self).wf(),
            exists|now: u64|
                final(self)@ == old(self)@.insert(
                    key@,
                    EntryModel { value: value@, expiry: expiry_at(now, ttl_secs) },
                ),
            final(self)@.contains_key(key@),
            final(self)@[key@].value == value@,
            final(self)@ == old(self)@.insert(key@, final(self)@[key@]),
    {
        let now = now_unix_seconds();
        self.insert_at(key, value, ttl_secs, now);
        proof {
            assert(final(self)@ == old(self)@.insert(
                key@,
                EntryModel { value: value@, expiry: expiry_at(now, ttl_secs) },
            ));
        }
    }

    /// Looks `key` up as if the clock read `now`: returns the value while it
    /// is unexpired, and removes the entry (returning nothing) once `now` has
    /// reached its expiry second.
    pub fn get_at(&mut self, key: &str, now: u64) -> (r: Option<String>)
        requires
            old(self).wf(),
        ensures
            final(self).wf(),
            final(self)@ == map_after_get(old(self)@, key@, now),
            r.deep_view() == lookup_at(old(self)@, key@, now),
    {
        let ks: String = key.to_owned();
        proof {
            lemma_map_of_contains(self.entries_view(), key@);
        }
        match self.find_index(&ks) {
            None => {
                proof {
                    assert(!old(self)@.contains_key(key@));
                }
                None
            },
            Some(i) => {
                proof {
                    lemma_map_of_index(self.entries_view(), i as int);
                }
                let expiry: u64 = self.entries[i].1.expiry;
                if now < expiry {
                    let v = self.entries[i].1.value.clone();
                    Some(v)
                } else {
                    proof {
                        lemma_map_of_remove(self.entries_view(), i as int);
                    }
                    let ghost pre = self.entries_view();
                    self.entries.remove(i);
                    proof {
                        assert(self.entries_view() =~= pre.remove(i as int));
                        assert(forall|a: int, b: int|
                            0 <= a < b < pre.remove(i as int).len() ==> pre.remove(i as int)[a].0
                                != pre.remove(i as int)[b].0);
                    }
                    None
                }
            },
        }
    }

    /// Looks `key` up at the current system time: returns the value while it
    /// is unexpired, and removes the entry (returning nothing) once its
    /// expiry second has passed.
    pub fn get(&mut self, key: &str) -> (r: Option<String>)
        requires
            old(self).wf(),
        ensures
            final(self).wf(),
            exists|now: u64|
                final(self)@ == map_after_get(old(self)@, key@, now) && r.deep_view() == lookup_at(
                    old(self)@,
                    key@,
                    now,
                ),
            r matches Some(v) ==> old(self)@.contains_key(key@) && v@ == old(self)@[key@].value
                && final(self)@ == old(self)@,
            !old(self)@.contains_key(key@) ==> r is None && final(self)@ == old(self)@,
    {
        let now = now_unix_seconds();
        let r = self.get_at(key, now);
        proof {
            assert(final(self)@ == map_after_get(old(self)@, key@, now) && r.deep_view()
                == lookup_at(old(self)@, key@, now));
        }
        r
    }
}

/// A cache's abstract contents are exactly the contents of its stored pair
/// sequence.
pub proof fn lemma_view_is_map_of(c: &Cache)
    ensures
        c@ == map_of(c.entries_view()),
{
}

/// Inserting a value with a positive time-to-live and looking the key up at
/// the same instant yields that value and leaves the contents unchanged.
/// (The one excluded input is a clock already at the largest representable
/// second, where the expiry can no longer lie strictly in the future.)
pub proof fn lemma_insert_then_get(
    m: Map<Seq<char>, EntryModel>,
    k: Seq<char>,
    v: Seq<char>,
    ttl: u64,
    now: u64,
)
    requires
        ttl > 0,
        now < u64::MAX,
    ensures
        lookup_at(m.insert(k, EntryModel { value: v, expiry: expiry_at(now, ttl) }), k, now)
            == Some(v),
        map_after_get(m.insert(k, EntryModel { value: v, expiry: expiry_at(now, ttl) }), k, now)
            == m.insert(k, EntryModel { value: v, expiry: expiry_at(now, ttl) }),
{
}

/// Inserting with a time-to-live of zero seconds makes the entry expired at
/// once: any lookup at or after the insertion time returns nothing and
/// removes the entry.
pub proof fn lemma_zero_ttl_expires_immediately(
    m: Map<Seq<char>, EntryModel>,
    k: Seq<char>,
    v: Seq<char>,
    now: u64,
    later: u64,
)
    requires
        later >= now,
    ensures
        lookup_at(m.insert(k, EntryModel { value: v, expiry: expiry_at(now, 0) }), k, later)
            is None,
        map_after_get(m.insert(k, EntryModel { value: v, expiry: expiry_at(now, 0) }), k, later)
            == m.insert(k, EntryModel { value: v, expiry: expiry_at(now, 0) }).remove(k),
{
}

/// Invalidation removes the entry whatever its expiry: after removing `k`, a
/// lookup of `k` at any time returns nothing and changes nothing.
pub proof fn lemma_invalidate_then_get(m: Map<Seq<char>, EntryModel>, k: Seq<char>, now: u64)
    ensures
        lookup_at(m.remove(k), k, now) is None,
        map_after_get(m.remove(k), k, now) == m.remove(k),
{
}

/// Inserting twice under the same key leaves exactly the second entry: the
/// contents equal a single insertion of the second value, and an unexpired
/// lookup returns the second value under the second expiry.
pub proof fn lemma_overwrite(
    m: Map<Seq<char>, EntryModel>,
    k: Seq<char>,
    e1: EntryModel,
    e2: EntryModel,
    now: u64,
)
    ensures
        m.insert(k, e1).insert(k, e2) == m.insert(k, e2),
        now < e2.expiry ==> lookup_at(m.insert(k, e1).insert(k, e2), k, now) == Some(e2.value),
        now >= e2.expiry ==> lookup_at(m.insert(k, e1).insert(k, e2), k, now) is None,
{
    assert(m.insert(k, e1).insert(k, e2) =~= m.insert(k, e2));
}

/// Lazy removal: once `now` has reached the expiry of the entry under `k`,
/// a single lookup both returns nothing and removes the entry, so the key is
/// no longer contained afterwards.
pub proof fn lemma_lazy_removal(m: Map<Seq<char>, EntryModel>, k: Seq<char>, now: u64)
    requires
        m.contains_key(k),
        now >= m[k].expiry,
    ensures
        lookup_at(m, k, now) is None,
        map_after_get(m, k, now) == m.remove(k),
        !map_after_get(m, k, now).contains_key(k),
{
}

/// Relies on std::time::SystemTime::now and SystemTime::duration_since with
/// Duration::as_secs: the current Unix time in whole seconds. Panics only if
/// the system clock reports a time before the Unix epoch, which the design
/// treats as an unrecoverable environment fault.
#[verifier::external_body]
fn now_unix_seconds() -> u64 {
    std::time::SystemTime::now().duration_since(std::time::UNIX_EPOCH).unwrap().as_secs()
}

} // verus!
