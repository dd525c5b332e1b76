//! Sequential-mode mirror of the multi-version store, used when parallel
//! execution is abandoned for a block: at most one (value, memoized content
//! hash, layout) per key, a direct map from delayed-field identifier to
//! value, and a content-addressed cache of derived executable artifacts.

use vstd::prelude::*;
use crate::types::{StoreKey, Value, ValueSpec, LayoutId, DelayedFieldValue, DelayedFieldValueSpec};

verus! {

/// Position of `k` in an association list, or -1 when absent.
pub open spec fn assoc_find<K, V>(s: Seq<(K, V)>, k: K) -> int
    decreases s.len(),
{
    if s.len() == 0 {
        -1
    } else if s[0].0 == k {
        0
    } else {
        let r = assoc_find(s.skip(1), k);
        if r == -1 {
            -1
        } else {
            r + 1
        }
    }
}

proof fn lemma_assoc_find_bounds<K, V>(s: Seq<(K, V)>, k: K)
    ensures
        -1 <= assoc_find(s, k) < s.len(),
        assoc_find(s, k) >= 0 ==> s[assoc_find(s, k)].0 == k,
        assoc_find(s, k) == -1 ==> forall|i: int| 0 <= i < s.len() ==> s[i].0 != k,
    decreases s.len(),
{
    if s.len() > 0 && s[0].0 != k {
        lemma_assoc_find_bounds(s.skip(1), k);
        assert forall|i: int| 0 <= i < s.len() && assoc_find(s, k) == -1 implies s[i].0 != k by {
            if i > 0 {
                assert(s.skip(1)[i - 1] == s[i]);
            }
        }
    }
}

proof fn lemma_assoc_find_same_keys<K, V>(r1: Seq<(K, V)>, r2: Seq<(K, V)>)
    requires
        r1.len() == r2.len(),
        forall|j: int| 0 <= j < r1.len() ==> r1[j].0 == r2[j].0,
    ensures
        forall|k: K| #[trigger] assoc_find(r2, k) == assoc_find(r1, k),
    decreases r1.len(),
{
    if r1.len() > 0 {
        assert forall|j: int| 0 <= j < r1.skip(1).len() implies r1.skip(1)[j].0 == r2.skip(1)[
            j
        ].0 by {
            assert(r1.skip(1)[j] == r1[j + 1]);
            assert(r2.skip(1)[j] == r2[j + 1]);
        }
        lemma_assoc_find_same_keys(r1.skip(1), r2.skip(1));
        assert(r1[0].0 == r2[0].0);
        assert forall|k: K| #[trigger] assoc_find(r2, k) == assoc_find(r1, k) by {
            if r1[0].0 != k {
                assert(assoc_find(r2.skip(1), k) == assoc_find(r1.skip(1), k));
            }
        }
    }
}

proof fn lemma_assoc_find_push<K, V>(s: Seq<(K, V)>, e: (K, V))
    ensures
        forall|k: K| k != e.0 ==> #[trigger] assoc_find(s.push(e), k) == assoc_find(s, k),
        assoc_find(s, e.0) >= 0 ==> assoc_find(s.push(e), e.0) == assoc_find(s, e.0),
        assoc_find(s, e.0) == -1 ==> assoc_find(s.push(e), e.0) == s.len(),
    decreases s.len(),
{
    if s.len() == 0 {
        assert(s.push(e)[0] == e);
        assert(s.push(e).skip(1) =~= Seq::<(K, V)>::empty());
        assert forall|k: K| k != e.0 implies #[trigger] assoc_find(s.push(e), k) == assoc_find(
            s,
            k,
        ) by {
            assert(assoc_find(s.push(e).skip(1), k) == -1);
        }
    } else {
        assert(s.push(e).skip(1) =~= s.skip(1).push(e));
        lemma_assoc_find_push(s.skip(1), e);
        assert(s.push(e)[0] == s[0]);
        assert forall|k: K| k != e.0 implies #[trigger] assoc_find(s.push(e), k) == assoc_find(
            s,
            k,
        ) by {
            if s[0].0 != k {
                assert(assoc_find(s.skip(1).push(e), k) == assoc_find(s.skip(1), k));
            }
        }
        if assoc_find(s, e.0) == -1 {
            assert(s[0].0 != e.0);
            lemma_assoc_find_bounds(s.skip(1), e.0);
            assert(assoc_find(s.skip(1), e.0) == -1);
            assert(assoc_find(s.skip(1).push(e), e.0) == s.skip(1).len());
            assert(assoc_find(s.push(e), e.0) == 1 + assoc_find(s.push(e).skip(1), e.0));
        }
    }
}

/// One step of the 64-bit FNV-1a fold over a 64-bit word.
pub open spec fn fnv_word(h: u64, w: u64) -> u64 {
    (((h ^ w) as nat * 0x100000001b3 as nat) % 0x10000000000000000 as nat) as u64
}

/// 64-bit FNV-1a over a byte sequence: the store's content-identity function.
pub open spec fn spec_fnv1a(s: Seq<u8>) -> u64
    decreases s.len(),
{
    if s.len() == 0 {
        0xcbf29ce484222325
    } else {
        fnv_word(spec_fnv1a(s.drop_last()), s.last() as u64)
    }
}

/// Content identity of a stored value: the FNV-1a hash of opaque bytes, the
/// hash of the two 64-bit halves of a numeric counter, and the empty hash for
/// a deletion. This is a fully specified, non-cryptographic identity used
/// only as a cache key within this store: distinct payloads can in principle
/// collide, in which case a cached executable is served for a module with the
/// same identity.
pub open spec fn spec_value_hash(v: ValueSpec) -> u64 {
    match v {
        ValueSpec::Deletion => 0xcbf29ce484222325,
        ValueSpec::Numeric(n) => fnv_word(
            fnv_word(0xcbf29ce484222325, (n % 0x10000000000000000) as u64),
            (n / 0x10000000000000000) as u64,
        ),
        ValueSpec::Opaque(b) => spec_fnv1a(b),
    }
}

/// One FNV-1a step, executable.
fn fnv_word_exec(h: u64, w: u64) -> (r: u64)
    ensures
        r == fnv_word(h, w),
{
    (h ^ w).wrapping_mul(0x100000001b3)
}

/// 64-bit FNV-1a over a byte buffer.
fn fnv1a(bytes: &Vec<u8>) -> (r: u64)
    ensures
        r == spec_fnv1a(bytes@),
{
    let mut h: u64 = 0xcbf29ce484222325;
    let mut i: usize = 0;
    while i < bytes.len()
        invariant
            i <= bytes@.len(),
            h == spec_fnv1a(bytes@.take(i as int)),
        decreases bytes@.len() - i,
    {
        proof {
            assert(bytes@.take(i + 1).drop_last() =~= bytes@.take(i as int));
            assert(bytes@.take(i + 1).last() == bytes@[i as int]);
        }
        h = fnv_word_exec(h, bytes[i] as u64);
        i = i + 1;
    }
    proof {
        assert(bytes@.take(bytes@.len() as int) =~= bytes@);
    }
    h
}

/// Content identity of a value.
fn value_hash(v: &Value) -> (r: u64)
    ensures
        r == spec_value_hash(v@),
{
    match v.as_opaque_bytes() {
        Some(b) => fnv1a(b),
        None => {
            match v.as_u128() {
                Ok(Some(n)) => {
                    let low: u64 = (n % 0x10000000000000000) as u64;
                    let high: u64 = (n / 0x10000000000000000) as u64;
                    fnv_word_exec(fnv_word_exec(0xcbf29ce484222325, low), high)
                },
                Ok(None) => 0xcbf29ce484222325,
                Err(_) => unreached(),
            }
        },
    }
}

/// A derived, executable artifact kept in the content-addressed cache.
#[derive(Debug)]
pub struct ExecutableUnit {
    pub artifact: Vec<u8>,
}

impl View for ExecutableUnit {
    type V = Seq<u8>;

    open spec fn view(&self) -> Seq<u8> {
        self.artifact@
    }
}

impl Clone for ExecutableUnit {
    fn clone(&self) -> (res: Self)
        ensures
            res@ == self@,
    {
        let mut copy: Vec<u8> = Vec::new();
        let mut i: usize = 0;
        while i < self.artifact.len()
            invariant
                i <= self.artifact@.len(),
                copy@ == self.artifact@.take(i as int),
            decreases self.artifact@.len() - i,
        {
            copy.push(self.artifact[i]);
            i = i + 1;
        }
        proof {
            assert(copy@ =~= self.artifact@);
        }
        ExecutableUnit { artifact: copy }
    }
}

impl ExecutableUnit {
    /// Approximate size of the artifact.
    pub fn size_bytes(&self) -> (r: usize)
        ensures
            r == self@.len(),
    {
        self.artifact.len()
    }
}

/// What a module fetch finds: only the raw module (with its content hash), or
/// a previously compiled executable cached under that hash.
#[derive(Debug)]
pub enum MVModulesOutput {
    Module(Value, u64),
    Executable(ExecutableUnit, u64),
}

/// One key's slot: the stored value, the lazily memoized content hash, and
/// the optional type layout.
struct UnsyncEntry {
    value: Value,
    hash: Option<u64>,
    layout: Option<LayoutId>,
}

/// The sequential-mode store.
pub struct UnsyncMap {
    map: Vec<(StoreKey, UnsyncEntry)>,
    executable_cache: Vec<(u64, ExecutableUnit)>,
    executable_bytes: usize,
    delayed_field_map: Vec<(u64, DelayedFieldValue)>,
}

impl UnsyncMap {
    /// Keys are unique in each of the three internal maps.
    pub closed spec fn inv(&self) -> bool {
        &&& forall|i: int|
            0 <= i < self.map@.len() ==> assoc_find(self.map@, #[trigger] self.map@[i].0) == i
        &&& forall|i: int|
            0 <= i < self.executable_cache@.len() ==> assoc_find(
                self.executable_cache@,
                #[trigger] self.executable_cache@[i].0,
            ) == i
        &&& forall|i: int|
            0 <= i < self.delayed_field_map@.len() ==> assoc_find(
                self.delayed_field_map@,
                #[trigger] self.delayed_field_map@[i].0,
            ) == i
    }

    /// The slot recorded for `key`: value content, memoized hash, layout.
    pub closed spec fn spec_data(&self, key: StoreKey) -> Option<
        (ValueSpec, Option<u64>, Option<LayoutId>),
    > {
        let f = assoc_find(self.map@, key);
        if f >= 0 {
            Some((self.map@[f].1.value@, self.map@[f].1.hash, self.map@[f].1.layout))
        } else {
            None
        }
    }

    /// The artifact cached under a content hash.
    pub closed spec fn spec_executable(&self, hash: u64) -> Option<Seq<u8>> {
        let f = assoc_find(self.executable_cache@, hash);
        if f >= 0 {
            Some(self.executable_cache@[f].1@)
        } else {
            None
        }
    }

    /// The value recorded for a delayed-field identifier.
    pub closed spec fn spec_delayed(&self, id: u64) -> Option<DelayedFieldValueSpec> {
        let f = assoc_find(self.delayed_field_map@, id);
        if f >= 0 {
            Some(self.delayed_field_map@[f].1@)
        } else {
            None
        }
    }

    /// Running total of cached artifact bytes.
    pub closed spec fn spec_executable_bytes(&self) -> usize {
        self.executable_bytes
    }

    /// An empty sequential store.
    pub fn new() -> (r: UnsyncMap)
        ensures
            r.inv(),
            forall|k: StoreKey| r.spec_data(k) is None,
            forall|h: u64| r.spec_executable(h) is None,
            forall|id: u64| r.spec_delayed(id) is None,
            r.spec_executable_bytes() == 0,
    {
        UnsyncMap {
            map: Vec::new(),
            executable_cache: Vec::new(),
            executable_bytes: 0,
            delayed_field_map: Vec::new(),
        }
    }

    /// The value and layout recorded for `key`, if any (the value by copy).
    pub fn fetch_data(&self, key: StoreKey) -> (r: Option<(Value, Option<LayoutId>)>)
        requires
            self.inv(),
        ensures
            match r {
                Some(p) => self.spec_data(key) matches Some(d) && p.0@ == d.0 && p.1 == d.2,
                None => self.spec_data(key) is None,
            },
    {
        let mut i: usize = 0;
        while i < self.map.len()
            invariant
                self.inv(),
                i <= self.map@.len(),
                forall|j: int| 0 <= j < i ==> self.map@[j].0 != key,
            decreases self.map@.len() - i,
        {
            if self.map[i].0 == key {
                proof {
                    assert(assoc_find(self.map@, self.map@[i as int].0) == i);
                }
                return Some((self.map[i].1.value.clone(), self.map[i].1.layout));
            }
            i = i + 1;
        }
        proof {
            lemma_assoc_find_bounds(self.map@, key);
        }
        None
    }

    /// The store's state in the middle of a module fetch: only `key`'s slot
    /// changed, and only by memoizing the content hash `h`.
    spec fn module_fetch_state(pre: UnsyncMap, cur: UnsyncMap, key: StoreKey, h: u64) -> bool {
        &&& cur.inv()
        &&& cur.executable_cache@ == pre.executable_cache@
        &&& cur.delayed_field_map@ == pre.delayed_field_map@
        &&& cur.executable_bytes == pre.executable_bytes
        &&& forall|k: StoreKey| k != key ==> #[trigger] cur.spec_data(k) == pre.spec_data(k)
        &&& match pre.spec_data(key) {
            Some(d) => h == (if d.1 is Some {
                d.1->Some_0
            } else {
                spec_value_hash(d.0)
            }) && cur.spec_data(key) == Some((d.0, Some(h), d.2)),
            None => false,
        }
    }

    /// Looks up a module at `key`: the content hash of the stored value is
    /// computed and memoized on first access; the result distinguishes a
    /// previously compiled executable cached under that hash from the raw
    /// module.
    pub fn fetch_module(&mut self, key: StoreKey) -> (r: Option<MVModulesOutput>)
        requires
            old(self).inv(),
            key.module,
        ensures
            final(self).inv(),
            forall|h: u64| #[trigger]
                final(self).spec_executable(h) == old(self).spec_executable(h),
            forall|id: u64| #[trigger] final(self).spec_delayed(id) == old(self).spec_delayed(id),
            final(self).spec_executable_bytes() == old(self).spec_executable_bytes(),
            forall|k: StoreKey|
                k != key ==> #[trigger] final(self).spec_data(k) == old(self).spec_data(k),
            match old(self).spec_data(key) {
                None => r is None && final(self).spec_data(key) is None,
                Some(d) => {
                    let h = if d.1 is Some {
                        d.1->Some_0
                    } else {
                        spec_value_hash(d.0)
                    };
                    &&& final(self).spec_data(key) == Some((d.0, Some(h), d.2))
                    &&& match old(self).spec_executable(h) {
                        Some(bytes) => r matches Some(MVModulesOutput::Executable(x, h2)) && x@
                            == bytes && h2 == h,
                        None => r matches Some(MVModulesOutput::Module(v, h2)) && v@ == d.0 && h2
                            == h,
                    }
                },
            },
    {
        let mut i: usize = 0;
        while i < self.map.len()
            invariant
                *self == *old(self),
                old(self).inv(),
                i <= self.map@.len(),
                forall|j: int| 0 <= j < i ==> self.map@[j].0 != key,
            decreases self.map@.len() - i,
        {
            if self.map[i].0 == key {
                proof {
                    assert(assoc_find(self.map@, self.map@[i as int].0) == i);
                }
                let h: u64 = match &self.map[i].1.hash {
                    Some(hv) => *hv,
                    None => value_hash(&self.map[i].1.value),
                };
                self.map[i].1.hash = Some(h);
                proof {
                    assert(forall|j: int|
                        0 <= j < self.map@.len() ==> #[trigger] self.map@[j].0 == old(self).map@[j].0);
                    lemma_assoc_find_same_keys(old(self).map@, self.map@);
                    assert forall|k: StoreKey|
                        k != key implies #[trigger] self.spec_data(k) == old(self).spec_data(k) by {
                        lemma_assoc_find_bounds(old(self).map@, k);
                    }
                    assert(UnsyncMap::module_fetch_state(*old(self), *self, key, h));
                }
                let mut j: usize = 0;
                while j < self.executable_cache.len()
                    invariant
                        UnsyncMap::module_fetch_state(*old(self), *self, key, h),
                        j <= self.executable_cache@.len(),
                        forall|j2: int| 0 <= j2 < j ==> self.executable_cache@[j2].0 != h,
                    decreases self.executable_cache@.len() - j,
                {
                    if self.executable_cache[j].0 == h {
                        proof {
                            assert(assoc_find(
                                self.executable_cache@,
                                self.executable_cache@[j as int].0,
                            ) == j);
                        }
                        return Some(
                            MVModulesOutput::Executable(self.executable_cache[j].1.clone(), h),
                        );
                    }
                    j = j + 1;
                }
                proof {
                    lemma_assoc_find_bounds(self.executable_cache@, h);
                }
                return Some(MVModulesOutput::Module(self.map[i].1.value.clone(), h));
            }
            i = i + 1;
        }
        proof {
            lemma_assoc_find_bounds(self.map@, key);
        }
        None
    }

    /// The value recorded for a delayed-field identifier, if any.
    pub fn fetch_delayed_field(&self, id: u64) -> (r: Option<DelayedFieldValue>)
        requires
            self.inv(),
        ensures
            match r {
                Some(v) => self.spec_delayed(id) matches Some(d) && v@ == d,
                None => self.spec_delayed(id) is None,
            },
    {
        let mut i: usize = 0;
        while i < self.delayed_field_map.len()
            invariant
                self.inv(),
                i <= self.delayed_field_map@.len(),
                forall|j: int| 0 <= j < i ==> self.delayed_field_map@[j].0 != id,
            decreases self.delayed_field_map@.len() - i,
        {
            if self.delayed_field_map[i].0 == id {
                proof {
                    assert(assoc_find(self.delayed_field_map@, self.delayed_field_map@[i as int].0)
                        == i);
                }
                return Some(self.delayed_field_map[i].1.clone());
            }
            i = i + 1;
        }
        proof {
            lemma_assoc_find_bounds(self.delayed_field_map@, id);
        }
        None
    }

    /// Records `value` (and its layout) for `key`, clearing any memoized
    /// content hash. Only the latest version matters in sequential mode.
    pub fn write(&mut self, key: StoreKey, value: Value, layout: Option<LayoutId>)
        requires
            old(self).inv(),
        ensures
            final(self).inv(),
            final(self).spec_data(key) == Some((value@, None::<u64>, layout)),
            forall|k: StoreKey|
                k != key ==> #[trigger] final(self).spec_data(k) == old(self).spec_data(k),
            forall|h: u64| #[trigger]
                final(self).spec_executable(h) == old(self).spec_executable(h),
            forall|id: u64| #[trigger] final(self).spec_delayed(id) == old(self).spec_delayed(id),
            final(self).spec_executable_bytes() == old(self).spec_executable_bytes(),
    {
        let mut i: usize = 0;
        while i < self.map.len()
            invariant
                *self == *old(self),
                old(self).inv(),
                i <= self.map@.len(),
                forall|j: int| 0 <= j < i ==> self.map@[j].0 != key,
            decreases self.map@.len() - i,
        {
            if self.map[i].0 == key {
                proof {
                    assert(assoc_find(self.map@, self.map@[i as int].0) == i);
                }
                self.map[i] = (key, UnsyncEntry { value, hash: None, layout });
                proof {
                    assert(forall|j: int|
                        0 <= j < self.map@.len() ==> #[trigger] self.map@[j].0 == old(self).map@[j].0);
                    lemma_assoc_find_same_keys(old(self).map@, self.map@);
                    assert forall|k: StoreKey|
                        k != key implies #[trigger] self.spec_data(k) == old(self).spec_data(k) by {
                        lemma_assoc_find_bounds(old(self).map@, k);
                    }
                }
                return ;
            }
            i = i + 1;
        }
        let pair = (key, UnsyncEntry { value, hash: None, layout });
        let ghost gentry = pair;
        let ghost pre = self.map@;
        proof {
            lemma_assoc_find_bounds(self.map@, key);
            lemma_assoc_find_push(pre, gentry);
        }
        self.map.push(pair);
        proof {
            assert(self.map@ == pre.push(gentry));
            assert forall|i2: int|
                0 <= i2 < self.map@.len() implies assoc_find(
                self.map@,
                #[trigger] self.map@[i2].0,
            ) == i2 by {
                if i2 < pre.len() {
                    assert(pre[i2].0 != key);
                    assert(assoc_find(self.map@, pre[i2].0) == assoc_find(pre, pre[i2].0));
                }
            }
            assert forall|k: StoreKey|
                k != key implies #[trigger] self.spec_data(k) == old(self).spec_data(k) by {
                lemma_assoc_find_bounds(pre, k);
            }
        }
    }

    /// Records the value of a delayed-field identifier.
    pub fn write_delayed_field(&mut self, id: u64, value: DelayedFieldValue)
        requires
            old(self).inv(),
        ensures
            final(self).inv(),
            final(self).spec_delayed(id) matches Some(d) && d == value@,
            forall|i2: u64|
                i2 != id ==> #[trigger] final(self).spec_delayed(i2) == old(self).spec_delayed(i2),
            forall|k: StoreKey| #[trigger] final(self).spec_data(k) == old(self).spec_data(k),
            forall|h: u64| #[trigger]
                final(self).spec_executable(h) == old(self).spec_executable(h),
            final(self).spec_executable_bytes() == old(self).spec_executable_bytes(),
    {
        let mut i: usize = 0;
        while i < self.delayed_field_map.len()
            invariant
                *self == *old(self),
                old(self).inv(),
                i <= self.delayed_field_map@.len(),
                forall|j: int| 0 <= j < i ==> self.delayed_field_map@[j].0 != id,
            decreases self.delayed_field_map@.len() - i,
        {
            if self.delayed_field_map[i].0 == id {
                proof {
                    assert(assoc_find(self.delayed_field_map@, self.delayed_field_map@[i as int].0)
                        == i);
                }
                self.delayed_field_map[i] = (id, value);
                proof {
                    assert(forall|j: int|
                        0 <= j < self.delayed_field_map@.len()
                            ==> #[trigger] self.delayed_field_map@[j].0 == old(self).delayed_field_map@[j].0);
                    lemma_assoc_find_same_keys(old(self).delayed_field_map@, self.delayed_field_map@);
                    assert forall|i2: u64|
                        i2 != id implies #[trigger] self.spec_delayed(i2) == old(self).spec_delayed(
                        i2,
                    ) by {
                        lemma_assoc_find_bounds(old(self).delayed_field_map@, i2);
                    }
                }
                return ;
            }
            i = i + 1;
        }
        proof {
            lemma_assoc_find_bounds(self.delayed_field_map@, id);
        }
        let pair = (id, value);
        let ghost gentry = pair;
        let ghost pre = self.delayed_field_map@;
        proof {
            lemma_assoc_find_push(pre, gentry);
        }
        self.delayed_field_map.push(pair);
        proof {
            assert(self.delayed_field_map@ == pre.push(gentry));
            assert forall|i2: int|
                0 <= i2 < self.delayed_field_map@.len() implies assoc_find(
                self.delayed_field_map@,
                #[trigger] self.delayed_field_map@[i2].0,
            ) == i2 by {
                if i2 < pre.len() {
                    assert(pre[i2].0 != id);
                    assert(assoc_find(self.delayed_field_map@, pre[i2].0) == assoc_find(
                        pre,
                        pre[i2].0,
                    ));
                }
            }
            assert forall|i2: u64|
                i2 != id implies #[trigger] self.spec_delayed(i2) == old(self).spec_delayed(
                i2,
            ) by {
                lemma_assoc_find_bounds(pre, i2);
            }
        }
    }

    /// Running total of cached artifact bytes.
    pub fn executable_size(&self) -> (r: usize)
        ensures
            r == self.spec_executable_bytes(),
    {
        self.executable_bytes
    }

    /// Caches an executable artifact under its content hash. Returns whether
    /// an artifact was already cached there: the insert is non-destructive,
    /// and a fresh artifact's size joins the running byte total (saturating).
    pub fn store_executable(&mut self, descriptor_hash: u64, executable: ExecutableUnit) -> (r:
        bool)
        requires
            old(self).inv(),
        ensures
            final(self).inv(),
            r == (old(self).spec_executable(descriptor_hash) is Some),
            r ==> *final(self) == *old(self),
            !r ==> final(self).spec_executable(descriptor_hash) == Some(executable@) && final(self).spec_executable_bytes() == (if old(self).spec_executable_bytes() + executable@.len()
                <= usize::MAX {
                (old(self).spec_executable_bytes() + executable@.len()) as usize
            } else {
                usize::MAX
            }),
            !r ==> forall|h: u64|
                h != descriptor_hash ==> #[trigger] final(self).spec_executable(h) == old(self).spec_executable(h),
            forall|k: StoreKey| #[trigger] final(self).spec_data(k) == old(self).spec_data(k),
            forall|id: u64| #[trigger] final(self).spec_delayed(id) == old(self).spec_delayed(id),
    {
        let mut i: usize = 0;
        while i < self.executable_cache.len()
            invariant
                *self == *old(self),
                old(self).inv(),
                i <= self.executable_cache@.len(),
                forall|j: int| 0 <= j < i ==> self.executable_cache@[j].0 != descriptor_hash,
            decreases self.executable_cache@.len() - i,
        {
            if self.executable_cache[i].0 == descriptor_hash {
                proof {
                    assert(assoc_find(
                        self.executable_cache@,
                        self.executable_cache@[i as int].0,
                    ) == i);
                }
                return true;
            }
            i = i + 1;
        }
        proof {
            lemma_assoc_find_bounds(self.executable_cache@, descriptor_hash);
        }
        let size = executable.artifact.len();
        if usize::MAX - size < self.executable_bytes {
            self.executable_bytes = usize::MAX;
        } else {
            self.executable_bytes = self.executable_bytes + size;
        }
        let pair = (descriptor_hash, executable);
        let ghost gentry = pair;
        let ghost pre = self.executable_cache@;
        proof {
            lemma_assoc_find_push(pre, gentry);
        }
        self.executable_cache.push(pair);
        proof {
            assert(self.executable_cache@ == pre.push(gentry));
            assert forall|i2: int|
                0 <= i2 < self.executable_cache@.len() implies assoc_find(
                self.executable_cache@,
                #[trigger] self.executable_cache@[i2].0,
            ) == i2 by {
                if i2 < pre.len() {
                    assert(pre[i2].0 != descriptor_hash);
                    assert(assoc_find(self.executable_cache@, pre[i2].0) == assoc_find(
                        pre,
                        pre[i2].0,
                    ));
                }
            }
            assert forall|h2: u64|
                h2 != descriptor_hash implies #[trigger] self.spec_executable(h2) == old(
                self,
            ).spec_executable(h2) by {
                lemma_assoc_find_bounds(pre, h2);
            }
        }
        false
    }
}

} // verus!
