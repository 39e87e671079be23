//! The resolution cache: a map from normalized query key (lowercased name,
//! type, class) to a resolved record with its TTL and insertion time.
//! Entries are served only while live; an expired entry found by a lookup is
//! removed, not merely skipped.

use vstd::prelude::*;
use crate::msg::{Question, QuestionV, clone_bytes};

verus! {

/// ASCII lowercasing of one byte.
pub open spec fn lower_byte(b: u8) -> u8 {
    if 65 <= b <= 90 {
        (b + 32) as u8
    } else {
        b
    }
}

/// Bytewise ASCII lowercasing. On a name in wire form this lowercases label
/// bytes and leaves length bytes (all below 64) and the terminator unchanged.
pub open spec fn lower_bytes(s: Seq<u8>) -> Seq<u8> {
    Seq::new(s.len(), |i: int| lower_byte(s[i]))
}

/// The identity a question resolves under: its name lowercased, plus type
/// and class. The transaction id takes no part in it.
#[verifier::ext_equal]
pub ghost struct KeyV {
    pub name: Seq<u8>,
    pub qtype: u16,
    pub qclass: u16,
}

pub open spec fn key_of(q: QuestionV) -> KeyV {
    KeyV { name: lower_bytes(q.name), qtype: q.qtype, qclass: q.qclass }
}

#[derive(Clone, PartialEq, Eq, Debug)]
pub struct CacheKey {
    pub name: Vec<u8>,
    pub qtype: u16,
    pub qclass: u16,
}

impl View for CacheKey {
    type V = KeyV;

    open spec fn view(&self) -> KeyV {
        KeyV { name: self.name@, qtype: self.qtype, qclass: self.qclass }
    }
}

/// Builds the cache key of a question: the name lowercased bytewise.
pub fn make_key(q: &Question) -> (k: CacheKey)
    ensures
        k@ == key_of(q@),
{
    let mut name: Vec<u8> = Vec::new();
    let mut i: usize = 0;
    while i < q.name.len()
        invariant
            i <= q.name.len(),
            name@.len() == i,
            forall|j: int| 0 <= j < i ==> name@[j] == lower_byte(q.name@[j]),
        decreases q.name.len() - i,
    {
        let b = q.name[i];
        if 65 <= b && b <= 90 {
            name.push(b + 32);
        } else {
            name.push(b);
        }
        i = i + 1;
    }
    assert(name@ =~= lower_bytes(q.name@));
    CacheKey { name, qtype: q.qtype, qclass: q.qclass }
}

/// Copies a key; the copy views equal to the original.
pub fn clone_key(k: &CacheKey) -> (r: CacheKey)
    ensures
        r@ == k@,
{
    CacheKey { name: clone_bytes(&k.name), qtype: k.qtype, qclass: k.qclass }
}

/// Decides view equality of two keys.
pub fn key_eq(a: &CacheKey, b: &CacheKey) -> (r: bool)
    ensures
        r == (a@ == b@),
{
    if a.qtype != b.qtype || a.qclass != b.qclass || a.name.len() != b.name.len() {
        return false;
    }
    let mut i: usize = 0;
    while i < a.name.len()
        invariant
            i <= a.name.len(),
            a.name@.len() == b.name@.len(),
            forall|j: int| 0 <= j < i ==> a.name@[j] == b.name@[j],
        decreases a.name.len() - i,
    {
        if a.name[i] != b.name[i] {
            return false;
        }
        i = i + 1;
    }
    assert(a.name@ =~= b.name@);
    true
}

/// One cached resolution: record type, raw rdata, TTL in seconds, and the
/// time of insertion.
#[derive(Clone, PartialEq, Eq, Debug)]
pub struct CacheEntry {
    pub rtype: u16,
    pub rdata: Vec<u8>,
    pub ttl: u32,
    pub inserted: u64,
}

#[verifier::ext_equal]
pub ghost struct EntryV {
    pub rtype: u16,
    pub rdata: Seq<u8>,
    pub ttl: u32,
    pub inserted: u64,
}

impl View for CacheEntry {
    type V = EntryV;

    open spec fn view(&self) -> EntryV {
        EntryV { rtype: self.rtype, rdata: self.rdata@, ttl: self.ttl, inserted: self.inserted }
    }
}

/// Copies an entry; the copy views equal to the original.
pub fn clone_entry(e: &CacheEntry) -> (r: CacheEntry)
    ensures
        r@ == e@,
{
    CacheEntry { rtype: e.rtype, rdata: clone_bytes(&e.rdata), ttl: e.ttl, inserted: e.inserted }
}

/// The entry stored under `k`: the first pair with that key, if any.
pub open spec fn find_entry(s: Seq<(CacheKey, CacheEntry)>, k: KeyV) -> Option<EntryV>
    decreases s.len(),
{
    if s.len() == 0 {
        None
    } else if s[0].0@ == k {
        Some(s[0].1@)
    } else {
        find_entry(s.skip(1), k)
    }
}

/// An entry is live at `now` while `now < inserted + ttl` (unbounded integer
/// arithmetic; no wraparound).
pub open spec fn entry_live(e: EntryV, now: u64) -> bool {
    (now as int) < e.inserted + e.ttl
}

/// What a lookup at `now` yields: the stored entry, only while it is live.
pub open spec fn spec_lookup(s: Seq<(CacheKey, CacheEntry)>, k: KeyV, now: u64) -> Option<EntryV> {
    match find_entry(s, k) {
        Some(e) => if entry_live(e, now) {
            Some(e)
        } else {
            None
        },
        None => None,
    }
}

/// Keys are pairwise distinct, and every stored rdata fits the wire
/// format's 16-bit length field.
pub open spec fn cache_wf(s: Seq<(CacheKey, CacheEntry)>) -> bool {
    &&& forall|i: int, j: int|
        0 <= i < j < s.len() ==> (#[trigger] s[i]).0@ != (#[trigger] s[j]).0@
    &&& forall|i: int| 0 <= i < s.len() ==> (#[trigger] s[i]).1@.rdata.len() <= 0xffff
}

/// Remaining TTL of an entry at `now`: the original TTL less the age, never
/// negative, and never more than the original TTL.
pub open spec fn remaining_ttl(e: EntryV, now: u64) -> u32 {
    if now <= e.inserted {
        e.ttl
    } else if (now as int) < e.inserted + e.ttl {
        (e.inserted + e.ttl - now) as u32
    } else {
        0
    }
}

/// Computes `remaining_ttl` without overflow.
pub fn compute_remaining(e: &CacheEntry, now: u64) -> (r: u32)
    ensures
        r == remaining_ttl(e@, now),
{
    if now <= e.inserted {
        e.ttl
    } else {
        let age = now - e.inserted;
        if age < e.ttl as u64 {
            e.ttl - (age as u32)
        } else {
            0
        }
    }
}

proof fn lemma_find_first_index(s: Seq<(CacheKey, CacheEntry)>, k: KeyV, i: int)
    requires
        0 <= i < s.len(),
        s[i].0@ == k,
        forall|j: int| 0 <= j < i ==> (#[trigger] s[j]).0@ != k,
    ensures
        find_entry(s, k) == Some(s[i].1@),
    decreases i,
{
    if i == 0 {
    } else {
        assert(s.skip(1)[i - 1] == s[i]);
        assert(forall|j: int| 0 <= j < i - 1 ==> (#[trigger] s.skip(1)[j]).0@ != k);
        lemma_find_first_index(s.skip(1), k, i - 1);
    }
}

proof fn lemma_find_none(s: Seq<(CacheKey, CacheEntry)>, k: KeyV)
    requires
        forall|j: int| 0 <= j < s.len() ==> (#[trigger] s[j]).0@ != k,
    ensures
        find_entry(s, k) == None::<EntryV>,
    decreases s.len(),
{
    if s.len() == 0 {
    } else {
        assert(forall|j: int| 0 <= j < s.skip(1).len() ==> (#[trigger] s.skip(1)[j]).0@ != k);
        lemma_find_none(s.skip(1), k);
    }
}

proof fn lemma_find_remove_other(s: Seq<(CacheKey, CacheEntry)>, i: int, k2: KeyV)
    requires
        0 <= i < s.len(),
        s[i].0@ != k2,
    ensures
        find_entry(s.remove(i), k2) == find_entry(s, k2),
    decreases i,
{
    if i == 0 {
        assert(s.remove(0) =~= s.skip(1));
    } else {
        assert(s.remove(i)[0] == s[0]);
        if s[0].0@ == k2 {
        } else {
            assert(s.remove(i).skip(1) =~= s.skip(1).remove(i - 1));
            assert(s.skip(1)[i - 1] == s[i]);
            lemma_find_remove_other(s.skip(1), i - 1, k2);
        }
    }
}

proof fn lemma_find_update(s: Seq<(CacheKey, CacheEntry)>, i: int, p: (CacheKey, CacheEntry))
    requires
        0 <= i < s.len(),
        s[i].0@ == p.0@,
        forall|j: int| 0 <= j < i ==> (#[trigger] s[j]).0@ != p.0@,
    ensures
        find_entry(s.update(i, p), p.0@) == Some(p.1@),
        forall|k2: KeyV| k2 != p.0@ ==> find_entry(s.update(i, p), k2) == find_entry(s, k2),
    decreases i,
{
    let t = s.update(i, p);
    if i == 0 {
        assert(t[0] == p);
        assert(t.skip(1) =~= s.skip(1));
    } else {
        assert(t[0] == s[0]);
        assert(t.skip(1) =~= s.skip(1).update(i - 1, p));
        assert(s.skip(1)[i - 1] == s[i]);
        assert(forall|j: int| 0 <= j < i - 1 ==> (#[trigger] s.skip(1)[j]).0@ != p.0@);
        lemma_find_update(s.skip(1), i - 1, p);
        assert forall|k2: KeyV| k2 != p.0@ implies find_entry(t, k2) == find_entry(s, k2) by {
            if s[0].0@ == k2 {
            } else {
                assert(find_entry(t, k2) == find_entry(t.skip(1), k2));
                assert(find_entry(s, k2) == find_entry(s.skip(1), k2));
            }
        }
    }
}

proof fn lemma_find_push(s: Seq<(CacheKey, CacheEntry)>, p: (CacheKey, CacheEntry))
    requires
        forall|j: int| 0 <= j < s.len() ==> (#[trigger] s[j]).0@ != p.0@,
    ensures
        find_entry(s.push(p), p.0@) == Some(p.1@),
        forall|k2: KeyV| k2 != p.0@ ==> find_entry(s.push(p), k2) == find_entry(s, k2),
    decreases s.len(),
{
    if s.len() == 0 {
        assert(s.push(p)[0] == p);
        assert(s.push(p).skip(1) =~= Seq::<(CacheKey, CacheEntry)>::empty());
        assert forall|k2: KeyV| k2 != p.0@ implies find_entry(s.push(p), k2) == find_entry(
            s,
            k2,
        ) by {
            reveal_with_fuel(find_entry, 3);
        }
    } else {
        assert(s.push(p)[0] == s[0]);
        assert(s.push(p).skip(1) =~= s.skip(1).push(p));
        assert(forall|j: int| 0 <= j < s.skip(1).len() ==> (#[trigger] s.skip(1)[j]).0@ != p.0@);
        lemma_find_push(s.skip(1), p);
        assert(s[0].0@ != p.0@);
        assert forall|k2: KeyV| k2 != p.0@ implies find_entry(s.push(p), k2) == find_entry(
            s,
            k2,
        ) by {
            if s[0].0@ != k2 {
                assert(find_entry(s.push(p), k2) == find_entry(s.push(p).skip(1), k2));
                assert(find_entry(s.skip(1).push(p), k2) == find_entry(s.skip(1), k2));
                assert(find_entry(s, k2) == find_entry(s.skip(1), k2));
            }
        }
    }
}

/// The process-wide cache of resolved answers.
pub struct ResolutionCache {
    entries: Vec<(CacheKey, CacheEntry)>,
}

impl View for ResolutionCache {
    type V = Seq<(CacheKey, CacheEntry)>;

    closed spec fn view(&self) -> Seq<(CacheKey, CacheEntry)> {
        self.entries@
    }
}

impl ResolutionCache {
    /// An empty cache.
    pub fn new() -> (c: ResolutionCache)
        ensures
            c@ == Seq::<(CacheKey, CacheEntry)>::empty(),
            cache_wf(c@),
    {
        let c = ResolutionCache { entries: Vec::new() };
        assert(c@ =~= Seq::<(CacheKey, CacheEntry)>::empty());
        c
    }

    /// Index of the entry stored under `k`, if any.
    fn find_index(&self, k: &CacheKey) -> (r: Option<usize>)
        ensures
            match r {
                Some(i) => i < self@.len() && self@[i as int].0@ == k@ && (forall|j: int|
                    0 <= j < i ==> (#[trigger] self@[j]).0@ != k@),
                None => forall|j: int| 0 <= j < self@.len() ==> (#[trigger] self@[j]).0@ != k@,
            },
    {
        let mut i: usize = 0;
        while i < self.entries.len()
            invariant
                i <= self@.len(),
                forall|j: int| 0 <= j < i ==> (#[trigger] self@[j]).0@ != k@,
            decreases self@.len() - i,
        {
            if key_eq(&self.entries[i].0, k) {
                return Some(i);
            }
            i = i + 1;
        }
        None
    }

    /// Looks `k` up at time `now`. A live entry is returned and kept; an
    /// expired entry is removed and reported absent; other keys are
    /// untouched.
    pub fn lookup(&mut self, k: &CacheKey, now: u64) -> (r: Option<CacheEntry>)
        requires
            cache_wf(old(self)@),
        ensures
            cache_wf(final(self)@),
            match r {
                Some(e) => spec_lookup(old(self)@, k@, now) == Some(e@) && e@.rdata.len()
                    <= 0xffff,
                None => spec_lookup(old(self)@, k@, now) == None::<EntryV>,
            },
            find_entry(final(self)@, k@) == spec_lookup(old(self)@, k@, now),
            forall|k2: KeyV| k2 != k@ ==> find_entry(final(self)@, k2) == find_entry(
                old(self)@,
                k2,
            ),
    {
        match self.find_index(k) {
            None => {
                proof {
                    lemma_find_none(self@, k@);
                }
                None
            },
            Some(i) => {
                proof {
                    lemma_find_first_index(self@, k@, i as int);
                }
                let live = {
                    let e = &self.entries[i].1;
                    now < e.inserted || now - e.inserted < e.ttl as u64
                };
                if live {
                    let e = clone_entry(&self.entries[i].1);
                    Some(e)
                } else {
                    proof {
                        let s = self@;
                        assert forall|k2: KeyV| k2 != k@ implies find_entry(s.remove(i as int), k2)
                            == find_entry(s, k2) by {
                            lemma_find_remove_other(s, i as int, k2);
                        }
                        assert forall|j: int|
                            0 <= j < s.remove(i as int).len() implies (#[trigger] s.remove(
                            i as int,
                        )[j]).0@ != k@ by {
                            if j < i {
                                assert(s.remove(i as int)[j] == s[j]);
                            } else {
                                assert(s.remove(i as int)[j] == s[j + 1]);
                            }
                        }
                        lemma_find_none(s.remove(i as int), k@);
                        assert forall|a: int, b: int|
                            0 <= a < b < s.remove(i as int).len() implies (#[trigger] s.remove(
                            i as int,
                        )[a]).0@ != (#[trigger] s.remove(i as int)[b]).0@ by {
                            let a0 = if a < i { a } else { a + 1 };
                            let b0 = if b < i { b } else { b + 1 };
                            assert(s.remove(i as int)[a] == s[a0]);
                            assert(s.remove(i as int)[b] == s[b0]);
                        }
                        assert forall|a: int|
                            0 <= a < s.remove(i as int).len() implies (#[trigger] s.remove(
                            i as int,
                        )[a]).1@.rdata.len() <= 0xffff by {
                            let a0 = if a < i { a } else { a + 1 };
                            assert(s.remove(i as int)[a] == s[a0]);
                        }
                    }
                    self.entries.remove(i);
                    None
                }
            },
        }
    }

    /// Stores `e` under `k`, overwriting any entry already there and leaving
    /// every other key's entry as it was. Always succeeds.
    pub fn insert(&mut self, k: CacheKey, e: CacheEntry)
        requires
            cache_wf(old(self)@),
            e@.rdata.len() <= 0xffff,
        ensures
            cache_wf(final(self)@),
            find_entry(final(self)@, k@) == Some(e@),
            forall|k2: KeyV| k2 != k@ ==> find_entry(final(self)@, k2) == find_entry(
                old(self)@,
                k2,
            ),
    {
        let ghost kv = k@;
        let ghost ev = e@;
        match self.find_index(&k) {
            Some(i) => {
                proof {
                    lemma_find_update(self@, i as int, (k, e));
                    let t = self@.update(i as int, (k, e));
                    assert forall|a: int, b: int| 0 <= a < b < t.len() implies (#[trigger] t[a]).0@
                        != (#[trigger] t[b]).0@ by {
                        assert(t[a].0@ == self@[a].0@);
                        assert(t[b].0@ == self@[b].0@);
                    }
                    assert forall|a: int| 0 <= a < t.len() implies (#[trigger] t[a]).1@.rdata.len()
                        <= 0xffff by {
                        if a != i {
                            assert(t[a] == self@[a]);
                        }
                    }
                }
                self.entries.set(i, (k, e));
            },
            None => {
                proof {
                    lemma_find_push(self@, (k, e));
                    let t = self@.push((k, e));
                    assert forall|a: int, b: int| 0 <= a < b < t.len() implies (#[trigger] t[a]).0@
                        != (#[trigger] t[b]).0@ by {
                        if b < t.len() - 1 {
                            assert(t[a] == self@[a] && t[b] == self@[b]);
                        } else {
                            assert(t[a] == self@[a] && t[b] == (k, e));
                        }
                    }
                    assert forall|a: int| 0 <= a < t.len() implies (#[trigger] t[a]).1@.rdata.len()
                        <= 0xffff by {
                        if a < t.len() - 1 {
                            assert(t[a] == self@[a]);
                        } else {
                            assert(t[a] == (k, e));
                        }
                    }
                }
                self.entries.push((k, e));
            },
        }
    }

    /// Stores `e` under `k` while keeping at most `cap` entries. An existing
    /// entry for `k` is overwritten in place; otherwise, with the cache full,
    /// the oldest-stored entry is evicted to make room. Always succeeds.
    pub fn insert_capped(&mut self, k: CacheKey, e: CacheEntry, cap: usize)
        requires
            cache_wf(old(self)@),
            e@.rdata.len() <= 0xffff,
            cap >= 1,
            old(self)@.len() <= cap,
        ensures
            cache_wf(final(self)@),
            final(self)@.len() <= cap,
            find_entry(final(self)@, k@) == Some(e@),
            match find_entry(old(self)@, k@) {
                Some(_) => forall|k2: KeyV|
                    k2 != k@ ==> find_entry(final(self)@, k2) == find_entry(old(self)@, k2),
                None => if old(self)@.len() < cap {
                    forall|k2: KeyV|
                        k2 != k@ ==> find_entry(final(self)@, k2) == find_entry(old(self)@, k2)
                } else {
                    find_entry(final(self)@, old(self)@[0].0@) == None::<EntryV> && (forall|k2: KeyV|
                        k2 != k@ && k2 != old(self)@[0].0@ ==> find_entry(final(self)@, k2)
                            == find_entry(old(self)@, k2))
                },
            },
    {
        match self.find_index(&k) {
            Some(i) => {
                proof {
                    lemma_find_first_index(self@, k@, i as int);
                    lemma_find_update(self@, i as int, (k, e));
                    let t = self@.update(i as int, (k, e));
                    assert forall|a: int, b: int| 0 <= a < b < t.len() implies (#[trigger] t[a]).0@
                        != (#[trigger] t[b]).0@ by {
                        assert(t[a].0@ == self@[a].0@);
                        assert(t[b].0@ == self@[b].0@);
                    }
                    assert forall|a: int| 0 <= a < t.len() implies (#[trigger] t[a]).1@.rdata.len()
                        <= 0xffff by {
                        if a != i {
                            assert(t[a] == self@[a]);
                        }
                    }
                }
                self.entries.set(i, (k, e));
            },
            None => {
                proof {
                    lemma_find_none(self@, k@);
                }
                let ghost s0 = self@;
                if self.entries.len() >= cap {
                    proof {
                        let t1 = s0.skip(1);
                        assert(s0.remove(0) =~= t1);
                        assert forall|j: int| 0 <= j < t1.len() implies (#[trigger] t1[j]).0@
                            != s0[0].0@ by {
                            assert(t1[j] == s0[j + 1]);
                        }
                        lemma_find_none(t1, s0[0].0@);
                        assert forall|a: int, b: int| 0 <= a < b < t1.len() implies (
                        #[trigger] t1[a]).0@ != (#[trigger] t1[b]).0@ by {
                            assert(t1[a] == s0[a + 1] && t1[b] == s0[b + 1]);
                        }
                        assert forall|a: int| 0 <= a < t1.len() implies (
                        #[trigger] t1[a]).1@.rdata.len() <= 0xffff by {
                            assert(t1[a] == s0[a + 1]);
                        }
                        assert forall|k2: KeyV| k2 != s0[0].0@ implies find_entry(t1, k2)
                            == find_entry(s0, k2) by {
                            assert(find_entry(s0, k2) == find_entry(s0.skip(1), k2));
                        }
                        assert forall|j: int| 0 <= j < t1.len() implies (#[trigger] t1[j]).0@
                            != k@ by {
                            assert(t1[j] == s0[j + 1]);
                        }
                        lemma_find_none(t1, k@);
                    }
                    self.entries.remove(0);
                }
                let ghost s1 = self@;
                proof {
                    lemma_find_push(s1, (k, e));
                    let t = s1.push((k, e));
                    assert forall|a: int, b: int| 0 <= a < b < t.len() implies (#[trigger] t[a]).0@
                        != (#[trigger] t[b]).0@ by {
                        if b < t.len() - 1 {
                            assert(t[a] == s1[a] && t[b] == s1[b]);
                        } else {
                            assert(t[a] == s1[a] && t[b] == (k, e));
                        }
                    }
                    assert forall|a: int| 0 <= a < t.len() implies (#[trigger] t[a]).1@.rdata.len()
                        <= 0xffff by {
                        if a < t.len() - 1 {
                            assert(t[a] == s1[a]);
                        } else {
                            assert(t[a] == (k, e));
                        }
                    }
                }
                self.entries.push((k, e));
            },
        }
    }
}

/// Law: an entry stored at time `t0 = e.inserted` with TTL `e.ttl` is served
/// for every `now` below `t0 + ttl` and treated as absent from `t0 + ttl`
/// onwards.
pub proof fn lemma_ttl_window(s: Seq<(CacheKey, CacheEntry)>, k: KeyV, e: EntryV, now: u64)
    requires
        find_entry(s, k) == Some(e),
    ensures
        (now as int) < e.inserted + e.ttl ==> spec_lookup(s, k, now) == Some(e),
        (now as int) >= e.inserted + e.ttl ==> spec_lookup(s, k, now) == None::<EntryV>,
{
}

} // verus!
