//! The link-state database: per-area tables of LSAs plus the AS-wide table
//! of AS-External-LSAs, with aging and the freshness rule for updates.
//! Times are milliseconds on a monotonic clock supplied by the caller.

use vstd::prelude::*;
use core::cmp::Ordering;
use crate::lsa::{
    Lsa, LsaHeader, LsaIndex, LsaModel, header_index, freshness, lemma_freshness_antisymmetric,
    AS_EXTERNAL_LSA, LSA_MAX_AGE,
};

verus! {

/// One stored LSA: its age field holds the age it had when stored.
#[derive(Clone, Debug)]
pub struct LsaEntry {
    pub lsa: Lsa,
    pub created_at: u64,
    pub last_sent_at: u64,
}

impl LsaEntry {
    pub fn duplicate(&self) -> (r: LsaEntry)
        ensures
            entry_model(r) == entry_model(*self),
            entry_key(r) == entry_key(*self),
    {
        LsaEntry { lsa: self.lsa.duplicate(), created_at: self.created_at, last_sent_at: self.last_sent_at }
    }
}

pub ghost struct EntryModel {
    pub lsa: LsaModel,
    pub created_at: u64,
    pub last_sent_at: u64,
}

pub open spec fn entry_model(e: LsaEntry) -> EntryModel {
    EntryModel { lsa: e.lsa@, created_at: e.created_at, last_sent_at: e.last_sent_at }
}

pub open spec fn entry_key(e: LsaEntry) -> LsaIndex {
    header_index(e.lsa.header)
}

/// The entry stored under `k` (the last one, were there several).
pub open spec fn lookup(s: Seq<LsaEntry>, k: LsaIndex) -> Option<EntryModel>
    decreases s.len(),
{
    if s.len() == 0 {
        None
    } else if entry_key(s.last()) == k {
        Some(entry_model(s.last()))
    } else {
        lookup(s.drop_last(), k)
    }
}

pub open spec fn keys_unique(s: Seq<LsaEntry>) -> bool {
    forall|i: int, j: int|
        0 <= i < s.len() && 0 <= j < s.len() && i != j ==> entry_key(#[trigger] s[i]) != entry_key(
            #[trigger] s[j],
        )
}

/// Age after `now - created_at` milliseconds, in whole seconds, capped at MaxAge.
pub open spec fn effective_age(stored: u16, created_at: u64, now: u64) -> u16 {
    let elapsed = if now >= created_at { (now - created_at) / 1000 } else { 0 };
    if stored + elapsed >= LSA_MAX_AGE {
        LSA_MAX_AGE
    } else {
        (stored + elapsed) as u16
    }
}

pub open spec fn aged_header(h: LsaHeader, created_at: u64, now: u64) -> LsaHeader {
    LsaHeader { ls_age: effective_age(h.ls_age, created_at, now), ..h }
}

pub open spec fn aged(m: LsaModel, created_at: u64, now: u64) -> LsaModel {
    LsaModel { header: aged_header(m.header, created_at, now), ..m }
}

proof fn lemma_lookup_found(s: Seq<LsaEntry>, k: LsaIndex)
    ensures
        match lookup(s, k) {
            Some(m) => exists|i: int| 0 <= i < s.len() && entry_key(#[trigger] s[i]) == k && entry_model(s[i]) == m,
            None => forall|i: int| 0 <= i < s.len() ==> entry_key(#[trigger] s[i]) != k,
        },
    decreases s.len(),
{
    if s.len() > 0 {
        let init = s.drop_last();
        lemma_lookup_found(init, k);
        assert forall|i: int| 0 <= i < init.len() implies s[i] == #[trigger] init[i] by {}
        if entry_key(s.last()) != k {
            match lookup(init, k) {
                Some(m) => {
                    let i = choose|i: int| 0 <= i < init.len() && entry_key(#[trigger] init[i]) == k && entry_model(init[i]) == m;
                    assert(s[i] == init[i]);
                },
                None => {
                    assert forall|i: int| 0 <= i < s.len() implies entry_key(#[trigger] s[i]) != k by {
                        if i < init.len() {
                            assert(s[i] == init[i]);
                        }
                    }
                },
            }
        } else {
            assert(s[s.len() - 1] == s.last());
        }
    }
}

proof fn lemma_lookup_unique(s: Seq<LsaEntry>, i: int)
    requires
        keys_unique(s),
        0 <= i < s.len(),
    ensures
        lookup(s, entry_key(s[i])) == Some(entry_model(s[i])),
    decreases s.len(),
{
    let init = s.drop_last();
    if i < s.len() - 1 {
        assert(init[i] == s[i]);
        assert(entry_key(s[s.len() - 1]) != entry_key(s[i]));
        assert(keys_unique(init)) by {
            assert forall|a: int, b: int| 0 <= a < init.len() && 0 <= b < init.len() && a != b implies entry_key(#[trigger] init[a]) != entry_key(#[trigger] init[b]) by {
                assert(init[a] == s[a] && init[b] == s[b]);
            }
        }
        lemma_lookup_unique(init, i);
    }
}

/// A table of LSAs with at most one entry per key.
pub struct LsaTable {
    pub entries: Vec<LsaEntry>,
}

impl LsaTable {
    pub open spec fn wf(&self) -> bool {
        keys_unique(self.entries@)
    }

    /// The entry stored under each key.
    pub open spec fn get_spec(&self, k: LsaIndex) -> Option<EntryModel> {
        lookup(self.entries@, k)
    }

    pub fn new() -> (r: LsaTable)
        ensures
            r.wf(),
            forall|k: LsaIndex| r.get_spec(k) is None,
    {
        LsaTable { entries: Vec::new() }
    }

    /// Position of the entry stored under `k`.
    pub fn find(&self, k: &LsaIndex) -> (r: Option<usize>)
        requires
            self.wf(),
        ensures
            match r {
                Some(i) => i < self.entries@.len() && entry_key(self.entries@[i as int]) == *k
                    && self.get_spec(*k) == Some(entry_model(self.entries@[i as int])),
                None => self.get_spec(*k) is None,
            },
    {
        let mut i: usize = 0;
        while i < self.entries.len()
            invariant
                keys_unique(self.entries@),
                i <= self.entries@.len(),
                forall|j: int| 0 <= j < i ==> entry_key(#[trigger] self.entries@[j]) != *k,
            decreases self.entries@.len() - i,
        {
            let h = &self.entries[i].lsa.header;
            if h.ls_type == k.ls_type && h.link_state_id == k.ls_id && h.advertising_router == k.ad_router {
                proof {
                    lemma_lookup_unique(self.entries@, i as int);
                }
                return Some(i);
            }
            i = i + 1;
        }
        proof {
            lemma_lookup_found(self.entries@, *k);
            if lookup(self.entries@, *k) is Some {
                let m = lookup(self.entries@, *k).unwrap();
                let j = choose|j: int| 0 <= j < self.entries@.len() && entry_key(#[trigger] self.entries@[j]) == *k && entry_model(self.entries@[j]) == m;
                assert(entry_key(self.entries@[j]) != *k);
            }
        }
        None
    }

    /// Stores `e`, replacing the entry with the same key if there is one.
    pub fn put(&mut self, e: LsaEntry)
        requires
            old(self).wf(),
        ensures
            final(self).wf(),
            forall|k: LsaIndex| #[trigger] final(self).get_spec(k) == if k == entry_key(e) {
                Some(entry_model(e))
            } else {
                old(self).get_spec(k)
            },
    {
        let key = e.lsa.header.index();
        match self.find(&key) {
            Some(i) => {
                let ghost s0 = self.entries@;
                self.entries.set(i, e);
                let ghost s1 = self.entries@;
                assert(keys_unique(s1)) by {
                    assert forall|a: int, b: int| 0 <= a < s1.len() && 0 <= b < s1.len() && a != b implies entry_key(#[trigger] s1[a]) != entry_key(#[trigger] s1[b]) by {
                        if a != i && b != i {
                            assert(s1[a] == s0[a] && s1[b] == s0[b]);
                        } else if a == i {
                            assert(s1[b] == s0[b]);
                        } else {
                            assert(s1[a] == s0[a]);
                        }
                    }
                }
                assert forall|k: LsaIndex| #[trigger] lookup(s1, k) == if k == entry_key(e) {
                    Some(entry_model(e))
                } else {
                    lookup(s0, k)
                } by {
                    lemma_unique_view(s0, s1, i as int, k);
                }
            },
            None => {
                let ghost s0 = self.entries@;
                self.entries.push(e);
                let ghost s1 = self.entries@;
                assert(s1.drop_last() =~= s0);
                proof {
                    lemma_lookup_found(s0, key);
                }
                assert(keys_unique(s1)) by {
                    assert forall|a: int, b: int| 0 <= a < s1.len() && 0 <= b < s1.len() && a != b implies entry_key(#[trigger] s1[a]) != entry_key(#[trigger] s1[b]) by {
                        if a < s0.len() && b < s0.len() {
                            assert(s1[a] == s0[a] && s1[b] == s0[b]);
                        } else if a < s0.len() {
                            assert(s1[a] == s0[a]);
                        } else {
                            assert(s1[b] == s0[b]);
                        }
                    }
                }
            },
        }
    }

    /// Removes the entry stored under `k`, if any.
    pub fn remove(&mut self, k: &LsaIndex)
        requires
            old(self).wf(),
        ensures
            final(self).wf(),
            forall|j: LsaIndex| #[trigger] final(self).get_spec(j) == if j == *k {
                None
            } else {
                old(self).get_spec(j)
            },
    {
        match self.find(k) {
            Some(i) => {
                let ghost s0 = self.entries@;
                self.entries.remove(i);
                let ghost s1 = self.entries@;
                assert forall|a: int| 0 <= a < s1.len() implies #[trigger] s1[a] == if a < i {
                    s0[a]
                } else {
                    s0[a + 1]
                } by {}
                assert(keys_unique(s1)) by {
                    assert forall|a: int, b: int| 0 <= a < s1.len() && 0 <= b < s1.len() && a != b implies entry_key(#[trigger] s1[a]) != entry_key(#[trigger] s1[b]) by {
                        let a0 = if a < i { a } else { a + 1 };
                        let b0 = if b < i { b } else { b + 1 };
                        assert(s1[a] == s0[a0] && s1[b] == s0[b0]);
                    }
                }
                assert forall|j: LsaIndex| #[trigger] lookup(s1, j) == if j == *k {
                    None
                } else {
                    lookup(s0, j)
                } by {
                    lemma_lookup_found(s1, j);
                    lemma_lookup_found(s0, j);
                    if j == *k {
                        if lookup(s1, j) is Some {
                            let m = lookup(s1, j).unwrap();
                            let a = choose|a: int| 0 <= a < s1.len() && entry_key(#[trigger] s1[a]) == j && entry_model(s1[a]) == m;
                            let a0 = if a < i { a } else { a + 1 };
                            assert(s1[a] == s0[a0]);
                        }
                    } else {
                        if lookup(s0, j) is Some {
                            let m = lookup(s0, j).unwrap();
                            let a = choose|a: int| 0 <= a < s0.len() && entry_key(#[trigger] s0[a]) == j && entry_model(s0[a]) == m;
                            assert(a != i);
                            let a1 = if a < i { a } else { a - 1 };
                            assert(s1[a1] == s0[a]);
                            lemma_lookup_unique(s0, a);
                            lemma_lookup_unique(s1, a1);
                        } else if lookup(s1, j) is Some {
                            let m = lookup(s1, j).unwrap();
                            let a = choose|a: int| 0 <= a < s1.len() && entry_key(#[trigger] s1[a]) == j && entry_model(s1[a]) == m;
                            let a0 = if a < i { a } else { a + 1 };
                            assert(s1[a] == s0[a0]);
                        }
                    }
                }
            },
            None => {},
        }
    }
}

/// Replacing the entry at `i` by one with the same key changes the table
/// at that key only.
proof fn lemma_unique_view(s0: Seq<LsaEntry>, s1: Seq<LsaEntry>, i: int, k: LsaIndex)
    requires
        keys_unique(s0),
        keys_unique(s1),
        0 <= i < s0.len(),
        s1.len() == s0.len(),
        entry_key(s1[i]) == entry_key(s0[i]),
        forall|j: int| 0 <= j < s0.len() && j != i ==> s1[j] == s0[j],
    ensures
        lookup(s1, k) == if k == entry_key(s1[i]) {
            Some(entry_model(s1[i]))
        } else {
            lookup(s0, k)
        },
{
    lemma_lookup_found(s0, k);
    lemma_lookup_found(s1, k);
    if k == entry_key(s1[i]) {
        lemma_lookup_unique(s1, i);
    } else {
        if lookup(s0, k) is Some {
            let m = lookup(s0, k).unwrap();
            let a = choose|a: int| 0 <= a < s0.len() && entry_key(#[trigger] s0[a]) == k && entry_model(s0[a]) == m;
            assert(s1[a] == s0[a]);
            lemma_lookup_unique(s0, a);
            lemma_lookup_unique(s1, a);
        } else if lookup(s1, k) is Some {
            let m = lookup(s1, k).unwrap();
            let a = choose|a: int| 0 <= a < s1.len() && entry_key(#[trigger] s1[a]) == k && entry_model(s1[a]) == m;
            assert(s1[a] == s0[a]);
        }
    }
}

/// Age of a stored LSA at `now`.
pub fn effective_age_at(stored: u16, created_at: u64, now: u64) -> (r: u16)
    ensures
        r == effective_age(stored, created_at, now),
{
    let elapsed: u64 = if now >= created_at { (now - created_at) / 1000 } else { 0 };
    if elapsed >= LSA_MAX_AGE as u64 || stored as u64 + elapsed >= LSA_MAX_AGE as u64 {
        LSA_MAX_AGE
    } else {
        (stored as u64 + elapsed) as u16
    }
}

/// Seconds until a stored LSA of age `age` reaches MaxAge.
pub fn refresh_delay(age: u16) -> (r: u16)
    requires
        age <= LSA_MAX_AGE,
    ensures
        r == LSA_MAX_AGE - age,
{
    LSA_MAX_AGE - age
}

pub struct Area {
    pub area_id: u32,
    pub lsa_database: LsaTable,
    pub transit_capability: bool,
    pub external_routing_capability: bool,
    pub stub_default_cost: u32,
}

/// The stored entry for `k` as `area` sees it: AS-External-LSAs come from
/// the AS-wide table, and only when the area takes external routes.
pub open spec fn scope_get(area: &Area, ext: &LsaTable, k: LsaIndex) -> Option<EntryModel> {
    if k.ls_type == AS_EXTERNAL_LSA {
        if area.external_routing_capability {
            ext.get_spec(k)
        } else {
            None
        }
    } else {
        area.lsa_database.get_spec(k)
    }
}

/// No stored instance, or the stored one (aged to `now`) is strictly older.
pub open spec fn needs_update(area: &Area, ext: &LsaTable, h: LsaHeader, now: u64) -> bool {
    match scope_get(area, ext, header_index(h)) {
        None => true,
        Some(m) => freshness(aged_header(m.lsa.header, m.created_at, now), h) == Ordering::Less,
    }
}

/// A header older than the stored instance is never taken as an update.
pub proof fn lemma_older_not_needed(area: &Area, ext: &LsaTable, h: LsaHeader, now: u64)
    requires
        scope_get(area, ext, header_index(h)) is Some,
        freshness(
            h,
            aged_header(
                scope_get(area, ext, header_index(h)).unwrap().lsa.header,
                scope_get(area, ext, header_index(h)).unwrap().created_at,
                now,
            ),
        ) == Ordering::Less,
    ensures
        !needs_update(area, ext, h, now),
{
    let m = scope_get(area, ext, header_index(h)).unwrap();
    lemma_freshness_antisymmetric(h, aged_header(m.lsa.header, m.created_at, now));
}

impl Area {
    pub open spec fn wf(&self) -> bool {
        &&& self.lsa_database.wf()
        &&& forall|k: LsaIndex| k.ls_type == AS_EXTERNAL_LSA ==> #[trigger] self.lsa_database.get_spec(k) is None
    }

    pub fn new(area_id: u32) -> (r: Area)
        ensures
            r.wf(),
            r.area_id == area_id,
            !r.transit_capability,
            r.external_routing_capability,
            r.stub_default_cost == 0,
            forall|k: LsaIndex| #[trigger] r.lsa_database.get_spec(k) is None,
    {
        Area {
            area_id,
            lsa_database: LsaTable::new(),
            transit_capability: false,
            external_routing_capability: true,
            stub_default_cost: 0,
        }
    }

    fn table_of<'a>(&'a self, ext: &'a LsaTable, k: &LsaIndex) -> (r: Option<&'a LsaTable>)
        ensures
            match r {
                Some(t) => forall|j: LsaIndex| j.ls_type == k.ls_type ==> #[trigger] t.get_spec(j) == scope_get(self, ext, j),
                None => forall|j: LsaIndex| j.ls_type == k.ls_type ==> #[trigger] scope_get(self, ext, j) is None,
            },
            r is Some ==> r.unwrap().wf() == (if k.ls_type == AS_EXTERNAL_LSA { ext.wf() } else { self.lsa_database.wf() }),
    {
        if k.ls_type == AS_EXTERNAL_LSA {
            if self.external_routing_capability {
                Some(ext)
            } else {
                None
            }
        } else {
            Some(&self.lsa_database)
        }
    }

    pub fn contains_lsa(&self, ext: &LsaTable, key: &LsaIndex) -> (r: bool)
        requires
            self.wf(),
            ext.wf(),
        ensures
            r == scope_get(self, ext, *key) is Some,
    {
        match self.table_of(ext, key) {
            Some(t) => t.find(key).is_some(),
            None => false,
        }
    }

    /// The stored LSA with its age brought up to `now`, with the times it
    /// was stored and last sent.
    pub fn get_lsa(&self, ext: &LsaTable, key: &LsaIndex, now: u64) -> (r: Option<(Lsa, u64, u64)>)
        requires
            self.wf(),
            ext.wf(),
        ensures
            match scope_get(self, ext, *key) {
                None => r is None,
                Some(m) => r is Some && r.unwrap().0@ == aged(m.lsa, m.created_at, now)
                    && r.unwrap().1 == m.created_at && r.unwrap().2 == m.last_sent_at,
            },
    {
        match self.table_of(ext, key) {
            Some(t) => match t.find(key) {
                Some(i) => {
                    let e = &t.entries[i];
                    let mut lsa = e.lsa.duplicate();
                    lsa.header.ls_age = effective_age_at(e.lsa.header.ls_age, e.created_at, now);
                    Some((lsa, e.created_at, e.last_sent_at))
                },
                None => None,
            },
            None => None,
        }
    }

    /// True when `header` should replace what is stored (or nothing is).
    pub fn need_update(&self, ext: &LsaTable, header: &LsaHeader, now: u64) -> (r: bool)
        requires
            self.wf(),
            ext.wf(),
        ensures
            r == needs_update(self, ext, *header, now),
    {
        let key = header.index();
        match self.table_of(ext, &key) {
            Some(t) => match t.find(&key) {
                Some(i) => {
                    let e = &t.entries[i];
                    let stored = LsaHeader {
                        ls_age: effective_age_at(e.lsa.header.ls_age, e.created_at, now),
                        ..e.lsa.header
                    };
                    match stored.freshness_cmp(header) {
                        Ordering::Less => true,
                        _ => false,
                    }
                },
                None => true,
            },
            None => true,
        }
    }

    /// Stores `lsa`, received or originated at `now`, replacing the stored
    /// instance of its key.
    pub fn insert_lsa(&mut self, ext: &mut LsaTable, lsa: Lsa, now: u64)
        requires
            old(self).wf(),
            old(ext).wf(),
            needs_update(old(self), old(ext), lsa.header, now),
            lsa.header.ls_type == AS_EXTERNAL_LSA ==> old(self).external_routing_capability,
        ensures
            final(self).wf(),
            final(ext).wf(),
            final(self).area_id == old(self).area_id,
            final(self).external_routing_capability == old(self).external_routing_capability,
            scope_get(final(self), final(ext), header_index(lsa.header)) == Some(
                EntryModel { lsa: lsa@, created_at: now, last_sent_at: now },
            ),
            forall|k: LsaIndex| k != header_index(lsa.header) ==> #[trigger] scope_get(final(self), final(ext), k) == scope_get(old(self), old(ext), k),
            lsa.header.ls_type != AS_EXTERNAL_LSA ==> final(ext).entries@ == old(ext).entries@,
            lsa.header.ls_type == AS_EXTERNAL_LSA ==> final(self).lsa_database.entries@ == old(self).lsa_database.entries@,
    {
        let is_ext = lsa.header.ls_type == AS_EXTERNAL_LSA;
        let e = LsaEntry { lsa, created_at: now, last_sent_at: now };
        if is_ext {
            ext.put(e);
        } else {
            self.lsa_database.put(e);
        }
    }

    /// Drops the stored instance of `key`.
    pub fn remove_lsa(&mut self, ext: &mut LsaTable, key: &LsaIndex)
        requires
            old(self).wf(),
            old(ext).wf(),
        ensures
            final(self).wf(),
            final(ext).wf(),
            final(self).area_id == old(self).area_id,
            final(self).external_routing_capability == old(self).external_routing_capability,
            scope_get(final(self), final(ext), *key) is None,
            forall|k: LsaIndex| k != *key ==> #[trigger] scope_get(final(self), final(ext), k) == scope_get(old(self), old(ext), k),
            key.ls_type != AS_EXTERNAL_LSA ==> final(ext).entries@ == old(ext).entries@,
            key.ls_type == AS_EXTERNAL_LSA ==> final(self).lsa_database.entries@ == old(self).lsa_database.entries@,
    {
        if key.ls_type == AS_EXTERNAL_LSA {
            if self.external_routing_capability {
                ext.remove(key);
            }
        } else {
            self.lsa_database.remove(key);
        }
    }

    /// Records that the stored instance of `key` was sent at `now`.
    pub fn lsa_has_sent(&mut self, ext: &mut LsaTable, key: &LsaIndex, now: u64)
        requires
            old(self).wf(),
            old(ext).wf(),
        ensures
            final(self).wf(),
            final(ext).wf(),
            final(self).area_id == old(self).area_id,
            final(self).external_routing_capability == old(self).external_routing_capability,
            match scope_get(old(self), old(ext), *key) {
                None => scope_get(final(self), final(ext), *key) is None,
                Some(m) => scope_get(final(self), final(ext), *key) == Some(EntryModel { last_sent_at: now, ..m }),
            },
            forall|k: LsaIndex| k != *key ==> #[trigger] scope_get(final(self), final(ext), k) == scope_get(old(self), old(ext), k),
            key.ls_type != AS_EXTERNAL_LSA ==> final(ext).entries@ == old(ext).entries@,
            key.ls_type == AS_EXTERNAL_LSA ==> final(self).lsa_database.entries@ == old(self).lsa_database.entries@,
    {
        let ext_scope = key.ls_type == AS_EXTERNAL_LSA;
        if ext_scope && !self.external_routing_capability {
            return;
        }
        let found = if ext_scope { ext.find(key) } else { self.lsa_database.find(key) };
        match found {
            Some(i) => {
                let mut e = if ext_scope { ext.entries[i].duplicate() } else { self.lsa_database.entries[i].duplicate() };
                e.last_sent_at = now;
                if ext_scope {
                    ext.put(e);
                } else {
                    self.lsa_database.put(e);
                }
            },
            None => {},
        }
    }
}

/// Headers of the entries of `s`, aged to `now`, leaving out those that
/// have reached MaxAge.
pub open spec fn live_headers(s: Seq<LsaEntry>, now: u64) -> Seq<LsaHeader>
    decreases s.len(),
{
    if s.len() == 0 {
        seq![]
    } else {
        let rest = live_headers(s.drop_last(), now);
        let h = aged_header(s.last().lsa.header, s.last().created_at, now);
        if h.ls_age == LSA_MAX_AGE {
            rest
        } else {
            rest.push(h)
        }
    }
}

fn append_live(s: &Vec<LsaEntry>, now: u64, out: &mut Vec<LsaHeader>)
    ensures
        final(out)@ == old(out)@ + live_headers(s@, now),
{
    let mut i: usize = 0;
    while i < s.len()
        invariant
            i <= s@.len(),
            out@ == old(out)@ + live_headers(s@.subrange(0, i as int), now),
        decreases s@.len() - i,
    {
        let e = &s[i];
        assert(s@.subrange(0, i + 1).drop_last() =~= s@.subrange(0, i as int));
        let h = LsaHeader { ls_age: effective_age_at(e.lsa.header.ls_age, e.created_at, now), ..e.lsa.header };
        if h.ls_age != LSA_MAX_AGE {
            out.push(h);
        }
        assert(out@ =~= old(out)@ + live_headers(s@.subrange(0, i + 1), now));
        i = i + 1;
    }
    assert(s@.subrange(0, i as int) =~= s@);
}

impl Area {
    /// The headers of every LSA the area sees, aged to `now`, without
    /// those at MaxAge: the area's own, then the AS-wide ones when the area
    /// takes external routes.
    pub fn get_all_lsa(&self, ext: &LsaTable, now: u64) -> (r: Vec<LsaHeader>)
        ensures
            r@ == live_headers(self.lsa_database.entries@, now) + if self.external_routing_capability {
                live_headers(ext.entries@, now)
            } else {
                Seq::<LsaHeader>::empty()
            },
    {
        let mut out: Vec<LsaHeader> = Vec::new();
        append_live(&self.lsa_database.entries, now, &mut out);
        if self.external_routing_capability {
            append_live(&ext.entries, now, &mut out);
        } else {
            assert(out@ =~= out@ + Seq::<LsaHeader>::empty());
        }
        assert(out@ =~= live_headers(self.lsa_database.entries@, now) + if self.external_routing_capability {
            live_headers(ext.entries@, now)
        } else {
            Seq::<LsaHeader>::empty()
        });
        out
    }
}

/// `h` with its age brought up to `now`, for an LSA stored at `created_at`.
pub fn update_lsa_age_header(h: LsaHeader, created_at: u64, now: u64) -> (r: LsaHeader)
    ensures
        r == aged_header(h, created_at, now),
{
    LsaHeader { ls_age: effective_age_at(h.ls_age, created_at, now), ..h }
}

/// What the LSA headers of a DD packet ask for: `None` when one names an
/// unknown type, or an AS-External-LSA where external routing is not
/// carried (SeqNumberMismatch); else, in order, the headers whose LSA is
/// missing or older here, to be requested.
pub open spec fn dd_requests_spec(area: &Area, ext: &LsaTable, hs: Seq<LsaHeader>, external_routing: bool, now: u64) -> Option<Seq<LsaHeader>>
    decreases hs.len(),
{
    if hs.len() == 0 {
        Some(seq![])
    } else {
        match dd_requests_spec(area, ext, hs.drop_last(), external_routing, now) {
            None => None,
            Some(r) => {
                let h = hs.last();
                if !(1 <= h.ls_type <= 5) || (h.ls_type == AS_EXTERNAL_LSA && !external_routing) {
                    None
                } else if needs_update(area, ext, h, now) {
                    Some(r.push(h))
                } else {
                    Some(r)
                }
            },
        }
    }
}

impl Area {
    /// The headers of a received DD packet to add to the request list, or
    /// `None` when the packet must raise SeqNumberMismatch.
    pub fn dd_requests(&self, ext: &LsaTable, hs: &Vec<LsaHeader>, external_routing: bool, now: u64) -> (r: Option<Vec<LsaHeader>>)
        requires
            self.wf(),
            ext.wf(),
        ensures
            match r {
                Some(v) => dd_requests_spec(self, ext, hs@, external_routing, now) == Some(v@),
                None => dd_requests_spec(self, ext, hs@, external_routing, now) is None,
            },
    {
        let mut out: Vec<LsaHeader> = Vec::new();
        let mut i: usize = 0;
        while i < hs.len()
            invariant
                self.wf(),
                ext.wf(),
                i <= hs@.len(),
                dd_requests_spec(self, ext, hs@.subrange(0, i as int), external_routing, now) == Some(out@),
            decreases hs@.len() - i,
        {
            assert(hs@.subrange(0, i + 1).drop_last() =~= hs@.subrange(0, i as int));
            let h = hs[i];
            if !(1 <= h.ls_type && h.ls_type <= 5) || (h.ls_type == AS_EXTERNAL_LSA && !external_routing) {
                proof {
                    lemma_requests_none(self, ext, hs@, external_routing, now, i + 1);
                }
                return None;
            }
            if self.need_update(ext, &h, now) {
                out.push(h);
            }
            i = i + 1;
        }
        assert(hs@.subrange(0, i as int) =~= hs@);
        Some(out)
    }
}

proof fn lemma_requests_none(area: &Area, ext: &LsaTable, hs: Seq<LsaHeader>, external_routing: bool, now: u64, n: int)
    requires
        0 <= n <= hs.len(),
        dd_requests_spec(area, ext, hs.subrange(0, n), external_routing, now) is None,
    ensures
        dd_requests_spec(area, ext, hs, external_routing, now) is None,
    decreases hs.len() - n,
{
    if n < hs.len() {
        assert(hs.subrange(0, n + 1).drop_last() =~= hs.subrange(0, n));
        lemma_requests_none(area, ext, hs, external_routing, now, n + 1);
    } else {
        assert(hs.subrange(0, n) =~= hs);
    }
}

/// What is stored under a key is an LSA with that key.
pub proof fn lemma_scope_key(area: &Area, ext: &LsaTable, k: LsaIndex)
    ensures
        match scope_get(area, ext, k) {
            Some(m) => header_index(m.lsa.header) == k,
            None => true,
        },
{
    lemma_lookup_found(area.lsa_database.entries@, k);
    lemma_lookup_found(ext.entries@, k);
}

} // verus!
