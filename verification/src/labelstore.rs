//! The label store: per-digest key/value metadata with replace and
//! partial-update ("merge") semantics.

use vstd::prelude::*;

use crate::strmap::StrMap;
use crate::StoreError;

verus! {

/// The label set of one digest: string keys mapped to string values.
pub type LabelMap = StrMap<String>;

/// The label map stored under `d`, or the empty map if none is.
pub open spec fn record_or_empty(
    records: Map<Seq<char>, Map<Seq<char>, Seq<char>>>,
    d: Seq<char>,
) -> Map<Seq<char>, Seq<char>> {
    if records.contains_key(d) {
        records[d]
    } else {
        Map::empty()
    }
}

/// The result of merging `partial` into `existing`: a key mentioned with an
/// empty value is deleted, a key mentioned with a non-empty value is set to
/// it, and keys not mentioned stay as they were.
pub open spec fn merge_labels(
    existing: Map<Seq<char>, Seq<char>>,
    partial: Map<Seq<char>, Seq<char>>,
) -> Map<Seq<char>, Seq<char>> {
    Map::new(
        |k: Seq<char>|
            if partial.contains_key(k) {
                partial[k].len() > 0
            } else {
                existing.contains_key(k)
            },
        |k: Seq<char>|
            if partial.contains_key(k) {
                partial[k]
            } else {
                existing[k]
            },
    )
}

/// `base` after applying the first `i` of `partial`'s keys, in the order
/// `keys` lists them: empty values delete, non-empty values upsert.
pub open spec fn apply_labels(
    base: Map<Seq<char>, Seq<char>>,
    keys: Seq<Seq<char>>,
    partial: Map<Seq<char>, Seq<char>>,
    i: int,
) -> Map<Seq<char>, Seq<char>>
    decreases i,
{
    if i <= 0 {
        base
    } else {
        let m = apply_labels(base, keys, partial, i - 1);
        let k = keys[i - 1];
        if partial[k].len() == 0 {
            m.remove(k)
        } else {
            m.insert(k, partial[k])
        }
    }
}

proof fn lemma_apply_labels(
    base: Map<Seq<char>, Seq<char>>,
    keys: Seq<Seq<char>>,
    partial: Map<Seq<char>, Seq<char>>,
    i: int,
)
    requires
        0 <= i <= keys.len(),
        forall|a: int, b: int| 0 <= a < b < keys.len() ==> keys[a] != keys[b],
        forall|j: int| 0 <= j < keys.len() ==> partial.contains_key(#[trigger] keys[j]),
    ensures
        forall|j: int|
            0 <= j < i ==> {
                let m = apply_labels(base, keys, partial, i);
                let k = #[trigger] keys[j];
                if partial[k].len() == 0 {
                    !m.contains_key(k)
                } else {
                    m.contains_key(k) && m[k] == partial[k]
                }
            },
        forall|k: Seq<char>|
            #![trigger apply_labels(base, keys, partial, i).contains_key(k)]
            (forall|j: int| 0 <= j < i ==> keys[j] != k) ==> {
                let m = apply_labels(base, keys, partial, i);
                m.contains_key(k) == base.contains_key(k) && (base.contains_key(k) ==> m[k]
                    == base[k])
            },
    decreases i,
{
    if i > 0 {
        lemma_apply_labels(base, keys, partial, i - 1);
        assert forall|k: Seq<char>|
            #![trigger apply_labels(base, keys, partial, i).contains_key(k)]
            (forall|j: int| 0 <= j < i ==> keys[j] != k) implies {
            let m = apply_labels(base, keys, partial, i);
            m.contains_key(k) == base.contains_key(k) && (base.contains_key(k) ==> m[k] == base[k])
        } by {
            let prev = apply_labels(base, keys, partial, i - 1);
            assert(prev.contains_key(k) == base.contains_key(k) && (base.contains_key(k)
                ==> prev[k] == base[k]));
            assert(keys[i - 1] != k);
        }
    }
}

/// Merging through `apply_labels`, over keys that enumerate `partial`'s
/// domain exactly once, yields `merge_labels`.
proof fn lemma_apply_is_merge(
    base: Map<Seq<char>, Seq<char>>,
    keys: Seq<Seq<char>>,
    partial: Map<Seq<char>, Seq<char>>,
)
    requires
        forall|a: int, b: int| 0 <= a < b < keys.len() ==> keys[a] != keys[b],
        forall|j: int| 0 <= j < keys.len() ==> partial.contains_key(#[trigger] keys[j]),
        forall|k: Seq<char>|
            partial.contains_key(k) ==> exists|j: int| 0 <= j < keys.len() && keys[j] == k,
    ensures
        apply_labels(base, keys, partial, keys.len() as int) == merge_labels(base, partial),
{
    lemma_apply_labels(base, keys, partial, keys.len() as int);
    assert(apply_labels(base, keys, partial, keys.len() as int) =~= merge_labels(base, partial));
}

/// What a label store offers: per-digest label maps that can be read,
/// replaced whole, or merged into.
pub trait LabelstoreInterface: Sized {
    /// The stored label map of each digest.
    spec fn records(&self) -> Map<Seq<char>, Map<Seq<char>, Seq<char>>>;

    /// The store's internal invariant.
    spec fn inv(&self) -> bool;

    /// The label map recorded for `digest`, or `None` if there is none.
    fn get(&self, digest: String) -> (r: Option<LabelMap>)
        requires
            self.inv(),
        ensures
            match r {
                Some(m) => self.records().contains_key(digest@) && m.wf() && m@
                    == self.records()[digest@],
                None => !self.records().contains_key(digest@),
            },
    ;

    /// Replaces the entire label set of `digest`; creates the record if
    /// absent, and never fails.
    fn set(&mut self, digest: String, maps: LabelMap) -> (r: Result<(), StoreError>)
        requires
            old(self).inv(),
            maps.wf(),
        ensures
            final(self).inv(),
            r is Ok,
            final(self).records() == old(self).records().insert(digest@, maps@),
    ;

    /// Merges `maps` into the record of `digest`: an empty value deletes its
    /// key, a non-empty value upserts it, unmentioned keys stay. Returns the
    /// merged map, or `None` (and changes nothing) if no record exists.
    fn update(&mut self, digest: String, maps: LabelMap) -> (r: Option<LabelMap>)
        requires
            old(self).inv(),
            maps.wf(),
        ensures
            final(self).inv(),
            match r {
                Some(m) => old(self).records().contains_key(digest@) && m.wf() && m@
                    == merge_labels(old(self).records()[digest@], maps@) && final(self).records()
                    == old(self).records().insert(digest@, m@),
                None => !old(self).records().contains_key(digest@) && final(self).records() == old(
                    self,
                ).records(),
            },
    ;
}

/// The concrete label store, keyed by digest.
pub struct Labelstore {
    root: String,
    labels: StrMap<LabelMap>,
}

impl Labelstore {
    /// Every stored label map is well formed, besides the outer map itself.
    pub closed spec fn well_formed(self) -> bool {
        self.labels.wf() && forall|i: int|
            0 <= i < self.labels.spec_vals().len() ==> (#[trigger] self.labels.spec_vals()[i]).wf()
    }

    /// The root path this store was opened under.
    pub closed spec fn root_view(self) -> Seq<char> {
        self.root@
    }

    /// An empty label store rooted at `rt`.
    pub fn new(rt: String) -> (r: Self)
        ensures
            r.inv(),
            r.records() == Map::<Seq<char>, Map<Seq<char>, Seq<char>>>::empty(),
            r.root_view() == rt@,
    {
        Labelstore { root: rt, labels: StrMap::new() }
    }

    /// Merges `maps` into the record of `digest`, creating the record from
    /// the empty map if none exists: an empty value deletes its key, a
    /// non-empty value upserts it, unmentioned keys stay. Returns the merged
    /// map, which is now the stored record.
    pub fn merge(&mut self, digest: String, maps: LabelMap) -> (r: LabelMap)
        requires
            old(self).inv(),
            maps.wf(),
        ensures
            final(self).inv(),
            r.wf(),
            r@ == merge_labels(record_or_empty(old(self).records(), digest@), maps@),
            final(self).records() == old(self).records().insert(digest@, r@),
    {
        let existing = match self.labels.get(&digest) {
            Some(m) => m.duplicate(),
            None => StrMap::new(),
        };
        let ghost base = existing@;
        let mut merged = existing;
        let n = maps.len();
        proof {
            maps.lemma_key_views();
        }
        for i in 0..n
            invariant
                n == maps.key_views().len(),
                maps.wf(),
                merged.wf(),
                merged@ == apply_labels(base, maps.key_views(), maps@, i as int),
                forall|j: int|
                    0 <= j < maps.key_views().len() ==> maps@.contains_key(
                        #[trigger] maps.key_views()[j],
                    ),
        {
            let (k, v) = maps.get_pair(i);
            if v.as_str().is_empty() {
                let _ = merged.remove(k);
            } else {
                merged.insert(k.clone(), v.clone());
            }
        }
        proof {
            maps.lemma_key_views();
            lemma_apply_is_merge(base, maps.key_views(), maps@);
        }
        self.labels.insert(digest, merged.duplicate());
        merged
    }

    /// Drops the record of `digest`, if any; tells whether one existed.
    pub fn remove(&mut self, digest: &String) -> (r: bool)
        requires
            old(self).inv(),
        ensures
            final(self).inv(),
            r == old(self).records().contains_key(digest@),
            final(self).records() == old(self).records().remove(digest@),
    {
        let removed = self.labels.remove(digest);
        proof {
            if removed is None {
                assert(self.records() =~= old(self).records().remove(digest@));
            }
        }
        removed.is_some()
    }
}

impl LabelstoreInterface for Labelstore {
    closed spec fn records(&self) -> Map<Seq<char>, Map<Seq<char>, Seq<char>>> {
        self.labels@
    }

    closed spec fn inv(&self) -> bool {
        self.well_formed()
    }

    fn get(&self, digest: String) -> (r: Option<LabelMap>) {
        match self.labels.get(&digest) {
            Some(m) => Some(m.duplicate()),
            None => None,
        }
    }

    fn set(&mut self, digest: String, maps: LabelMap) -> (r: Result<(), StoreError>) {
        self.labels.insert(digest, maps);
        Ok(())
    }

    fn update(&mut self, digest: String, maps: LabelMap) -> (r: Option<LabelMap>) {
        if !self.labels.contains_key(&digest) {
            return None;
        }
        Some(self.merge(digest, maps))
    }
}

} // verus!
