//! The blob store: committed content-addressed blobs, their labels, and
//! resumable ingest sessions.
//!
//! The store never reads a clock; every operation that stamps a time takes
//! the current time in seconds as an argument from the caller.

use vstd::prelude::*;

use crate::common::{sha256_hex, DigestComputer, MAX_HASH_INPUT};
use crate::labelstore::{merge_labels, LabelMap, Labelstore, LabelstoreInterface};
use crate::strmap::StrMap;
use crate::StoreError;

verus! {

/// The committed state of one digest's blob.
pub struct BlobView {
    pub data: Seq<u8>,
    pub created_at: u64,
    pub updated_at: u64,
}

/// The state of one in-flight ingest session.
pub struct SessionView {
    pub dref: Seq<char>,
    pub total: i64,
    pub expected: Seq<char>,
    pub staged: Seq<u8>,
    pub start_at: u64,
    pub update_at: u64,
}

/// The store's whole abstract state: committed blobs, label records and
/// in-flight ingest sessions, all keyed by strings.
pub struct StoreView {
    pub root: Seq<char>,
    pub blobs: Map<Seq<char>, BlobView>,
    pub labels: Map<Seq<char>, Map<Seq<char>, Seq<char>>>,
    pub sessions: Map<Seq<char>, SessionView>,
}

struct Blob {
    data: Vec<u8>,
    created_at: u64,
    updated_at: u64,
}

impl View for Blob {
    type V = BlobView;

    closed spec fn view(&self) -> BlobView {
        BlobView { data: self.data@, created_at: self.created_at, updated_at: self.updated_at }
    }
}

struct Session {
    dref: String,
    total: i64,
    expected: String,
    staged: Vec<u8>,
    hasher: DigestComputer,
    start_at: u64,
    update_at: u64,
}

impl View for Session {
    type V = SessionView;

    closed spec fn view(&self) -> SessionView {
        SessionView {
            dref: self.dref@,
            total: self.total,
            expected: self.expected@,
            staged: self.staged@,
            start_at: self.start_at,
            update_at: self.update_at,
        }
    }
}

/// The running hash mirrors the staged bytes, the staged bytes stay small
/// enough to hash, and the announced total is `-1` or a size.
spec fn session_wf(s: Session) -> bool {
    s.hasher@ == s.staged@ && s.staged@.len() <= MAX_HASH_INPUT && s.total >= -1
}

/// The in-flight status of one ingest session, as `status` reports it.
#[derive(Debug)]
pub struct Status {
    pub dref: String,
    pub offset: i64,
    pub total: i64,
    pub expected: String,
    pub start_at: u64,
    pub update_at: u64,
}

/// The committed, queryable state of one blob.
#[derive(Debug)]
pub struct Info {
    pub digest: String,
    pub size: u64,
    pub created_at: u64,
    pub updated_at: u64,
    pub labels: LabelMap,
}

/// The abstract value of an `Info` record.
pub struct InfoView {
    pub digest: Seq<char>,
    pub size: u64,
    pub created_at: u64,
    pub updated_at: u64,
    pub labels: Map<Seq<char>, Seq<char>>,
}

impl View for Info {
    type V = InfoView;

    open spec fn view(&self) -> InfoView {
        InfoView {
            digest: self.digest@,
            size: self.size,
            created_at: self.created_at,
            updated_at: self.updated_at,
            labels: self.labels@,
        }
    }
}

impl Default for Info {
    /// An empty record: no digest, no bytes, the epoch for both stamps.
    fn default() -> (r: Self)
        ensures
            r@.digest == Seq::<char>::empty(),
            r@.size == 0,
            r@.created_at == 0,
            r@.updated_at == 0,
            r@.labels == Map::<Seq<char>, Seq<char>>::empty(),
            r.labels.wf(),
    {
        Info {
            digest: String::new(),
            size: 0,
            created_at: 0,
            updated_at: 0,
            labels: StrMap::new(),
        }
    }
}

/// One conjunct of a walk filter: the labels must map `key` to `value`.
pub struct LabelFilter {
    pub key: String,
    pub value: String,
}

impl View for LabelFilter {
    type V = (Seq<char>, Seq<char>);

    open spec fn view(&self) -> (Seq<char>, Seq<char>) {
        (self.key@, self.value@)
    }
}

/// Whether `labels` satisfies every filter: each filter's key is present
/// with exactly the filter's value.
pub open spec fn passes_filters(
    labels: Map<Seq<char>, Seq<char>>,
    filters: Seq<(Seq<char>, Seq<char>)>,
) -> bool {
    forall|i: int|
        0 <= i < filters.len() ==> labels.contains_key((#[trigger] filters[i]).0) && labels[
            filters[i].0] == filters[i].1
}

/// The label map recorded for `d`, or the empty map if none is.
pub open spec fn labels_or_empty(m: StoreView, d: Seq<char>) -> Map<Seq<char>, Seq<char>> {
    crate::labelstore::record_or_empty(m.labels, d)
}

/// The `Info` record that describes digest `d` in state `m`.
pub open spec fn info_view(m: StoreView, d: Seq<char>) -> InfoView {
    InfoView {
        digest: d,
        size: m.blobs[d].data.len() as u64,
        created_at: m.blobs[d].created_at,
        updated_at: m.blobs[d].updated_at,
        labels: labels_or_empty(m, d),
    }
}

/// The storage location of digest `d` under `root`.
pub open spec fn spec_blobpath(root: Seq<char>, d: Seq<char>) -> Seq<char> {
    root + "/blobs/"@ + d
}

/// The staging directory of ingest reference `r` under `root`.
pub open spec fn spec_ingest_root(root: Seq<char>, r: Seq<char>) -> Seq<char> {
    root + "/ingest/"@ + r
}

/// Appending to a common prefix is injective: distinct suffixes give
/// distinct strings. This is why `blobpath` never maps two digests to the
/// same location.
pub proof fn lemma_concat_injective(p: Seq<char>, a: Seq<char>, b: Seq<char>)
    requires
        a != b,
    ensures
        p + a != p + b,
{
    if a.len() == b.len() {
        if p + a == p + b {
            assert(a =~= b) by {
                assert(forall|i: int|
                    0 <= i < a.len() ==> a[i] == (p + a)[p.len() + i] && b[i] == (p + b)[p.len()
                        + i]);
            }
        }
    } else {
        assert((p + a).len() != (p + b).len());
    }
}

/// Distinct digests are stored at distinct locations.
pub proof fn lemma_blobpath_injective(root: Seq<char>, d1: Seq<char>, d2: Seq<char>)
    requires
        d1 != d2,
    ensures
        spec_blobpath(root, d1) != spec_blobpath(root, d2),
{
    lemma_concat_injective(root + "/blobs/"@, d1, d2);
}

/// The content-addressable blob store.
pub struct Store {
    root: String,
    labels: Labelstore,
    blobs: StrMap<Blob>,
    sessions: StrMap<Session>,
}

impl View for Store {
    type V = StoreView;

    closed spec fn view(&self) -> StoreView {
        StoreView {
            root: self.root@,
            blobs: self.blobs@,
            labels: self.labels.records(),
            sessions: self.sessions@,
        }
    }
}

impl Store {
    /// The store's internal invariant: the maps are well formed, every
    /// session's running hash mirrors its staged bytes, and every session is
    /// recorded under its own reference name.
    pub closed spec fn wf(self) -> bool {
        &&& self.blobs.wf()
        &&& self.sessions.wf()
        &&& self.labels.inv()
        &&& forall|i: int|
            0 <= i < self.sessions.spec_vals().len() ==> session_wf(
                #[trigger] self.sessions.spec_vals()[i],
            )
        &&& sessions_view_ok(self@.sessions)
    }

    /// An empty store rooted at `rt`.
    pub fn new(rt: String) -> (r: Store)
        ensures
            r.wf(),
            r@.root == rt@,
            r@.blobs == Map::<Seq<char>, BlobView>::empty(),
            r@.labels == Map::<Seq<char>, Map<Seq<char>, Seq<char>>>::empty(),
            r@.sessions == Map::<Seq<char>, SessionView>::empty(),
    {
        let root2 = rt.clone();
        Store {
            root: rt,
            labels: Labelstore::new(root2),
            blobs: StrMap::new(),
            sessions: StrMap::new(),
        }
    }

    /// The storage location of digest `dgst`: `<root>/blobs/<dgst>`.
    pub fn blobpath(&self, dgst: String) -> (r: String)
        ensures
            r@ == spec_blobpath(self@.root, dgst@),
    {
        let r = self.root.clone().concat("/blobs/").concat(dgst.as_str());
        proof {
            assert(r@ =~= spec_blobpath(self@.root, dgst@));
        }
        r
    }

    /// The staging directory of ingest reference `mref`:
    /// `<root>/ingest/<mref>`.
    pub fn ingest_root(&self, mref: String) -> (r: String)
        ensures
            r@ == spec_ingest_root(self@.root, mref@),
    {
        let r = self.root.clone().concat("/ingest/").concat(mref.as_str());
        proof {
            assert(r@ =~= spec_ingest_root(self@.root, mref@));
        }
        r
    }

    /// The staging directory of `mref` together with its `ref` and `data`
    /// file locations.
    pub fn ingest_paths(&self, mref: String) -> (r: (String, String, String))
        ensures
            r.0@ == spec_ingest_root(self@.root, mref@),
            r.1@ == spec_ingest_root(self@.root, mref@) + "/ref"@,
            r.2@ == spec_ingest_root(self@.root, mref@) + "/data"@,
    {
        let fp = self.ingest_root(mref);
        let rp = fp.clone().concat("/ref");
        let dp = fp.clone().concat("/data");
        (fp, rp, dp)
    }

    /// The committed record of `dgst`: its size, stamps and labels.
    /// `NotFound` exactly when no blob with that digest is committed.
    pub fn info(&self, dgst: String) -> (r: Result<Info, StoreError>)
        requires
            self.wf(),
        ensures
            match r {
                Ok(info) => self@.blobs.contains_key(dgst@) && info@ == info_view(self@, dgst@)
                    && info.labels.wf(),
                Err(e) => e == StoreError::NotFound && !self@.blobs.contains_key(dgst@),
            },
    {
        match self.blobs.get(&dgst) {
            None => Err(StoreError::NotFound),
            Some(b) => {
                let labels = match self.labels.get(dgst.clone()) {
                    Some(m) => m,
                    None => StrMap::new(),
                };
                Ok(
                    Info {
                        size: b.data.len() as u64,
                        created_at: b.created_at,
                        updated_at: b.updated_at,
                        labels,
                        digest: dgst,
                    },
                )
            },
        }
    }

    /// The bytes of the committed blob `dgst`. `NotFound` exactly when no
    /// blob with that digest is committed.
    pub fn read_at(&self, dgst: String) -> (r: Result<Vec<u8>, StoreError>)
        requires
            self.wf(),
        ensures
            match r {
                Ok(data) => self@.blobs.contains_key(dgst@) && data@ == self@.blobs[dgst@].data,
                Err(e) => e == StoreError::NotFound && !self@.blobs.contains_key(dgst@),
            },
    {
        match self.blobs.get(&dgst) {
            None => Err(StoreError::NotFound),
            Some(b) => Ok(clone_bytes(&b.data)),
        }
    }

    /// Removes the blob `dgst` and its label record together. `NotFound`
    /// exactly when no blob with that digest is committed; the second delete
    /// of a digest therefore reports `NotFound`.
    pub fn delete(&mut self, dgst: String) -> (r: Result<(), StoreError>)
        requires
            old(self).wf(),
        ensures
            final(self).wf(),
            final(self)@.root == old(self)@.root,
            final(self)@.sessions == old(self)@.sessions,
            match r {
                Ok(()) => old(self)@.blobs.contains_key(dgst@) && final(self)@.blobs == old(
                    self,
                )@.blobs.remove(dgst@) && final(self)@.labels == old(self)@.labels.remove(dgst@),
                Err(e) => e == StoreError::NotFound && !old(self)@.blobs.contains_key(dgst@)
                    && final(self)@ == old(self)@,
            },
    {
        let r = match self.blobs.remove(&dgst) {
            None => Err(StoreError::NotFound),
            Some(_) => {
                let _ = self.labels.remove(&dgst);
                Ok(())
            },
        };
        proof {
            assert(self.sessions == old(self).sessions);
        }
        r
    }
}

/// The views of a sequence of strings.
pub open spec fn str_views(s: Seq<String>) -> Seq<Seq<char>> {
    s.map_values(|x: String| x@)
}

/// The views of a sequence of filters.
pub open spec fn filter_views(s: Seq<LabelFilter>) -> Seq<(Seq<char>, Seq<char>)> {
    s.map_values(|f: LabelFilter| f@)
}

/// The field selector that replaces the whole label set.
pub open spec fn is_labels_token(x: Seq<char>) -> bool {
    x == "labels"@
}

/// A field selector of the form `labels.<key>`.
pub open spec fn is_key_selector(x: Seq<char>) -> bool {
    x.len() >= 7 && x.subrange(0, 7) == "labels."@
}

/// The `<key>` of a `labels.<key>` selector.
pub open spec fn selector_key(x: Seq<char>) -> Seq<char> {
    x.subrange(7, x.len() as int)
}

/// A selector is valid when it is `labels`, or `labels.<key>` for a key
/// that `labels` holds.
pub open spec fn valid_selector(x: Seq<char>, labels: Map<Seq<char>, Seq<char>>) -> bool {
    is_labels_token(x) || (is_key_selector(x) && labels.contains_key(selector_key(x)))
}

/// Whether every selector of `fps` is valid against `labels`.
pub open spec fn valid_selectors(fps: Seq<Seq<char>>, labels: Map<Seq<char>, Seq<char>>) -> bool {
    forall|i: int| 0 <= i < fps.len() ==> valid_selector(#[trigger] fps[i], labels)
}

/// Whether the selectors ask for the whole label set to be replaced: the
/// empty list does, and so does any `labels` token.
pub open spec fn replace_all_mode(fps: Seq<Seq<char>>) -> bool {
    fps.len() == 0 || exists|i: int| 0 <= i < fps.len() && is_labels_token(#[trigger] fps[i])
}

/// The partial label map that `labels.<key>` selectors pick out of `labels`.
pub open spec fn selected_labels(fps: Seq<Seq<char>>, labels: Map<Seq<char>, Seq<char>>) -> Map<
    Seq<char>,
    Seq<char>,
> {
    Map::new(
        |k: Seq<char>|
            labels.contains_key(k) && exists|i: int|
                0 <= i < fps.len() && is_key_selector(#[trigger] fps[i]) && selector_key(fps[i])
                    == k,
        |k: Seq<char>| labels[k],
    )
}

proof fn lemma_selected_extend(fps: Seq<Seq<char>>, labels: Map<Seq<char>, Seq<char>>, i: int)
    requires
        0 <= i < fps.len(),
        is_key_selector(fps[i]),
        labels.contains_key(selector_key(fps[i])),
    ensures
        selected_labels(fps.take(i + 1), labels) == selected_labels(fps.take(i), labels).insert(
            selector_key(fps[i]),
            labels[selector_key(fps[i])],
        ),
{
    let a = selected_labels(fps.take(i + 1), labels);
    let b = selected_labels(fps.take(i), labels).insert(
        selector_key(fps[i]),
        labels[selector_key(fps[i])],
    );
    assert forall|k: Seq<char>| a.contains_key(k) implies b.contains_key(k) by {
        let j = choose|j: int|
            0 <= j < fps.take(i + 1).len() && is_key_selector(#[trigger] fps.take(i + 1)[j])
                && selector_key(fps.take(i + 1)[j]) == k;
        if j < i {
            assert(fps.take(i)[j] == fps[j]);
        }
    }
    assert forall|k: Seq<char>| b.contains_key(k) implies a.contains_key(k) by {
        if k == selector_key(fps[i]) {
            assert(fps.take(i + 1)[i] == fps[i]);
        } else {
            let j = choose|j: int|
                0 <= j < fps.take(i).len() && is_key_selector(#[trigger] fps.take(i)[j])
                    && selector_key(fps.take(i)[j]) == k;
            assert(fps.take(i + 1)[j] == fps[j]);
        }
    }
    assert(a =~= b);
}

/// What `update` does to the store's state, and whether it succeeds: with a
/// valid selector list the target blob's stamp is refreshed and its label
/// record becomes either `info.labels` whole (replace-all mode) or the
/// merge of the selected keys into the existing record.
pub open spec fn update_model(m: StoreView, info: InfoView, fps: Seq<Seq<char>>, now: u64) -> (
    StoreView,
    Result<(), StoreError>,
) {
    if !m.blobs.contains_key(info.digest) {
        (m, Err(StoreError::NotFound))
    } else if !valid_selectors(fps, info.labels) {
        (m, Err(StoreError::InvalidArgument))
    } else {
        let newlabels = if replace_all_mode(fps) {
            info.labels
        } else {
            merge_labels(labels_or_empty(m, info.digest), selected_labels(fps, info.labels))
        };
        let b = m.blobs[info.digest];
        (
            StoreView {
                blobs: m.blobs.insert(info.digest, BlobView { updated_at: now, ..b }),
                labels: m.labels.insert(info.digest, newlabels),
                ..m
            },
            Ok(()),
        )
    }
}

/// A brand-new session for `mref`: nothing staged, both stamps at `now`.
pub open spec fn fresh_session(mref: Seq<char>, total: i64, expected: Seq<char>, now: u64) -> SessionView {
    SessionView {
        dref: mref,
        total: total,
        expected: expected,
        staged: Seq::empty(),
        start_at: now,
        update_at: now,
    }
}

/// Whether an existing session can be resumed with these parameters: each of
/// `total` and `expected` must match the recorded one, or one of the two
/// sides must not know it yet (`-1`, or the empty digest).
pub open spec fn compatible_session(s: SessionView, total: i64, expected: Seq<char>) -> bool {
    (s.total == total || s.total == -1 || total == -1) && (s.expected == expected
        || s.expected.len() == 0 || expected.len() == 0)
}

/// The resumed session: whichever side knows `total` or `expected` fills it
/// in; the recorded value wins when both know it.
pub open spec fn resumed_session(s: SessionView, total: i64, expected: Seq<char>) -> SessionView {
    SessionView {
        total: if s.total != -1 {
            s.total
        } else {
            total
        },
        expected: if s.expected.len() != 0 {
            s.expected
        } else {
            expected
        },
        ..s
    }
}

/// What `writer` does to the store's state, and what it returns.
pub open spec fn writer_model(
    m: StoreView,
    mref: Seq<char>,
    total: i64,
    expected: Seq<char>,
    now: u64,
) -> (StoreView, Result<SessionView, StoreError>) {
    if total < -1 {
        (m, Err(StoreError::InvalidArgument))
    } else if !m.sessions.contains_key(mref) {
        let s = fresh_session(mref, total, expected, now);
        (StoreView { sessions: m.sessions.insert(mref, s), ..m }, Ok(s))
    } else if compatible_session(m.sessions[mref], total, expected) {
        let s = resumed_session(m.sessions[mref], total, expected);
        (StoreView { sessions: m.sessions.insert(mref, s), ..m }, Ok(s))
    } else {
        (m, Err(StoreError::AlreadyExists))
    }
}

/// What `write` does to the store's state, and what it returns.
pub open spec fn write_model(
    m: StoreView,
    mref: Seq<char>,
    offset: i64,
    data: Seq<u8>,
    now: u64,
) -> (StoreView, Result<i64, StoreError>) {
    if !m.sessions.contains_key(mref) {
        (m, Err(StoreError::NotFound))
    } else {
        let s = m.sessions[mref];
        if offset as int != s.staged.len() as int {
            (m, Err(StoreError::OutOfOrder))
        } else if s.staged.len() + data.len() > MAX_HASH_INPUT {
            (m, Err(StoreError::InvalidArgument))
        } else {
            let s2 = SessionView { staged: s.staged + data, update_at: now, ..s };
            (
                StoreView { sessions: m.sessions.insert(mref, s2), ..m },
                Ok((s.staged.len() + data.len()) as i64),
            )
        }
    }
}

/// What `commit` does to the store's state, and whether it succeeds.
pub open spec fn commit_model(
    m: StoreView,
    mref: Seq<char>,
    expected: Seq<char>,
    now: u64,
) -> (StoreView, Result<(), StoreError>) {
    if !m.sessions.contains_key(mref) {
        (m, Err(StoreError::NotFound))
    } else {
        let s = m.sessions[mref];
        if s.total >= 0 && s.staged.len() as int != s.total as int {
            (m, Err(StoreError::SizeMismatch))
        } else if sha256_hex(s.staged) != expected {
            (m, Err(StoreError::DigestMismatch))
        } else if m.blobs.contains_key(expected) {
            (StoreView { sessions: m.sessions.remove(mref), ..m }, Ok(()))
        } else {
            (
                StoreView {
                    blobs: m.blobs.insert(
                        expected,
                        BlobView { data: s.staged, created_at: now, updated_at: now },
                    ),
                    sessions: m.sessions.remove(mref),
                    ..m
                },
                Ok(()),
            )
        }
    }
}

/// Whether a `Status` record reports exactly the state of session `s`.
pub open spec fn status_matches(st: Status, s: SessionView) -> bool {
    &&& st.dref@ == s.dref
    &&& st.offset as int == s.staged.len() as int
    &&& st.total == s.total
    &&& st.expected@ == s.expected
    &&& st.start_at == s.start_at
    &&& st.update_at == s.update_at
}

proof fn lemma_all_wf_insert(pre: Seq<Session>, post: Seq<Session>, s: Session)
    requires
        forall|i: int| 0 <= i < pre.len() ==> session_wf(#[trigger] pre[i]),
        session_wf(s),
        post == pre.push(s) || exists|i: int| 0 <= i < pre.len() && post == pre.update(i, s),
    ensures
        forall|i: int| 0 <= i < post.len() ==> session_wf(#[trigger] post[i]),
{
    if post == pre.push(s) {
    } else {
        let j = choose|j: int| 0 <= j < pre.len() && post == pre.update(j, s);
        assert(forall|i: int| 0 <= i < post.len() && i != j ==> post[i] == pre[i]);
    }
}

proof fn lemma_all_wf_remove(pre: Seq<Session>, post: Seq<Session>)
    requires
        forall|i: int| 0 <= i < pre.len() ==> session_wf(#[trigger] pre[i]),
        exists|i: int| 0 <= i < pre.len() && post == pre.remove(i),
    ensures
        forall|i: int| 0 <= i < post.len() ==> session_wf(#[trigger] post[i]),
{
    let j = choose|j: int| 0 <= j < pre.len() && post == pre.remove(j);
    assert forall|i: int| 0 <= i < post.len() implies session_wf(#[trigger] post[i]) by {
        if i < j {
            assert(post[i] == pre[i]);
        } else {
            assert(post[i] == pre[i + 1]);
        }
    }
}

/// Session facts at the view level: every session is keyed by its own
/// reference, fits the hash bound, and has a valid total.
pub open spec fn sessions_view_ok(sessions: Map<Seq<char>, SessionView>) -> bool {
    forall|k: Seq<char>|
        sessions.contains_key(k) ==> (#[trigger] sessions[k]).dref == k && sessions[k].staged.len()
            <= MAX_HASH_INPUT && sessions[k].total >= -1
}

proof fn lemma_view_ok_insert(
    pre: Map<Seq<char>, SessionView>,
    post: Map<Seq<char>, SessionView>,
    k: Seq<char>,
    s: SessionView,
)
    requires
        sessions_view_ok(pre),
        post == pre.insert(k, s),
        s.dref == k,
        s.staged.len() <= MAX_HASH_INPUT,
        s.total >= -1,
    ensures
        sessions_view_ok(post),
{
    assert forall|k2: Seq<char>| post.contains_key(k2) implies (#[trigger] post[k2]).dref == k2
        && post[k2].staged.len() <= MAX_HASH_INPUT && post[k2].total >= -1 by {
        if k2 != k {
            assert(post[k2] == pre[k2]);
        }
    }
}

proof fn lemma_view_ok_remove(
    pre: Map<Seq<char>, SessionView>,
    post: Map<Seq<char>, SessionView>,
    k: Seq<char>,
)
    requires
        sessions_view_ok(pre),
        post == pre.remove(k),
    ensures
        sessions_view_ok(post),
{
    assert forall|k2: Seq<char>| post.contains_key(k2) implies (#[trigger] post[k2]).dref == k2
        && post[k2].staged.len() <= MAX_HASH_INPUT && post[k2].total >= -1 by {
        assert(post[k2] == pre[k2]);
    }
}

/// Round trip: opening a session for a fresh reference with the right total
/// and digest, writing bytes `data` at offset 0 and committing succeeds,
/// and afterwards the blob for that digest holds exactly `data`, with its
/// recorded size equal to the byte count; the session is gone.
pub proof fn lemma_ingest_round_trip(
    m0: StoreView,
    mref: Seq<char>,
    data: Seq<u8>,
    d: Seq<char>,
    t1: u64,
    t2: u64,
    t3: u64,
)
    requires
        !m0.sessions.contains_key(mref),
        !m0.blobs.contains_key(d),
        data.len() <= MAX_HASH_INPUT,
        d == sha256_hex(data),
    ensures
        ({
            let (m1, r1) = writer_model(m0, mref, data.len() as i64, d, t1);
            let (m2, r2) = write_model(m1, mref, 0, data, t2);
            let (m3, r3) = commit_model(m2, mref, d, t3);
            &&& r1 is Ok
            &&& r2 == Ok::<i64, StoreError>(data.len() as i64)
            &&& r3 == Ok::<(), StoreError>(())
            &&& m3.blobs.contains_key(d)
            &&& m3.blobs[d].data == data
            &&& info_view(m3, d).size == data.len() as u64
            &&& !m3.sessions.contains_key(mref)
        }),
{
    let (m1, r1) = writer_model(m0, mref, data.len() as i64, d, t1);
    let s1 = m1.sessions[mref];
    assert(s1.staged =~= Seq::<u8>::empty());
    let (m2, r2) = write_model(m1, mref, 0, data, t2);
    let s2 = m2.sessions[mref];
    assert(s2.staged =~= data);
}

/// Deduplication: two sessions that staged the same bytes can both commit
/// with the digest of those bytes; afterwards exactly one blob for that
/// digest exists, and no blob for any other digest appeared.
pub proof fn lemma_commit_dedup(
    m0: StoreView,
    r1: Seq<char>,
    r2: Seq<char>,
    data: Seq<u8>,
    d: Seq<char>,
    t1: u64,
    t2: u64,
)
    requires
        r1 != r2,
        m0.sessions.contains_key(r1),
        m0.sessions.contains_key(r2),
        m0.sessions[r1].staged == data,
        m0.sessions[r2].staged == data,
        m0.sessions[r1].total == -1 || m0.sessions[r1].total == data.len() as i64,
        m0.sessions[r2].total == -1 || m0.sessions[r2].total == data.len() as i64,
        data.len() <= MAX_HASH_INPUT,
        d == sha256_hex(data),
    ensures
        ({
            let (m1, c1) = commit_model(m0, r1, d, t1);
            let (m2, c2) = commit_model(m1, r2, d, t2);
            &&& c1 is Ok
            &&& c2 is Ok
            &&& m2.blobs.contains_key(d)
            &&& m2.blobs.dom() == m0.blobs.dom().insert(d)
        }),
{
    let (m1, c1) = commit_model(m0, r1, d, t1);
    let (m2, c2) = commit_model(m1, r2, d, t2);
    assert(m1.sessions[r2] == m0.sessions[r2]);
    assert(m1.blobs.contains_key(d));
    assert(m2.blobs.dom() =~= m0.blobs.dom().insert(d));
}

/// Writes to one reference serialize: after a write of at least one byte at
/// the session's offset, a second write at that same offset fails
/// `OutOfOrder` and changes nothing — of two racing writers with the same
/// starting offset, only one can advance the session.
pub proof fn lemma_write_serializes(
    m0: StoreView,
    mref: Seq<char>,
    offset: i64,
    d1: Seq<u8>,
    d2: Seq<u8>,
    t1: u64,
    t2: u64,
)
    requires
        d1.len() > 0,
        write_model(m0, mref, offset, d1, t1).1 is Ok,
    ensures
        ({
            let m1 = write_model(m0, mref, offset, d1, t1).0;
            &&& write_model(m1, mref, offset, d2, t2).1 == Err::<i64, StoreError>(
                StoreError::OutOfOrder,
            )
            &&& write_model(m1, mref, offset, d2, t2).0 == m1
        }),
{
}

/// A commit that fails — for a missing session, a size mismatch or a digest
/// mismatch — changes nothing: the session is still there, with the same
/// staged bytes, and can still be inspected or resumed.
pub proof fn lemma_failed_commit_keeps_session(
    m: StoreView,
    mref: Seq<char>,
    expected: Seq<char>,
    now: u64,
)
    requires
        m.sessions.contains_key(mref),
        commit_model(m, mref, expected, now).1 is Err,
    ensures
        commit_model(m, mref, expected, now).0 == m,
        commit_model(m, mref, expected, now).0.sessions[mref] == m.sessions[mref],
{
}

/// Whether `labels` satisfies every filter in `filters`.
fn passes(labels: &LabelMap, filters: &Vec<LabelFilter>) -> (r: bool)
    requires
        labels.wf(),
    ensures
        r == passes_filters(labels@, filter_views(filters@)),
{
    let n = filters.len();
    for j in 0..n
        invariant
            labels.wf(),
            n == filters@.len(),
            passes_filters(labels@, filter_views(filters@).take(j as int)),
    {
        let ok = match labels.get(&filters[j].key) {
            Some(v) => *v == filters[j].value,
            None => false,
        };
        if !ok {
            proof {
                assert(filter_views(filters@)[j as int] == filters@[j as int]@);
            }
            return false;
        }
        proof {
            assert(forall|t: int|
                0 <= t < j + 1 ==> filter_views(filters@).take(j + 1)[t] == filter_views(
                    filters@,
                )[t]);
        }
    }
    proof {
        assert(filter_views(filters@).take(n as int) =~= filter_views(filters@));
    }
    true
}

/// An independent copy of a byte vector.
fn clone_bytes(v: &Vec<u8>) -> (r: Vec<u8>)
    ensures
        r@ == v@,
{
    let r = v.clone();
    proof {
        assert(r@ =~= v@);
    }
    r
}

impl Store {
    /// Opens or resumes the ingest session named `mref`. A fresh reference
    /// gets an empty session stamped `now`; an existing one is resumed if
    /// `total` and `expected` are compatible with what it recorded, and
    /// `AlreadyExists` is reported otherwise. A `total` below `-1` is
    /// `InvalidArgument`.
    pub fn writer(&mut self, mref: String, total: i64, expected: String, now: u64) -> (r: Result<
        Status,
        StoreError,
    >)
        requires
            old(self).wf(),
        ensures
            final(self).wf(),
            final(self)@ == writer_model(old(self)@, mref@, total, expected@, now).0,
            match r {
                Ok(st) => writer_model(old(self)@, mref@, total, expected@, now).1 matches Ok(s)
                    && status_matches(st, writer_model(old(self)@, mref@, total, expected@, now).1
                    ->Ok_0),
                Err(e) => writer_model(old(self)@, mref@, total, expected@, now).1 == Err::<
                    SessionView,
                    StoreError,
                >(e),
            },
    {
        if total < -1 {
            return Err(StoreError::InvalidArgument);
        }
        if !self.sessions.contains_key(&mref) {
            let dref2 = mref.clone();
            let expected2 = expected.clone();
            let s = Session {
                dref: dref2,
                total: total,
                expected: expected,
                staged: Vec::new(),
                hasher: DigestComputer::new(),
                start_at: now,
                update_at: now,
            };
            let st = Status {
                dref: mref.clone(),
                offset: 0,
                total: total,
                expected: expected2,
                start_at: now,
                update_at: now,
            };
            proof {
                lemma_view_ok_insert(
                    old(self)@.sessions,
                    old(self)@.sessions.insert(mref@, s@),
                    mref@,
                    s@,
                );
            }
            self.sessions.insert(mref, s);
            proof {
                lemma_all_wf_insert(old(self).sessions.spec_vals(), self.sessions.spec_vals(), s);
            }
            Ok(st)
        } else {
            let mut s = match self.sessions.remove(&mref) {
                Some(s) => s,
                None => {
                    return Err(StoreError::NotFound);
                },
            };
            let ghost s0 = s;
            let compat_total = s.total == total || s.total == -1 || total == -1;
            let compat_expected = s.expected == expected || s.expected.as_str().is_empty()
                || expected.as_str().is_empty();
            if !(compat_total && compat_expected) {
                let ghost midv = self.sessions.spec_vals();
                proof {
                    lemma_all_wf_remove(old(self).sessions.spec_vals(), midv);
                    lemma_view_ok_insert(
                        self@.sessions,
                        self@.sessions.insert(mref@, s@),
                        mref@,
                        s@,
                    );
                }
                self.sessions.insert(mref, s);
                proof {
                    lemma_all_wf_insert(midv, self.sessions.spec_vals(), s0);
                    assert(self@.sessions =~= old(self)@.sessions);
                }
                return Err(StoreError::AlreadyExists);
            }
            if s.total == -1 {
                s.total = total;
            }
            if s.expected.as_str().is_empty() {
                s.expected = expected;
            }
            let st = Status {
                dref: s.dref.clone(),
                offset: s.staged.len() as i64,
                total: s.total,
                expected: s.expected.clone(),
                start_at: s.start_at,
                update_at: s.update_at,
            };
            let ghost s1 = s;
            let ghost midv = self.sessions.spec_vals();
            proof {
                lemma_all_wf_remove(old(self).sessions.spec_vals(), midv);
                lemma_view_ok_insert(self@.sessions, self@.sessions.insert(mref@, s@), mref@, s@);
            }
            self.sessions.insert(mref, s);
            proof {
                lemma_all_wf_insert(midv, self.sessions.spec_vals(), s1);
                assert(self@.sessions =~= writer_model(
                    old(self)@,
                    mref@,
                    total,
                    expected@,
                    now,
                ).0.sessions);
            }
            Ok(st)
        }
    }

    /// Appends `data` to session `mref`'s staged bytes, provided `offset` is
    /// exactly the session's current offset; returns the new offset. On
    /// `OutOfOrder` (or any other failure) nothing changes, the offset
    /// included. An append that would push the staged bytes past the hash
    /// bound is `InvalidArgument`.
    pub fn write(&mut self, mref: String, offset: i64, data: &[u8], now: u64) -> (r: Result<
        i64,
        StoreError,
    >)
        requires
            old(self).wf(),
        ensures
            final(self).wf(),
            final(self)@ == write_model(old(self)@, mref@, offset, data@, now).0,
            r == write_model(old(self)@, mref@, offset, data@, now).1,
    {
        if !self.sessions.contains_key(&mref) {
            return Err(StoreError::NotFound);
        }
        let mut s = match self.sessions.remove(&mref) {
            Some(s) => s,
            None => {
                return Err(StoreError::NotFound);
            },
        };
        let ghost s0 = s;
        let cur = s.staged.len();
        if offset < 0 || (offset as u64) != (cur as u64) || (data.len() as u64) > MAX_HASH_INPUT
            - (cur as u64) {
            let failure = if offset < 0 || (offset as u64) != (cur as u64) {
                StoreError::OutOfOrder
            } else {
                StoreError::InvalidArgument
            };
            let ghost midv = self.sessions.spec_vals();
            proof {
                lemma_all_wf_remove(old(self).sessions.spec_vals(), midv);
                lemma_view_ok_insert(self@.sessions, self@.sessions.insert(mref@, s@), mref@, s@);
            }
            self.sessions.insert(mref, s);
            proof {
                lemma_all_wf_insert(midv, self.sessions.spec_vals(), s0);
                assert(self@.sessions =~= old(self)@.sessions);
            }
            return Err(failure);
        }
        s.staged.extend_from_slice(data);
        proof {
            assert(s.staged@ =~= s0.staged@ + data@);
        }
        s.hasher.update(data);
        s.update_at = now;
        let newlen = s.staged.len();
        let ghost s1 = s;
        let ghost midv = self.sessions.spec_vals();
        proof {
            lemma_all_wf_remove(old(self).sessions.spec_vals(), midv);
            lemma_view_ok_insert(self@.sessions, self@.sessions.insert(mref@, s@), mref@, s@);
        }
        self.sessions.insert(mref, s);
        proof {
            lemma_all_wf_insert(midv, self.sessions.spec_vals(), s1);
            assert(self@.sessions =~= write_model(old(self)@, mref@, offset, data@, now).0.sessions);
        }
        Ok(newlen as i64)
    }

    /// The status of session `mref`: its reference, offset, announced total
    /// and expected digest, and both stamps. `NotFound` exactly when no
    /// session holds that reference.
    pub fn status(&self, mref: String) -> (r: Result<Status, StoreError>)
        requires
            self.wf(),
        ensures
            match r {
                Ok(st) => self@.sessions.contains_key(mref@) && status_matches(
                    st,
                    self@.sessions[mref@],
                ),
                Err(e) => e == StoreError::NotFound && !self@.sessions.contains_key(mref@),
            },
    {
        match self.sessions.get(&mref) {
            None => Err(StoreError::NotFound),
            Some(s) => Ok(
                Status {
                    dref: s.dref.clone(),
                    offset: s.staged.len() as i64,
                    total: s.total,
                    expected: s.expected.clone(),
                    start_at: s.start_at,
                    update_at: s.update_at,
                },
            ),
        }
    }

    /// Verifies and publishes session `mref`: the staged size must match the
    /// announced total and the staged bytes must hash to `expected`. On
    /// success the staged bytes become the committed blob for `expected`
    /// (or are discarded if that blob already exists) and the session is
    /// gone; the record of the committed blob is returned. On a mismatch
    /// nothing changes, so the session stays queryable.
    pub fn commit(&mut self, mref: String, expected: String, now: u64) -> (r: Result<
        Info,
        StoreError,
    >)
        requires
            old(self).wf(),
        ensures
            final(self).wf(),
            final(self)@ == commit_model(old(self)@, mref@, expected@, now).0,
            match r {
                Ok(info) => commit_model(old(self)@, mref@, expected@, now).1 is Ok && info@
                    == info_view(final(self)@, expected@) && info.labels.wf(),
                Err(e) => commit_model(old(self)@, mref@, expected@, now).1 == Err::<
                    (),
                    StoreError,
                >(e),
            },
    {
        match self.sessions.get(&mref) {
            None => {
                return Err(StoreError::NotFound);
            },
            Some(s) => {
                if s.total >= 0 && (s.staged.len() as u64) != (s.total as u64) {
                    return Err(StoreError::SizeMismatch);
                }
                let d = s.hasher.digest_hex();
                if d != expected {
                    return Err(StoreError::DigestMismatch);
                }
            },
        }
        let s = match self.sessions.remove(&mref) {
            Some(s) => s,
            None => {
                return Err(StoreError::NotFound);
            },
        };
        proof {
            lemma_all_wf_remove(old(self).sessions.spec_vals(), self.sessions.spec_vals());
            lemma_view_ok_remove(old(self)@.sessions, self@.sessions, mref@);
        }
        if !self.blobs.contains_key(&expected) {
            self.blobs.insert(
                expected.clone(),
                Blob { data: s.staged, created_at: now, updated_at: now },
            );
        }
        proof {
            assert(self@.sessions == old(self)@.sessions.remove(mref@));
            assert(self@.blobs =~= commit_model(old(self)@, mref@, expected@, now).0.blobs);
        }
        match self.info(expected) {
            Ok(info) => Ok(info),
            Err(e) => {
                proof {
                    assert(false);
                }
                Err(e)
            },
        }
    }

    /// Applies the field selectors to the blob described by `info`: the
    /// whole label set is replaced by `info.labels` when `fieldpaths` is
    /// empty or holds `labels`, and a `labels.<key>` selector merges that
    /// one key in (an empty value deletes it). Every selector is validated
    /// before anything changes; on success the blob's `updated_at` stamp is
    /// refreshed and the fresh record is returned.
    #[verifier::loop_isolation(false)]
    pub fn update(&mut self, info: Info, fieldpaths: Vec<String>, now: u64) -> (r: Result<
        Info,
        StoreError,
    >)
        requires
            old(self).wf(),
            info.labels.wf(),
        ensures
            final(self).wf(),
            final(self)@ == update_model(old(self)@, info@, str_views(fieldpaths@), now).0,
            match r {
                Ok(fresh) => update_model(old(self)@, info@, str_views(fieldpaths@), now).1 is Ok
                    && fresh@ == info_view(final(self)@, info@.digest) && fresh.labels.wf(),
                Err(e) => update_model(old(self)@, info@, str_views(fieldpaths@), now).1 == Err::<
                    (),
                    StoreError,
                >(e),
            },
    {
        let ghost fps = str_views(fieldpaths@);
        if !self.blobs.contains_key(&info.digest) {
            return Err(StoreError::NotFound);
        }
        let labels_token = String::from_str("labels");
        let prefix_token = String::from_str("labels.");
        let n = fieldpaths.len();
        let mut all_mode = n == 0;
        for i in 0..n
            invariant
                n == fieldpaths@.len(),
                fps == str_views(fieldpaths@),
                labels_token@ == "labels"@,
                prefix_token@ == "labels."@,
                info.labels.wf(),
                forall|j: int| 0 <= j < i ==> valid_selector(#[trigger] fps[j], info@.labels),
                all_mode == (n == 0 || exists|j: int|
                    0 <= j < i && is_labels_token(#[trigger] fps[j])),
        {
            let x = &fieldpaths[i];
            proof {
                assert(fps[i as int] == fieldpaths@[i as int]@);
            }
            if *x == labels_token {
                proof {
                    assert(is_labels_token(fps[i as int]));
                }
                all_mode = true;
            } else {
                let xl = x.as_str().unicode_len();
                if xl < 7 {
                    return Err(StoreError::InvalidArgument);
                }
                let pre = x.as_str().substring_char(0, 7).to_owned();
                if !(pre == prefix_token) {
                    return Err(StoreError::InvalidArgument);
                }
                let key = x.as_str().substring_char(7, xl).to_owned();
                if !info.labels.contains_key(&key) {
                    return Err(StoreError::InvalidArgument);
                }
            }
        }
        if all_mode {
            let newlabels = info.labels.duplicate();
            let _ = self.labels.set(info.digest.clone(), newlabels);
        } else {
            let mut partial: LabelMap = StrMap::new();
            proof {
                assert(selected_labels(fps.take(0), info@.labels) =~= Map::<
                    Seq<char>,
                    Seq<char>,
                >::empty());
            }
            for i in 0..n
                invariant
                    n == fieldpaths@.len(),
                    fps == str_views(fieldpaths@),
                    info.labels.wf(),
                    partial.wf(),
                    partial@ == selected_labels(fps.take(i as int), info@.labels),
                    forall|j: int| 0 <= j < n ==> valid_selector(#[trigger] fps[j], info@.labels),
                    forall|j: int| 0 <= j < n ==> !is_labels_token(#[trigger] fps[j]),
            {
                let x = &fieldpaths[i];
                proof {
                    assert(fps[i as int] == fieldpaths@[i as int]@);
                    assert(valid_selector(fps[i as int], info@.labels));
                    assert(is_key_selector(fps[i as int]));
                }
                let xl = x.as_str().unicode_len();
                let key = x.as_str().substring_char(7, xl).to_owned();
                let v = match info.labels.get(&key) {
                    Some(v) => v.clone(),
                    None => {
                        proof {
                            assert(false);
                        }
                        String::new()
                    },
                };
                partial.insert(key, v);
                proof {
                    lemma_selected_extend(fps, info@.labels, i as int);
                }
            }
            proof {
                assert(fps.take(n as int) =~= fps);
            }
            let _ = self.labels.merge(info.digest.clone(), partial);
        }
        let b = match self.blobs.remove(&info.digest) {
            Some(b) => b,
            None => {
                proof {
                    assert(false);
                }
                return Err(StoreError::NotFound);
            },
        };
        let b2 = Blob { data: b.data, created_at: b.created_at, updated_at: now };
        self.blobs.insert(info.digest.clone(), b2);
        proof {
            assert(self.sessions == old(self).sessions);
            assert(self@.blobs =~= update_model(old(self)@, info@, fps, now).0.blobs);
            assert(self@.labels =~= update_model(old(self)@, info@, fps, now).0.labels);
        }
        let digest = info.digest;
        match self.info(digest) {
            Ok(fresh) => Ok(fresh),
            Err(e) => {
                proof {
                    assert(false);
                }
                Err(e)
            },
        }
    }

    /// Enumerates every committed blob whose labels satisfy all of
    /// `filters`, reconstructing each record from the store's state: the
    /// result holds exactly those blobs, each once. Sessions, committed or
    /// aborted, are never visited.
    #[verifier::loop_isolation(false)]
    #[verifier::rlimit(60)]
    pub fn walk(&self, filters: &Vec<LabelFilter>) -> (r: Vec<Info>)
        requires
            self.wf(),
        ensures
            forall|j: int|
                0 <= j < r@.len() ==> self@.blobs.contains_key((#[trigger] r@[j])@.digest)
                    && r@[j]@ == info_view(self@, r@[j]@.digest) && r@[j].labels.wf()
                    && passes_filters(
                    labels_or_empty(self@, r@[j]@.digest),
                    filter_views(filters@),
                ),
            forall|d: Seq<char>|
                self@.blobs.contains_key(d) && passes_filters(
                    labels_or_empty(self@, d),
                    filter_views(filters@),
                ) ==> exists|j: int| 0 <= j < r@.len() && r@[j]@.digest == d,
            forall|j1: int, j2: int|
                0 <= j1 < j2 < r@.len() ==> r@[j1]@.digest != r@[j2]@.digest,
    {
        let mut out: Vec<Info> = Vec::new();
        let n = self.blobs.len();
        for i in 0..n
            invariant
                self.wf(),
                n == self.blobs.key_views().len(),
                forall|j: int|
                    0 <= j < out@.len() ==> self@.blobs.contains_key((#[trigger] out@[j])@.digest)
                        && out@[j]@ == info_view(self@, out@[j]@.digest) && out@[j].labels.wf()
                        && passes_filters(
                        labels_or_empty(self@, out@[j]@.digest),
                        filter_views(filters@),
                    ),
                forall|t: int|
                    0 <= t < i && passes_filters(
                        labels_or_empty(self@, #[trigger] self.blobs.key_views()[t]),
                        filter_views(filters@),
                    ) ==> exists|j: int|
                        0 <= j < out@.len() && out@[j]@.digest == self.blobs.key_views()[t],
                forall|j: int|
                    0 <= j < out@.len() ==> exists|t: int|
                        0 <= t < i && (#[trigger] out@[j])@.digest == self.blobs.key_views()[t],
                forall|j1: int, j2: int|
                    0 <= j1 < j2 < out@.len() ==> out@[j1]@.digest != out@[j2]@.digest,
        {
            let (k, b) = self.blobs.get_pair(i);
            let labels = match self.labels.get(k.clone()) {
                Some(m) => m,
                None => StrMap::new(),
            };
            proof {
                assert(labels@ == labels_or_empty(self@, self.blobs.key_views()[i as int]));
            }
            if passes(&labels, filters) {
                let inf = Info {
                    digest: k.clone(),
                    size: b.data.len() as u64,
                    created_at: b.created_at,
                    updated_at: b.updated_at,
                    labels,
                };
                proof {
                    self.blobs.lemma_key_views();
                    assert forall|j: int| 0 <= j < out@.len() implies out@[j]@.digest != inf@.digest by {
                        let t = choose|t: int|
                            0 <= t < i && out@[j]@.digest == self.blobs.key_views()[t];
                        assert(self.blobs.key_views()[t] != self.blobs.key_views()[i as int]);
                    }
                }
                let ghost out0 = out@;
                out.push(inf);
                proof {
                    assert(out@.last()@.digest == self.blobs.key_views()[i as int]);
                    assert(forall|j: int| 0 <= j < out0.len() ==> out@[j] == out0[j]);
                    assert forall|t: int|
                        0 <= t < i + 1 && passes_filters(
                            labels_or_empty(self@, #[trigger] self.blobs.key_views()[t]),
                            filter_views(filters@),
                        ) implies exists|j: int|
                        0 <= j < out@.len() && out@[j]@.digest == self.blobs.key_views()[t] by {
                        if t < i {
                            let j = choose|j: int|
                                0 <= j < out0.len() && out0[j]@.digest == self.blobs.key_views()[t];
                            assert(out@[j]@.digest == self.blobs.key_views()[t]);
                        } else {
                            assert(out@[out@.len() - 1]@.digest == self.blobs.key_views()[i as int]);
                        }
                    }
                }
            } else {
                proof {
                    assert(!passes_filters(
                        labels_or_empty(self@, self.blobs.key_views()[i as int]),
                        filter_views(filters@),
                    ));
                }
            }
        }
        proof {
            self.blobs.lemma_key_views();
        }
        out
    }

    /// Discards session `mref` and everything it staged. `NotFound` exactly
    /// when no session holds that reference.
    pub fn abort(&mut self, mref: String) -> (r: Result<(), StoreError>)
        requires
            old(self).wf(),
        ensures
            final(self).wf(),
            match r {
                Ok(()) => old(self)@.sessions.contains_key(mref@) && final(self)@ == (StoreView {
                    sessions: old(self)@.sessions.remove(mref@),
                    ..old(self)@
                }),
                Err(e) => e == StoreError::NotFound && !old(self)@.sessions.contains_key(mref@)
                    && final(self)@ == old(self)@,
            },
    {
        match self.sessions.remove(&mref) {
            None => Err(StoreError::NotFound),
            Some(_) => {
                proof {
                    lemma_all_wf_remove(old(self).sessions.spec_vals(), self.sessions.spec_vals());
                    lemma_view_ok_remove(old(self)@.sessions, self@.sessions, mref@);
                }
                Ok(())
            },
        }
    }
}

} // verus!
