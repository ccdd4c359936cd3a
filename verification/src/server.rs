//! The decisions behind the HTTP API: the registry of named collections,
//! how each request changes it, and which status each outcome gets.
//!
//! Collections are kept under their names; a name is compared by its UTF-8
//! bytes, and listings are sorted by those bytes (the order of `str`).

use vstd::prelude::*;
use crate::distance::Distance;
use crate::error::VexError;
use crate::index::any::AnyIndex;
use crate::index::flat::{insert_many_stopped, stopped_at, vector_views, FlatIndex};
use crate::index::hnsw::{HnswIndex, HnswParams};
use crate::index::total_metric;

verus! {

/// Which index a new collection uses.
#[derive(Debug, Clone, Copy, PartialEq, Eq, Structural)]
pub enum IndexKind {
    /// Exact brute-force search.
    Flat,
    /// HNSW graph search.
    Hnsw,
}

/// The metric of a collection created without one.
pub fn default_metric() -> (d: Distance)
    ensures
        d == Distance::Cosine,
{
    Distance::Cosine
}

/// The index of a collection created without one.
pub fn default_index_kind() -> (k: IndexKind)
    ensures
        k == IndexKind::Flat,
{
    IndexKind::Flat
}

/// The number of neighbors of a search request that names none.
pub fn default_k() -> (k: usize)
    ensures
        k == 10,
{
    10
}

/// Why a request was refused.
#[derive(Debug, Clone, PartialEq, Eq)]
pub enum ApiError {
    /// A collection with this name already exists.
    Conflict(String),
    /// No collection has this name.
    NotFound(String),
    /// The index refused the vectors or the query.
    BadRequest(VexError),
}

impl ApiError {
    /// The HTTP status code of the refusal.
    pub fn status(&self) -> (code: u16)
        ensures
            code == match self {
                ApiError::Conflict(_) => 409u16,
                ApiError::NotFound(_) => 404u16,
                ApiError::BadRequest(_) => 400u16,
            },
    {
        match self {
            ApiError::Conflict(_) => 409,
            ApiError::NotFound(_) => 404,
            ApiError::BadRequest(_) => 400,
        }
    }
}

/// What a listing reports of one collection.
#[derive(Debug, Clone, PartialEq, Eq)]
pub struct CollectionInfo {
    /// The collection's name.
    pub name: String,
    /// Dimensionality of its vectors.
    pub dim: usize,
    /// Number of vectors stored.
    pub size: usize,
}

/// The bytes by which a name is compared: its UTF-8 encoding.
pub open spec fn name_key(s: Seq<char>) -> Seq<u8> {
    vstd::utf8::encode_utf8(s)
}

/// Lexicographic `<` on byte strings: the order of `str`.
pub open spec fn bytes_lt(a: Seq<u8>, b: Seq<u8>) -> bool
    decreases a.len(),
{
    if a.len() == 0 {
        b.len() > 0
    } else if b.len() == 0 {
        false
    } else if a[0] != b[0] {
        a[0] < b[0]
    } else {
        bytes_lt(a.drop_first(), b.drop_first())
    }
}

/// No byte string is below itself.
pub proof fn lemma_bytes_lt_irreflexive(a: Seq<u8>)
    ensures
        !bytes_lt(a, a),
    decreases a.len(),
{
    if a.len() > 0 {
        lemma_bytes_lt_irreflexive(a.drop_first());
    }
}

/// `bytes_lt` is transitive.
pub proof fn lemma_bytes_lt_transitive(a: Seq<u8>, b: Seq<u8>, c: Seq<u8>)
    requires
        bytes_lt(a, b),
        bytes_lt(b, c),
    ensures
        bytes_lt(a, c),
    decreases a.len(),
{
    if a.len() > 0 && b.len() > 0 && c.len() > 0 && a[0] == b[0] && b[0] == c[0] {
        lemma_bytes_lt_transitive(a.drop_first(), b.drop_first(), c.drop_first());
    }
}

/// Two different byte strings are ordered one way or the other.
pub proof fn lemma_bytes_lt_total(a: Seq<u8>, b: Seq<u8>)
    ensures
        a == b || bytes_lt(a, b) || bytes_lt(b, a),
    decreases a.len(),
{
    if a.len() > 0 && b.len() > 0 {
        lemma_bytes_lt_total(a.drop_first(), b.drop_first());
        if a[0] == b[0] && a.drop_first() == b.drop_first() {
            assert(a =~= seq![a[0]] + a.drop_first());
            assert(b =~= seq![b[0]] + b.drop_first());
        }
    } else if a.len() == 0 && b.len() == 0 {
        assert(a =~= b);
    }
}

/// Where two byte strings first differ, the smaller byte decides: when
/// they agree on their first `i` bytes and differ at position `i`, `a` is
/// below `b` exactly when its byte there is the smaller, as unsigned bytes.
pub proof fn lemma_bytes_lt_first_difference(a: Seq<u8>, b: Seq<u8>, i: int)
    requires
        0 <= i < a.len(),
        i < b.len(),
        forall|j: int| 0 <= j < i ==> #[trigger] a[j] == b[j],
        a[i] != b[i],
    ensures
        bytes_lt(a, b) == (a[i] < b[i]),
    decreases i,
{
    if i > 0 {
        assert(a[0] == b[0]);
        let a1 = a.drop_first();
        let b1 = b.drop_first();
        assert forall|j: int| 0 <= j < i - 1 implies #[trigger] a1[j] == b1[j] by {
            assert(a[j + 1] == b[j + 1]);
        }
        lemma_bytes_lt_first_difference(a1, b1, i - 1);
    }
}

/// A proper prefix is below the longer string, and not the other way round.
pub proof fn lemma_bytes_lt_prefix(a: Seq<u8>, b: Seq<u8>)
    requires
        a.len() < b.len(),
        forall|j: int| 0 <= j < a.len() ==> #[trigger] a[j] == b[j],
    ensures
        bytes_lt(a, b),
        !bytes_lt(b, a),
    decreases a.len(),
{
    if a.len() > 0 {
        assert(a[0] == b[0]);
        let a1 = a.drop_first();
        let b1 = b.drop_first();
        assert forall|j: int| 0 <= j < a1.len() implies #[trigger] a1[j] == b1[j] by {
            assert(a[j + 1] == b[j + 1]);
        }
        lemma_bytes_lt_prefix(a1, b1);
    }
}

/// Lexicographic `<` on two byte strings.
pub fn bytes_less(a: &[u8], b: &[u8]) -> (r: bool)
    ensures
        r == bytes_lt(a@, b@),
{
    let mut i: usize = 0;
    let la = a.len();
    let lb = b.len();
    assert(a@.subrange(0, la as int) =~= a@);
    assert(b@.subrange(0, lb as int) =~= b@);
    while i < la && i < lb && a[i] == b[i]
        invariant
            i <= la,
            i <= lb,
            la == a@.len(),
            lb == b@.len(),
            bytes_lt(a@, b@) == bytes_lt(a@.subrange(i as int, la as int), b@.subrange(i as int, lb as int)),
        decreases la - i,
    {
        proof {
            let sa = a@.subrange(i as int, la as int);
            let sb = b@.subrange(i as int, lb as int);
            assert(sa.drop_first() =~= a@.subrange(i + 1, la as int));
            assert(sb.drop_first() =~= b@.subrange(i + 1, lb as int));
        }
        i = i + 1;
    }
    if i < la && i < lb {
        a[i] < b[i]
    } else {
        i >= la && i < lb
    }
}

/// Equality of two byte strings.
pub fn bytes_equal(a: &[u8], b: &[u8]) -> (r: bool)
    ensures
        r == (a@ == b@),
{
    if a.len() != b.len() {
        return false;
    }
    let mut i: usize = 0;
    while i < a.len()
        invariant
            i <= a@.len(),
            a@.len() == b@.len(),
            forall|j: int| 0 <= j < i ==> a@[j] == b@[j],
        decreases a@.len() - i,
    {
        if a[i] != b[i] {
            return false;
        }
        i = i + 1;
    }
    assert(a@ =~= b@);
    true
}

/// The bytes of a name, as its `str` gives them.
fn key_bytes(s: &String) -> (b: &[u8])
    ensures
        b@ == name_key(s@),
{
    s.as_str().as_bytes()
}

/// Named collections. No two collections have the same name.
///
/// The registry is a list of (name, collection) pairs, searched by the
/// bytes of the name, rather than a hash map: with `String` keys, a hash map
/// gives no proof what a lookup after an insertion returns, and the laws of
/// the registry (a created name is taken, a put value is found) rest on it.
pub struct Collections<V> {
    entries: Vec<(String, V)>,
}

impl<V> Collections<V> {
    /// The names, in storage order.
    pub closed spec fn names(&self) -> Seq<Seq<char>> {
        self.entries@.map_values(|e: (String, V)| e.0@)
    }

    /// The collections, in the order of [`Collections::names`].
    pub closed spec fn values(&self) -> Seq<V> {
        self.entries@.map_values(|e: (String, V)| e.1)
    }

    /// No two names have the same bytes.
    pub closed spec fn wf(&self) -> bool {
        forall|i: int, j: int|
            0 <= i < j < self.names().len() ==> name_key(#[trigger] self.names()[i]) != name_key(
                #[trigger] self.names()[j],
            )
    }

    /// Some collection is called `name`.
    pub open spec fn has(&self, name: Seq<char>) -> bool {
        exists|i: int| 0 <= i < self.names().len() && name_key(#[trigger] self.names()[i]) == name_key(name)
    }

    /// An empty registry.
    pub fn new() -> (r: Self)
        ensures
            r.wf(),
            r.names() == Seq::<Seq<char>>::empty(),
            r.values() == Seq::<V>::empty(),
    {
        let r = Collections { entries: Vec::new() };
        assert(r.names() =~= Seq::<Seq<char>>::empty());
        assert(r.values() =~= Seq::<V>::empty());
        r
    }

    /// Number of collections.
    pub fn len(&self) -> (n: usize)
        ensures
            n == self.names().len(),
    {
        self.entries.len()
    }

    /// Position of the collection called `name`, if there is one.
    pub fn find(&self, name: &str) -> (r: Option<usize>)
        requires
            self.wf(),
        ensures
            r is None <==> !self.has(name@),
            r matches Some(i) ==> i < self.names().len() && name_key(self.names()[i as int]) == name_key(name@),
    {
        let key = name.as_bytes();
        let mut i: usize = 0;
        while i < self.entries.len()
            invariant
                i <= self.entries@.len(),
                key@ == name_key(name@),
                forall|j: int| 0 <= j < i ==> name_key(#[trigger] self.names()[j]) != name_key(name@),
            decreases self.entries@.len() - i,
        {
            if bytes_equal(key_bytes(&self.entries[i].0), key) {
                assert(self.names()[i as int] == self.entries@[i as int].0@);
                assert(self.has(name@));
                return Some(i);
            }
            i = i + 1;
        }
        None
    }

    /// The name at position `i`.
    pub fn name_at(&self, i: usize) -> (s: &String)
        requires
            i < self.names().len(),
        ensures
            s@ == self.names()[i as int],
    {
        &self.entries[i].0
    }

    /// The collection at position `i`.
    pub fn value_at(&self, i: usize) -> (v: &V)
        requires
            i < self.names().len(),
        ensures
            *v == self.values()[i as int],
    {
        &self.entries[i].1
    }

    /// Mutable access to the collection at position `i`.
    pub fn value_at_mut(&mut self, i: usize) -> (v: &mut V)
        requires
            i < old(self).names().len(),
        ensures
            *v == old(self).values()[i as int],
            final(self).names() == old(self).names(),
            final(self).values() == old(self).values().update(i as int, *final(v)),
            final(self).wf() == old(self).wf(),
    {
        &mut self.entries[i].1
    }

    /// The collection called `name`; `NotFound` when there is none.
    pub fn get(&self, name: &str) -> (r: Result<&V, ApiError>)
        requires
            self.wf(),
        ensures
            r is Err <==> !self.has(name@),
            r matches Err(e) ==> e matches ApiError::NotFound(s) && s@ == name@,
            r matches Ok(v) ==> exists|i: int|
                0 <= i < self.names().len() && name_key(#[trigger] self.names()[i]) == name_key(name@) && *v
                    == self.values()[i],
    {
        match self.find(name) {
            Some(i) => Ok(&self.entries[i].1),
            None => Err(ApiError::NotFound(name.to_owned())),
        }
    }
}

impl<V> Collections<V> {
    /// Add collection `v` under `name`, unless a collection of that name
    /// exists: then `Conflict`, and nothing changes.
    pub fn create(&mut self, name: String, v: V) -> (r: Result<(), ApiError>)
        requires
            old(self).wf(),
        ensures
            final(self).wf(),
            old(self).has(name@) ==> {
                &&& r matches Err(e) && e matches ApiError::Conflict(s) && s@ == name@
                &&& final(self).names() == old(self).names()
                &&& final(self).values() == old(self).values()
            },
            !old(self).has(name@) ==> {
                &&& r is Ok
                &&& final(self).names() == old(self).names().push(name@)
                &&& final(self).values() == old(self).values().push(v)
            },
    {
        match self.find(name.as_str()) {
            Some(_) => Err(ApiError::Conflict(name)),
            None => {
                let ghost old_names = self.names();
                let ghost old_values = self.values();
                self.entries.push((name, v));
                proof {
                    assert(self.names() =~= old_names.push(name@));
                    assert(self.values() =~= old_values.push(v));
                    assert forall|i: int, j: int| 0 <= i < j < self.names().len() implies name_key(
                        #[trigger] self.names()[i],
                    ) != name_key(#[trigger] self.names()[j]) by {
                        if j == self.names().len() - 1 {
                            assert(self.names()[i] == old_names[i]);
                        }
                    }
                }
                Ok(())
            },
        }
    }

    /// `after` is `before` with `v` put under `name`: in place of the
    /// collection of that name if there is one, else added at the end.
    pub open spec fn put_result(before: Self, after: Self, name: Seq<char>, v: V) -> bool {
        &&& before.has(name) ==> exists|i: int|
            0 <= i < before.names().len() && name_key(before.names()[i]) == name_key(name) && after.names()
                == before.names() && #[trigger] after.values() == before.values().update(i, v)
        &&& !before.has(name) ==> {
            &&& after.names() == before.names().push(name)
            &&& after.values() == before.values().push(v)
        }
    }

    /// Put collection `v` under `name`, replacing the collection of that
    /// name if there is one (it keeps its place), else adding it at the end.
    pub fn put(&mut self, name: String, v: V)
        requires
            old(self).wf(),
        ensures
            final(self).wf(),
            Self::put_result(*old(self), *final(self), name@, v),
    {
        match self.find(name.as_str()) {
            Some(i) => {
                let ghost old_names = self.names();
                let ghost old_values = self.values();
                let slot = self.value_at_mut(i);
                *slot = v;
                proof {
                    assert(self.values() == old_values.update(i as int, v));
                }
            },
            None => {
                let ghost old_names = self.names();
                let ghost old_values = self.values();
                self.entries.push((name, v));
                proof {
                    assert(self.names() =~= old_names.push(name@));
                    assert(self.values() =~= old_values.push(v));
                    assert forall|i: int, j: int| 0 <= i < j < self.names().len() implies name_key(
                        #[trigger] self.names()[i],
                    ) != name_key(#[trigger] self.names()[j]) by {
                        if j == self.names().len() - 1 {
                            assert(self.names()[i] == old_names[i]);
                        }
                    }
                }
            },
        }
    }

    /// Remove and return the collection called `name`; `NotFound`, with
    /// nothing changed, when there is none.
    pub fn remove(&mut self, name: &str) -> (r: Result<V, ApiError>)
        requires
            old(self).wf(),
        ensures
            final(self).wf(),
            !old(self).has(name@) ==> {
                &&& r matches Err(e) && e matches ApiError::NotFound(s) && s@ == name@
                &&& final(self).names() == old(self).names()
                &&& final(self).values() == old(self).values()
            },
            old(self).has(name@) ==> exists|i: int|
                0 <= i < old(self).names().len() && name_key(old(self).names()[i]) == name_key(name@)
                    && #[trigger] final(self).names() == old(self).names().remove(i)
                    && final(self).values() == old(self).values().remove(i)
                    && r == Ok::<V, ApiError>(old(self).values()[i]),
            !final(self).has(name@),
    {
        match self.find(name) {
            Some(i) => {
                let ghost old_names = self.names();
                let ghost old_values = self.values();
                let entry = self.entries.remove(i);
                proof {
                    assert(self.names() =~= old_names.remove(i as int));
                    assert(self.values() =~= old_values.remove(i as int));
                    assert forall|a: int, b: int| 0 <= a < b < self.names().len() implies name_key(
                        #[trigger] self.names()[a],
                    ) != name_key(#[trigger] self.names()[b]) by {
                        if a < i {
                            if b < i {
                            } else {
                                assert(self.names()[b] == old_names[b + 1]);
                            }
                        } else {
                            assert(self.names()[a] == old_names[a + 1]);
                            assert(self.names()[b] == old_names[b + 1]);
                        }
                    }
                    if self.has(name@) {
                        let j = choose|j: int| 0 <= j < self.names().len() && name_key(#[trigger] self.names()[j]) == name_key(name@);
                        if j < i {
                            assert(old_names[j] == self.names()[j]);
                        } else {
                            assert(old_names[j + 1] == self.names()[j]);
                        }
                    }
                }
                Ok(entry.1)
            },
            None => Err(ApiError::NotFound(name.to_owned())),
        }
    }

    /// The positions of all collections, sorted by name.
    pub fn sorted_positions(&self) -> (order: Vec<usize>)
        requires
            self.wf(),
        ensures
            order@.len() == self.names().len(),
            forall|j: int| 0 <= j < order@.len() ==> #[trigger] order@[j] < self.names().len(),
            forall|a: int, b: int|
                0 <= a < b < order@.len() ==> bytes_lt(
                    name_key(self.names()[#[trigger] order@[a] as int]),
                    name_key(self.names()[#[trigger] order@[b] as int]),
                ),
            forall|a: int, b: int| 0 <= a < b < order@.len() ==> #[trigger] order@[a] != #[trigger] order@[b],
    {
        let ghost keys = self.names().map_values(|s: Seq<char>| name_key(s));
        let count = self.entries.len();
        let mut order: Vec<usize> = Vec::with_capacity(count);
        let mut i: usize = 0;
        while i < count
            invariant
                count == self.names().len(),
                self.wf(),
                keys == self.names().map_values(|s: Seq<char>| name_key(s)),
                i <= count,
                order@.len() == i,
                forall|j: int| 0 <= j < order@.len() ==> #[trigger] order@[j] < i,
                forall|a: int, b: int| 0 <= a < b < order@.len() ==> bytes_lt(
                    keys[#[trigger] order@[a] as int],
                    keys[#[trigger] order@[b] as int],
                ),
            decreases count - i,
        {
            let key = key_bytes(&self.entries[i].0);
            assert(key@ == keys[i as int]);
            let mut p: usize = 0;
            while p < order.len() && !bytes_less(key, key_bytes(&self.entries[order[p]].0))
                invariant
                    count == self.names().len(),
                    self.wf(),
                    keys == self.names().map_values(|s: Seq<char>| name_key(s)),
                    i < count,
                    key@ == keys[i as int],
                    p <= order@.len(),
                    forall|j: int| 0 <= j < order@.len() ==> #[trigger] order@[j] < i,
                    forall|j: int| 0 <= j < p ==> bytes_lt(keys[#[trigger] order@[j] as int], key@),
                decreases order@.len() - p,
            {
                proof {
                    let o = order@[p as int] as int;
                    assert(keys[o] != keys[i as int]);
                    lemma_bytes_lt_total(keys[o], key@);
                }
                p = p + 1;
            }
            proof {
                if p < order@.len() {
                    assert forall|j: int| p <= j < order@.len() implies bytes_lt(key@, keys[#[trigger] order@[j] as int]) by {
                        if j > p {
                            lemma_bytes_lt_transitive(key@, keys[order@[p as int] as int], keys[order@[j] as int]);
                        }
                    }
                }
            }
            let ghost before = order@;
            order.insert(p, i);
            proof {
                before.insert_ensures(p as int, i);
                assert forall|a: int, b: int| 0 <= a < b < order@.len() implies bytes_lt(
                    keys[#[trigger] order@[a] as int],
                    keys[#[trigger] order@[b] as int],
                ) by {
                    if b < p {
                    } else if b == p {
                    } else if a < p {
                        assert(order@[b] == before[b - 1]);
                        lemma_bytes_lt_transitive(keys[order@[a] as int], key@, keys[order@[b] as int]);
                    } else if a == p {
                        assert(order@[b] == before[b - 1]);
                    } else {
                        assert(order@[a] == before[a - 1]);
                        assert(order@[b] == before[b - 1]);
                    }
                }
                assert forall|j: int| 0 <= j < order@.len() implies #[trigger] order@[j] < i + 1 by {
                    if j > p {
                        assert(order@[j] == before[j - 1]);
                    } else if j < p {
                    }
                }
            }
            i = i + 1;
        }
        proof {
            assert forall|a: int, b: int| 0 <= a < b < order@.len() implies bytes_lt(
                name_key(self.names()[#[trigger] order@[a] as int]),
                name_key(self.names()[#[trigger] order@[b] as int]),
            ) by {
                assert(keys[order@[a] as int] == name_key(self.names()[order@[a] as int]));
                assert(keys[order@[b] as int] == name_key(self.names()[order@[b] as int]));
            }
            assert forall|a: int, b: int| 0 <= a < b < order@.len() implies #[trigger] order@[a] != #[trigger] order@[b] by {
                if order@[a] == order@[b] {
                    lemma_bytes_lt_irreflexive(keys[order@[a] as int]);
                }
            }
        }
        order
    }
}

/// A new, empty index of the requested kind. An HNSW index without
/// parameters gets the defaults.
pub fn create_index<T: Copy>(dim: usize, metric: Distance, kind: IndexKind, hnsw: Option<HnswParams>) -> (r: AnyIndex<T>)
    ensures
        r.wf(),
        r.spec_dim() == dim,
        r.spec_metric() == metric,
        r.rows() == Seq::<Seq<T>>::empty(),
        kind == IndexKind::Flat <==> r is Flat,
        r matches AnyIndex::Hnsw(h) ==> h.spec_params() == match hnsw {
            Some(p) => p,
            None => HnswParams { m: 16, m_max0: 32, ef_construction: 200, ef_search: 50, seed: 0 },
        },
{
    match kind {
        IndexKind::Flat => AnyIndex::Flat(FlatIndex::new(dim, metric)),
        IndexKind::Hnsw => {
            let params = match hnsw {
                Some(p) => p,
                None => HnswParams::default(),
            };
            AnyIndex::Hnsw(HnswIndex::new(dim, metric, params))
        },
    }
}

/// Insert `vectors` into `index`, in order, and return their IDs. Stops at
/// the first vector of the wrong dimensionality and returns its error; the
/// vectors before it stay inserted.
pub fn insert_points<T: Copy, F: Fn(&[T], &[T]) -> u32, L: Fn() -> u8>(
    index: &mut AnyIndex<T>,
    vectors: &[Vec<T>],
    draw_level: &L,
    dist: &F,
) -> (r: Result<Vec<u64>, VexError>)
    requires
        old(index).wf(),
        old(index).rows().len() + vectors@.len() < usize::MAX,
        total_metric(*dist),
        draw_level.requires(()),
    ensures
        final(index).wf(),
        final(index).spec_dim() == old(index).spec_dim(),
        final(index).spec_metric() == old(index).spec_metric(),
        match r {
            Ok(ids) => {
                &&& forall|j: int| 0 <= j < vectors@.len() ==> (#[trigger] vectors@[j])@.len() == old(index).spec_dim()
                &&& ids@ == Seq::new(vectors@.len(), |j: int| (old(index).rows().len() + j) as u64)
                &&& final(index).rows() == old(index).rows() + vector_views(vectors@)
            },
            Err(e) => insert_many_stopped(old(index).rows(), final(index).rows(), old(index).spec_dim(), vectors@, e),
        },
{
    let ghost old_rows = index.rows();
    let ghost n0 = index.rows().len();
    let dim = index.dim();
    let count = vectors.len();
    let mut b: usize = 0;
    while b < count && vectors[b].len() == dim
        invariant
            b <= count,
            count == vectors@.len(),
            dim == index.spec_dim(),
            forall|j: int| 0 <= j < b ==> (#[trigger] vectors@[j])@.len() == dim,
        decreases count - b,
    {
        b = b + 1;
    }
    let mut ids: Vec<u64> = Vec::with_capacity(b);
    let mut i: usize = 0;
    while i < b
        invariant
            i <= b <= vectors@.len(),
            index.wf(),
            index.spec_dim() == old(index).spec_dim(),
            index.spec_metric() == old(index).spec_metric(),
            dim == old(index).spec_dim(),
            n0 == old_rows.len(),
            n0 + vectors@.len() < usize::MAX,
            total_metric(*dist),
            draw_level.requires(()),
            forall|j: int| 0 <= j < b ==> (#[trigger] vectors@[j])@.len() == dim,
            ids@ == Seq::new(i as nat, |j: int| (n0 + j) as u64),
            index.rows() == old_rows + vector_views(vectors@.subrange(0, i as int)),
        decreases b - i,
    {
        let r = index.insert(vectors[i].as_slice(), draw_level, dist);
        if let Ok(id) = r {
            ids.push(id);
        }
        proof {
            assert(vector_views(vectors@.subrange(0, i + 1)) =~= vector_views(vectors@.subrange(0, i as int)).push(
                vectors@[i as int]@,
            ));
            assert(index.rows() =~= old_rows + vector_views(vectors@.subrange(0, i + 1)));
            assert(ids@ =~= Seq::new((i + 1) as nat, |j: int| (n0 + j) as u64));
        }
        i = i + 1;
    }
    if b < count {
        let e = VexError::DimensionMismatch { expected: dim, got: vectors[b].len() };
        proof {
            assert(stopped_at(old_rows, index.rows(), old(index).spec_dim(), vectors@, b as int, e));
        }
        return Err(e);
    }
    proof {
        assert(vectors@.subrange(0, vectors@.len() as int) =~= vectors@);
    }
    Ok(ids)
}

/// What a listing reports of the collection `index` called `name`.
pub fn collection_info<T: Copy>(name: &String, index: &AnyIndex<T>) -> (info: CollectionInfo)
    ensures
        info.name@ == name@,
        info.dim == index.spec_dim(),
        info.size == index.rows().len(),
{
    CollectionInfo { name: name.clone(), dim: index.dim(), size: index.len() }
}

/// Read after write: once `v` is put under `name`, `name` is taken and the
/// collection kept under it is `v`.
pub proof fn lemma_put_then_found<V>(before: Collections<V>, after: Collections<V>, name: Seq<char>, v: V)
    requires
        before.wf(),
        after.wf(),
        Collections::put_result(before, after, name, v),
    ensures
        after.has(name),
        forall|i: int|
            0 <= i < after.names().len() && name_key(#[trigger] after.names()[i]) == name_key(name) ==> after.values()[i]
                == v,
{
    if before.has(name) {
        let i = choose|i: int|
            0 <= i < before.names().len() && name_key(before.names()[i]) == name_key(name) && after.names()
                == before.names() && #[trigger] after.values() == before.values().update(i, v);
        assert(name_key(after.names()[i]) == name_key(name));
        assert forall|j: int|
            0 <= j < after.names().len() && name_key(#[trigger] after.names()[j]) == name_key(name) implies after.values()[j]
                == v by {
            if j != i {
                if j < i {
                    assert(name_key(after.names()[j]) != name_key(after.names()[i]));
                } else {
                    assert(name_key(after.names()[i]) != name_key(after.names()[j]));
                }
            }
        }
    } else {
        let last = before.names().len() as int;
        assert(after.names()[last] == name);
        assert forall|j: int|
            0 <= j < after.names().len() && name_key(#[trigger] after.names()[j]) == name_key(name) implies after.values()[j]
                == v by {
            if j != last {
                assert(after.names()[j] == before.names()[j]);
            }
        }
    }
}

/// Once a collection is created under a name, that name is taken: a second
/// creation under it is a conflict.
pub proof fn lemma_created_name_is_taken<V>(before: Collections<V>, after: Collections<V>, name: Seq<char>)
    requires
        after.names() == before.names().push(name),
    ensures
        after.has(name),
{
    assert(after.names()[before.names().len() as int] == name);
}

} // verus!
