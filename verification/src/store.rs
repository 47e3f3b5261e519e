//! The memory store: rows, their embeddings, and the links between them.

use vstd::prelude::*;
use crate::model::{Edge, LinkType, MemoryRow, RowView, StoreError, row_views, EMBED_BYTES};
use crate::tags::copy_tags;
use crate::text::texts;

verus! {

/// The mathematical value of a store.
pub ghost struct StoreView {
    /// The rows, oldest first.
    pub rows: Seq<RowView>,
    /// The links, oldest first.
    pub edges: Seq<Edge>,
    /// The identifier that the next new row gets.
    pub next_id: i64,
    /// The tags that recall favours.
    pub boost_tags: Seq<Seq<char>>,
}

/// A counter after one more event. A counter that is full stays as it is.
pub open spec fn bumped(count: i64) -> i64 {
    if count < i64::MAX {
        (count + 1) as i64
    } else {
        count
    }
}

/// Whether two links join the same rows in the same direction with the same type.
pub open spec fn same_triple(a: Edge, b: Edge) -> bool {
    a.source == b.source && a.target == b.target && a.kind == b.kind
}

/// Whether `edges` holds a link from `source` to `target` of type `kind`.
pub open spec fn has_triple(edges: Seq<Edge>, source: i64, target: i64, kind: LinkType) -> bool {
    exists|i: int|
        0 <= i < edges.len() && (#[trigger] edges[i]).source == source && edges[i].target == target
            && edges[i].kind == kind
}

/// The predicate "touches the row `id`".
pub open spec fn incident_to(id: i64) -> spec_fn(Edge) -> bool {
    |e: Edge| e.source == id || e.target == id
}

/// The predicate "does not touch the row `id`".
pub open spec fn apart_from(id: i64) -> spec_fn(Edge) -> bool {
    |e: Edge| e.source != id && e.target != id
}

/// The predicate "is not the link from `source` to `target` of type `kind`".
pub open spec fn other_than(source: i64, target: i64, kind: LinkType) -> spec_fn(Edge) -> bool {
    |e: Edge| !(e.source == source && e.target == target && e.kind == kind)
}

impl StoreView {
    /// The store that holds nothing.
    pub open spec fn empty() -> StoreView {
        StoreView { rows: Seq::empty(), edges: Seq::empty(), next_id: 1, boost_tags: Seq::empty() }
    }

    /// Whether a row has the mnemonic `m`.
    pub open spec fn has_mnemonic(self, m: Seq<char>) -> bool {
        exists|i: int| 0 <= i < self.rows.len() && (#[trigger] self.rows[i]).mnemonic == m
    }

    /// Where the row with the mnemonic `m` stands.
    pub open spec fn position(self, m: Seq<char>) -> int {
        choose|i: int| 0 <= i < self.rows.len() && (#[trigger] self.rows[i]).mnemonic == m
    }

    /// The row with the mnemonic `m`.
    pub open spec fn row(self, m: Seq<char>) -> RowView {
        self.rows[self.position(m)]
    }

    /// Whether a row has the identifier `id`.
    pub open spec fn has_id(self, id: i64) -> bool {
        exists|i: int| 0 <= i < self.rows.len() && (#[trigger] self.rows[i]).id == id
    }

    /// Where the row with the identifier `id` stands.
    pub open spec fn position_of_id(self, id: i64) -> int {
        choose|i: int| 0 <= i < self.rows.len() && (#[trigger] self.rows[i]).id == id
    }

    /// The row with the identifier `id`.
    pub open spec fn row_of_id(self, id: i64) -> RowView {
        self.rows[self.position_of_id(id)]
    }

    /// Whether a row has the external identifier `uuid`.
    pub open spec fn has_uuid(self, uuid: Seq<char>) -> bool {
        exists|i: int| 0 <= i < self.rows.len() && (#[trigger] self.rows[i]).uuid == uuid
    }

    /// Where the row with the external identifier `uuid` stands.
    pub open spec fn position_of_uuid(self, uuid: Seq<char>) -> int {
        choose|i: int| 0 <= i < self.rows.len() && (#[trigger] self.rows[i]).uuid == uuid
    }

    /// Whether there is a link from `source` to `target` of type `kind`.
    pub open spec fn has_edge(self, source: i64, target: i64, kind: LinkType) -> bool {
        has_triple(self.edges, source, target, kind)
    }

    /// What holds of every row: its identifier has been given out, its
    /// embedding has the one length, and its counters are not negative.
    pub open spec fn row_ok(self, r: RowView) -> bool {
        &&& 1 <= r.id < self.next_id
        &&& r.embedding.len() == EMBED_BYTES
        &&& 0 <= r.recall_count
        &&& 0 <= r.useful_count
        &&& 0 <= r.not_useful_count
    }

    /// What holds of every link: it joins two different rows of the store.
    pub open spec fn edge_ok(self, e: Edge) -> bool {
        &&& e.source != e.target
        &&& self.has_id(e.source)
        &&& self.has_id(e.target)
    }

    /// The invariant of the store. Rows stand in the order of their
    /// identifiers; no two share a mnemonic or an external identifier; every
    /// row has one embedding; no link joins a row to itself, hangs loose, or
    /// occurs twice.
    pub open spec fn wf(self) -> bool {
        &&& 1 <= self.next_id
        &&& forall|i: int| 0 <= i < self.rows.len() ==> self.row_ok(#[trigger] self.rows[i])
        &&& forall|i: int, j: int|
            0 <= i < j < self.rows.len() ==> {
                &&& (#[trigger] self.rows[i]).id < (#[trigger] self.rows[j]).id
                &&& self.rows[i].mnemonic != self.rows[j].mnemonic
                &&& self.rows[i].uuid != self.rows[j].uuid
            }
        &&& forall|i: int| 0 <= i < self.edges.len() ==> self.edge_ok(#[trigger] self.edges[i])
        &&& forall|i: int, j: int|
            0 <= i < j < self.edges.len() ==> !same_triple(
                #[trigger] self.edges[i],
                #[trigger] self.edges[j],
            )
    }

    /// In a well-formed store a mnemonic is found where it stands.
    pub proof fn lemma_position(self, m: Seq<char>, i: int)
        requires
            self.wf(),
            0 <= i < self.rows.len(),
            self.rows[i].mnemonic == m,
        ensures
            self.has_mnemonic(m),
            self.position(m) == i,
    {
        let j = self.position(m);
        if j < i {
            assert(self.rows[j].mnemonic != self.rows[i].mnemonic);
        } else if i < j {
            assert(self.rows[i].mnemonic != self.rows[j].mnemonic);
        }
    }

    /// In a well-formed store an identifier is found where it stands.
    pub proof fn lemma_position_of_id(self, id: i64, i: int)
        requires
            self.wf(),
            0 <= i < self.rows.len(),
            self.rows[i].id == id,
        ensures
            self.has_id(id),
            self.position_of_id(id) == i,
    {
        let j = self.position_of_id(id);
        if j < i {
            assert(self.rows[j].id < self.rows[i].id);
        } else if i < j {
            assert(self.rows[i].id < self.rows[j].id);
        }
    }

    /// In a well-formed store an external identifier is found where it stands.
    pub proof fn lemma_position_of_uuid(self, uuid: Seq<char>, i: int)
        requires
            self.wf(),
            0 <= i < self.rows.len(),
            self.rows[i].uuid == uuid,
        ensures
            self.has_uuid(uuid),
            self.position_of_uuid(uuid) == i,
    {
        let j = self.position_of_uuid(uuid);
        if j < i {
            assert(self.rows[j].uuid != self.rows[i].uuid);
        } else if i < j {
            assert(self.rows[i].uuid != self.rows[j].uuid);
        }
    }
}

/// A semantic memory store: memories under unique mnemonics, one embedding
/// for each, and typed links between them.
pub struct MemoryStore {
    pub(crate) rows: Vec<MemoryRow>,
    pub(crate) links: Vec<Edge>,
    pub(crate) next_id: i64,
    pub(crate) boost_tags: Vec<String>,
}

impl View for MemoryStore {
    type V = StoreView;

    open(crate) spec fn view(&self) -> StoreView {
        StoreView {
            rows: row_views(self.rows@),
            edges: self.links@,
            next_id: self.next_id,
            boost_tags: texts(self.boost_tags@),
        }
    }
}

impl MemoryStore {
    /// Whether the store's invariant holds. Every store that this library
    /// hands out is well formed, and every operation keeps it so.
    pub open spec fn wf(&self) -> bool {
        self@.wf()
    }

    /// An empty store.
    pub fn in_memory() -> (store: MemoryStore)
        ensures
            store@ == StoreView::empty(),
            store.wf(),
    {
        let store = MemoryStore {
            rows: Vec::new(),
            links: Vec::new(),
            next_id: 1,
            boost_tags: Vec::new(),
        };
        assert(store@.rows =~= Seq::empty());
        assert(store@.boost_tags =~= Seq::empty());
        store
    }

    /// Sets the tags that recall favours.
    pub fn set_boost_tags(&mut self, tags: Vec<String>)
        ensures
            final(self)@ == (StoreView { boost_tags: texts(tags@), ..old(self)@ }),
    {
        self.boost_tags = tags;
    }

    /// How many memories the store holds.
    pub fn len(&self) -> (n: usize)
        ensures
            n == self@.rows.len(),
    {
        self.rows.len()
    }

    /// Where the row with the mnemonic `m` stands, if there is one.
    pub(crate) fn find(&self, m: &String) -> (at: Option<usize>)
        requires
            self.wf(),
        ensures
            match at {
                Some(i) => i < self.rows.len() && self@.has_mnemonic(m@) && self@.position(m@)
                    == i && self.rows@[i as int]@.mnemonic == m@,
                None => !self@.has_mnemonic(m@),
            },
    {
        let mut i: usize = 0;
        while i < self.rows.len()
            invariant
                i <= self.rows.len(),
                self.wf(),
                forall|j: int| 0 <= j < i ==> (#[trigger] self@.rows[j]).mnemonic != m@,
            decreases self.rows.len() - i,
        {
            if self.rows[i].mnemonic == *m {
                proof {
                    self@.lemma_position(m@, i as int);
                }
                return Some(i);
            }
            i += 1;
        }
        None
    }

    /// Where the row with the identifier `id` stands, if there is one.
    pub(crate) fn find_id(&self, id: i64) -> (at: Option<usize>)
        requires
            self.wf(),
        ensures
            match at {
                Some(i) => i < self.rows.len() && self@.has_id(id) && self@.position_of_id(id)
                    == i && self.rows@[i as int].id == id,
                None => !self@.has_id(id),
            },
    {
        let mut i: usize = 0;
        while i < self.rows.len()
            invariant
                i <= self.rows.len(),
                self.wf(),
                forall|j: int| 0 <= j < i ==> (#[trigger] self@.rows[j]).id != id,
            decreases self.rows.len() - i,
        {
            if self.rows[i].id == id {
                proof {
                    self@.lemma_position_of_id(id, i as int);
                }
                return Some(i);
            }
            i += 1;
        }
        None
    }

    /// Where the row with the external identifier `uuid` stands, if there is one.
    pub(crate) fn find_uuid(&self, uuid: &String) -> (at: Option<usize>)
        requires
            self.wf(),
        ensures
            match at {
                Some(i) => i < self.rows.len() && self@.has_uuid(uuid@)
                    && self@.position_of_uuid(uuid@) == i && self.rows@[i as int]@.uuid == uuid@,
                None => !self@.has_uuid(uuid@),
            },
    {
        let mut i: usize = 0;
        while i < self.rows.len()
            invariant
                i <= self.rows.len(),
                self.wf(),
                forall|j: int| 0 <= j < i ==> (#[trigger] self@.rows[j]).uuid != uuid@,
            decreases self.rows.len() - i,
        {
            if self.rows[i].uuid == *uuid {
                proof {
                    self@.lemma_position_of_uuid(uuid@, i as int);
                }
                return Some(i);
            }
            i += 1;
        }
        None
    }

    /// Whether there is a link from `source` to `target` of type `kind`.
    pub(crate) fn has_link(&self, source: i64, target: i64, kind: LinkType) -> (found: bool)
        ensures
            found == self@.has_edge(source, target, kind),
    {
        holds_triple(&self.links, source, target, kind)
    }
}

/// Whether `edges` holds a link from `source` to `target` of type `kind`.
pub(crate) fn holds_triple(edges: &Vec<Edge>, source: i64, target: i64, kind: LinkType) -> (found:
    bool)
    ensures
        found == has_triple(edges@, source, target, kind),
{
    let mut i: usize = 0;
    while i < edges.len()
        invariant
            i <= edges.len(),
            forall|j: int|
                0 <= j < i ==> !((#[trigger] edges@[j]).source == source && edges@[j].target
                    == target && edges@[j].kind == kind),
        decreases edges.len() - i,
    {
        let e = edges[i];
        if e.source == source && e.target == target && e.kind == kind {
            return true;
        }
        i += 1;
    }
    false
}

/// A copy of `bytes`.
pub(crate) fn copy_bytes(bytes: &Vec<u8>) -> (copy: Vec<u8>)
    ensures
        copy@ == bytes@,
{
    let mut out: Vec<u8> = Vec::new();
    let mut i: usize = 0;
    while i < bytes.len()
        invariant
            i <= bytes.len(),
            out@ == bytes@.take(i as int),
        decreases bytes.len() - i,
    {
        out.push(bytes[i]);
        assert(out@ =~= bytes@.take(i + 1));
        i += 1;
    }
    assert(bytes@.take(bytes.len() as int) =~= bytes@);
    out
}

} // verus!
