//! The link graph: linking, unlinking, and listing the links of a memory.

use vstd::prelude::*;
use crate::model::{Edge, LinkType, LinkView, MemoryLink, StoreError, link_views};
use crate::store::{MemoryStore, StoreView, incident_to, other_than, same_triple};

verus! {

/// Filtering keeps the order: any two entries of the result stand in the
/// original in the same order.
pub proof fn lemma_filter_order(edges: Seq<Edge>, keep: spec_fn(Edge) -> bool, i: int, j: int)
    requires
        0 <= i < j < edges.filter(keep).len(),
    ensures
        exists|a: int, b: int|
            0 <= a < b < edges.len() && #[trigger] edges[a] == edges.filter(keep)[i]
                && #[trigger] edges[b] == edges.filter(keep)[j] && keep(edges[a]) && keep(
                edges[b],
            ),
    decreases edges.len(),
{
    reveal(Seq::filter);
    let head = edges.drop_last();
    let last = edges.last();
    if keep(last) && j == edges.filter(keep).len() - 1 {
        lemma_filter_member(head, keep, i);
        let a = choose|a: int| 0 <= a < head.len() && head[a] == head.filter(keep)[i];
        assert(edges[a] == edges.filter(keep)[i]);
        assert(edges[edges.len() - 1] == edges.filter(keep)[j]);
    } else {
        lemma_filter_order(head, keep, i, j);
        let (a, b) = choose|a: int, b: int|
            0 <= a < b < head.len() && #[trigger] head[a] == head.filter(keep)[i]
                && #[trigger] head[b] == head.filter(keep)[j] && keep(head[a]) && keep(head[b]);
        assert(edges[a] == edges.filter(keep)[i] && edges[b] == edges.filter(keep)[j]);
    }
}

/// Every entry of a filtered sequence is an entry of the original that
/// passes the filter.
pub proof fn lemma_filter_member(edges: Seq<Edge>, keep: spec_fn(Edge) -> bool, i: int)
    requires
        0 <= i < edges.filter(keep).len(),
    ensures
        keep(edges.filter(keep)[i]),
        exists|a: int| 0 <= a < edges.len() && #[trigger] edges[a] == edges.filter(keep)[i],
    decreases edges.len(),
{
    reveal(Seq::filter);
    let head = edges.drop_last();
    if keep(edges.last()) && i == edges.filter(keep).len() - 1 {
        assert(edges[edges.len() - 1] == edges.filter(keep)[i]);
    } else {
        lemma_filter_member(head, keep, i);
        let a = choose|a: int| 0 <= a < head.len() && head[a] == head.filter(keep)[i];
        assert(edges[a] == edges.filter(keep)[i]);
    }
}

/// An entry that passes a filter is an entry of the filtered sequence.
pub proof fn lemma_filter_holds(edges: Seq<Edge>, keep: spec_fn(Edge) -> bool, i: int)
    requires
        0 <= i < edges.len(),
        keep(edges[i]),
    ensures
        exists|k: int| 0 <= k < edges.filter(keep).len() && edges.filter(keep)[k] == edges[i],
    decreases edges.len(),
{
    reveal(Seq::filter);
    let head = edges.drop_last();
    if i == edges.len() - 1 {
        let k = edges.filter(keep).len() - 1;
        assert(edges.filter(keep)[k] == edges[i]);
    } else {
        lemma_filter_holds(head, keep, i);
        let k = choose|k: int| 0 <= k < head.filter(keep).len() && head.filter(keep)[k] == head[i];
        assert(edges.filter(keep)[k] == edges[i]);
    }
}

impl StoreView {
    /// A store stays well formed when some of its links are taken away.
    pub proof fn lemma_fewer_edges(self, keep: spec_fn(Edge) -> bool)
        requires
            self.wf(),
        ensures
            (StoreView { edges: self.edges.filter(keep), ..self }).wf(),
    {
        let after = StoreView { edges: self.edges.filter(keep), ..self };
        assert forall|i: int| 0 <= i < after.edges.len() implies after.edge_ok(
            #[trigger] after.edges[i],
        ) by {
            lemma_filter_member(self.edges, keep, i);
            let a = choose|a: int| 0 <= a < self.edges.len() && self.edges[a] == after.edges[i];
            assert(self.edge_ok(self.edges[a]));
        }
        assert forall|i: int, j: int| 0 <= i < j < after.edges.len() implies !same_triple(
            #[trigger] after.edges[i],
            #[trigger] after.edges[j],
        ) by {
            lemma_filter_order(self.edges, keep, i, j);
        }
    }

    /// The identifier of the memory called `m`.
    pub open spec fn id_of(self, m: Seq<char>) -> i64 {
        self.row(m).id
    }

    /// What `link` answers: the link type that `label` names, or why
    /// there can be no such link.
    pub open spec fn link_outcome(
        self,
        source: Seq<char>,
        target: Seq<char>,
        label: Seq<char>,
    ) -> Result<LinkType, StoreError> {
        if !self.has_mnemonic(source) || !self.has_mnemonic(target) {
            Err(StoreError::NotFound)
        } else if LinkType::named(label) is None {
            Err(StoreError::UnknownLinkType)
        } else if source == target {
            Err(StoreError::SameMemory)
        } else {
            Ok(LinkType::named(label)->0)
        }
    }

    /// The store with a link from the row `source` to the row `target`: a new
    /// one, made at `now`, unless there is one already.
    pub open spec fn with_edge(self, source: i64, target: i64, kind: LinkType, now: i64) -> StoreView {
        if self.has_edge(source, target, kind) {
            self
        } else {
            StoreView {
                edges: self.edges.push(Edge { source, target, kind, created_at: now }),
                ..self
            }
        }
    }

    /// The store after `source` and `target` are linked.
    pub open spec fn linked(
        self,
        source: Seq<char>,
        target: Seq<char>,
        kind: LinkType,
        now: i64,
    ) -> StoreView {
        self.with_edge(self.id_of(source), self.id_of(target), kind, now)
    }

    /// The store after the link from `source` to `target` of the named type
    /// is taken away. Where there is no such link, the store is unchanged.
    pub open spec fn unlinked(
        self,
        source: Seq<char>,
        target: Seq<char>,
        label: Seq<char>,
    ) -> StoreView {
        if self.has_mnemonic(source) && self.has_mnemonic(target) && LinkType::named(label)
            is Some {
            StoreView {
                edges: self.edges.filter(
                    other_than(
                        self.id_of(source),
                        self.id_of(target),
                        LinkType::named(label)->0,
                    ),
                ),
                ..self
            }
        } else {
            self
        }
    }

    /// A link as it is handed out.
    pub open spec fn shown(self, e: Edge) -> LinkView {
        LinkView {
            source_mnemonic: self.row_of_id(e.source).mnemonic,
            target_mnemonic: self.row_of_id(e.target).mnemonic,
            link_type: e.kind.name(),
            created_at: e.created_at,
        }
    }

    /// The function that shows a link of this store.
    pub open spec fn shower(self) -> spec_fn(Edge) -> LinkView {
        |e: Edge| self.shown(e)
    }

    /// The links that touch the row `id`, oldest first.
    pub open spec fn links_of_id(self, id: i64) -> Seq<LinkView> {
        self.edges.filter(incident_to(id)).map_values(self.shower())
    }

    /// The links that touch the memory `m`, oldest first. A mnemonic that the
    /// store does not know has none.
    pub open spec fn links_of(self, m: Seq<char>) -> Seq<LinkView> {
        if self.has_mnemonic(m) {
            self.links_of_id(self.id_of(m))
        } else {
            Seq::empty()
        }
    }

    /// All links, oldest first.
    pub open spec fn all_links(self) -> Seq<LinkView> {
        self.edges.map_values(self.shower())
    }

    /// A store stays well formed when a link between two of its rows is added.
    pub proof fn lemma_with_edge(self, source: i64, target: i64, kind: LinkType, now: i64)
        requires
            self.wf(),
            self.has_id(source),
            self.has_id(target),
            source != target,
        ensures
            self.with_edge(source, target, kind, now).wf(),
            self.with_edge(source, target, kind, now).has_edge(source, target, kind),
    {
        let after = self.with_edge(source, target, kind, now);
        if !self.has_edge(source, target, kind) {
            let e = Edge { source, target, kind, created_at: now };
            assert(after.edges[self.edges.len() as int] == e);
            assert forall|i: int| 0 <= i < after.edges.len() implies after.edge_ok(
                #[trigger] after.edges[i],
            ) by {
                if i < self.edges.len() {
                    assert(self.edge_ok(self.edges[i]));
                }
            }
            assert forall|i: int, j: int| 0 <= i < j < after.edges.len() implies !same_triple(
                #[trigger] after.edges[i],
                #[trigger] after.edges[j],
            ) by {
                if j < self.edges.len() {
                    assert(!same_triple(self.edges[i], self.edges[j]));
                } else {
                    assert(self.edges[i] == after.edges[i]);
                }
            }
        }
    }
}

impl MemoryStore {
    /// A link as it is handed out: with the mnemonics of its two ends.
    pub(crate) fn show(&self, e: Edge) -> (link: MemoryLink)
        requires
            self.wf(),
            self@.has_id(e.source),
            self@.has_id(e.target),
        ensures
            link@ == self@.shown(e),
    {
        let s = self.find_id(e.source);
        let t = self.find_id(e.target);
        match (s, t) {
            (Some(i), Some(j)) => MemoryLink {
                source_mnemonic: self.rows[i].mnemonic.clone(),
                target_mnemonic: self.rows[j].mnemonic.clone(),
                link_type: e.kind.as_string(),
                created_at: e.created_at,
            },
            _ => {
                proof {
                    assert(false);
                }
                MemoryLink {
                    source_mnemonic: String::new(),
                    target_mnemonic: String::new(),
                    link_type: String::new(),
                    created_at: 0,
                }
            },
        }
    }

    /// The links that touch the row `id`, oldest first.
    pub(crate) fn links_of_id(&self, id: i64) -> (links: Vec<MemoryLink>)
        requires
            self.wf(),
        ensures
            link_views(links@) == self@.links_of_id(id),
    {
        let mut out: Vec<MemoryLink> = Vec::new();
        let mut i: usize = 0;
        let ghost edges = self@.edges;
        let ghost touches = incident_to(id);
        let ghost show = self@.shower();
        proof {
            reveal(Seq::filter);
            assert(edges.take(0) =~= Seq::empty());
            assert(link_views(out@) =~= edges.take(0).filter(touches).map_values(show));
        }
        while i < self.links.len()
            invariant
                i <= self.links.len(),
                self.wf(),
                edges == self@.edges,
                touches == incident_to(id),
                show == self@.shower(),
                link_views(out@) == edges.take(i as int).filter(touches).map_values(show),
            decreases self.links.len() - i,
        {
            let e = self.links[i];
            proof {
                assert(edges.take(i + 1) =~= edges.take(i as int).push(e));
                edges.take(i as int).lemma_filter_push(e, touches);
                assert(self@.edge_ok(edges[i as int]));
            }
            if e.source == id || e.target == id {
                let ghost before = link_views(out@);
                let link = self.show(e);
                out.push(link);
                assert(link_views(out@) =~= before.push(show(e)));
                assert(edges.take(i as int).filter(touches).push(e).map_values(show)
                    =~= before.push(show(e)));
            }
            i += 1;
        }
        assert(edges.take(self.links.len() as int) =~= edges);
        out
    }

    /// Links `source` to `target`. Linking twice is linking once: a link that
    /// is there already stays as it is.
    pub fn link(&mut self, source: &str, target: &str, link_type: &str, now: i64) -> (done: Result<
        (),
        StoreError,
    >)
        requires
            old(self).wf(),
        ensures
            final(self).wf(),
            match old(self)@.link_outcome(source@, target@, link_type@) {
                Ok(kind) => done == Ok::<(), StoreError>(()) && final(self)@ == old(self)@.linked(
                    source@,
                    target@,
                    kind,
                    now,
                ),
                Err(e) => done == Err::<(), StoreError>(e) && final(self)@ == old(self)@,
            },
    {
        let s = self.find(&source.to_owned());
        let t = self.find(&target.to_owned());
        let (i, j) = match (s, t) {
            (Some(i), Some(j)) => (i, j),
            _ => {
                return Err(StoreError::NotFound);
            },
        };
        let kind = match LinkType::parse(link_type) {
            Some(kind) => kind,
            None => {
                return Err(StoreError::UnknownLinkType);
            },
        };
        if i == j {
            return Err(StoreError::SameMemory);
        }
        let sid: i64 = self.rows[i].id;
        let tid: i64 = self.rows[j].id;
        proof {
            assert(self@.rows[i as int].id == sid && self@.rows[j as int].id == tid);
            assert(self@.rows[i as int].mnemonic != self@.rows[j as int].mnemonic) by {
                if i < j {
                    assert(self@.rows[i as int].mnemonic != self@.rows[j as int].mnemonic);
                } else {
                    assert(self@.rows[j as int].mnemonic != self@.rows[i as int].mnemonic);
                }
            }
            assert(sid != tid) by {
                if i < j {
                    assert(self@.rows[i as int].id < self@.rows[j as int].id);
                } else {
                    assert(self@.rows[j as int].id < self@.rows[i as int].id);
                }
            }
            self@.lemma_with_edge(sid, tid, kind, now);
        }
        self.add_link(sid, tid, kind, now);
        Ok(())
    }

    /// Adds a link between two rows unless it is there already.
    pub(crate) fn add_link(&mut self, source: i64, target: i64, kind: LinkType, now: i64)
        ensures
            final(self)@ == old(self)@.with_edge(source, target, kind, now),
    {
        if !self.has_link(source, target, kind) {
            self.links.push(Edge { source, target, kind, created_at: now });
        }
    }

    /// Takes away the link from `source` to `target` of the given type. Where
    /// there is none, or an end or the type is unknown, nothing changes.
    pub fn unlink(&mut self, source: &str, target: &str, link_type: &str)
        requires
            old(self).wf(),
        ensures
            final(self).wf(),
            final(self)@ == old(self)@.unlinked(source@, target@, link_type@),
    {
        let s = self.find(&source.to_owned());
        let t = self.find(&target.to_owned());
        let k = LinkType::parse(link_type);
        match (s, t, k) {
            (Some(i), Some(j), Some(kind)) => {
                let sid: i64 = self.rows[i].id;
                let tid: i64 = self.rows[j].id;
                assert(self@.rows[i as int].id == sid && self@.rows[j as int].id == tid);
                proof {
                    self@.lemma_fewer_edges(other_than(sid, tid, kind));
                }
                self.links = drop_edge(&self.links, sid, tid, kind);
            },
            _ => {},
        }
    }

    /// The links that touch the memory `mnemonic`, whichever end it is,
    /// oldest first.
    pub fn get_links(&self, mnemonic: &str) -> (links: Vec<MemoryLink>)
        requires
            self.wf(),
        ensures
            link_views(links@) == self@.links_of(mnemonic@),
    {
        match self.find(&mnemonic.to_owned()) {
            Some(i) => {
                assert(self@.rows[i as int].id == self.rows@[i as int].id);
                self.links_of_id(self.rows[i].id)
            },
            None => {
                let none: Vec<MemoryLink> = Vec::new();
                assert(link_views(none@) =~= Seq::empty());
                none
            },
        }
    }

    /// All links of the store, oldest first.
    pub fn get_all_links(&self) -> (links: Vec<MemoryLink>)
        requires
            self.wf(),
        ensures
            link_views(links@) == self@.all_links(),
    {
        let mut out: Vec<MemoryLink> = Vec::new();
        let mut i: usize = 0;
        let ghost show = self@.shower();
        assert(link_views(out@) =~= self@.edges.take(0).map_values(show));
        while i < self.links.len()
            invariant
                i <= self.links.len(),
                self.wf(),
                show == self@.shower(),
                link_views(out@) == self@.edges.take(i as int).map_values(show),
            decreases self.links.len() - i,
        {
            let e = self.links[i];
            assert(self@.edge_ok(self@.edges[i as int]));
            let ghost before = link_views(out@);
            let link = self.show(e);
            out.push(link);
            assert(link_views(out@) =~= before.push(show(e)));
            assert(self@.edges.take(i + 1).map_values(show) =~= before.push(show(e)));
            i += 1;
        }
        assert(self@.edges.take(self.links.len() as int) =~= self@.edges);
        out
    }
}

/// The links of `edges` other than the one from `source` to `target` of type `kind`.
pub(crate) fn drop_edge(edges: &Vec<Edge>, source: i64, target: i64, kind: LinkType) -> (kept: Vec<
    Edge,
>)
    ensures
        kept@ == edges@.filter(other_than(source, target, kind)),
{
    let mut out: Vec<Edge> = Vec::new();
    let mut i: usize = 0;
    let ghost keep = other_than(source, target, kind);
    proof {
        reveal(Seq::filter);
        assert(edges@.take(0) =~= Seq::empty());
    }
    while i < edges.len()
        invariant
            i <= edges.len(),
            keep == other_than(source, target, kind),
            out@ == edges@.take(i as int).filter(keep),
        decreases edges.len() - i,
    {
        let e = edges[i];
        proof {
            assert(edges@.take(i + 1) =~= edges@.take(i as int).push(e));
            edges@.take(i as int).lemma_filter_push(e, keep);
        }
        if !(e.source == source && e.target == target && e.kind == kind) {
            out.push(e);
        }
        i += 1;
    }
    assert(edges@.take(edges.len() as int) =~= edges@);
    out
}

} // verus!
