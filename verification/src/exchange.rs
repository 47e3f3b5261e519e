//! Export and import: the memories of a store as documents, keyed by their
//! external identifiers.

use vstd::prelude::*;
use crate::document::{lowercase_of, slug, slugify};
use crate::model::{Edge, LinkType, MemoryRow, RowView, StoreError, EMBED_BYTES};
use crate::rank::{Ranked, in_rank_order, lemma_same_entries, rank};
use crate::store::{MemoryStore, StoreView, copy_bytes};
use crate::tags::{any_shared_tag, copy_tags, shares_tag};
use crate::text::{
    concat, lemma_text_lt_carries, lemma_text_lt_one_way, lemma_text_lt_total, text_before,
    text_lt, texts,
};

verus! {

/// A link in a document: the external identifier of its target, and its type.
#[derive(Debug)]
pub struct ExportedLink {
    pub target: String,
    pub link_type: String,
}

/// The mathematical value of an `ExportedLink`.
pub ghost struct ExportedLinkView {
    pub target: Seq<char>,
    pub link_type: Seq<char>,
}

impl View for ExportedLink {
    type V = ExportedLinkView;

    open spec fn view(&self) -> ExportedLinkView {
        ExportedLinkView { target: self.target@, link_type: self.link_type@ }
    }
}

/// The views of a sequence of document links, element by element.
pub open spec fn exported_link_views(links: Seq<ExportedLink>) -> Seq<ExportedLinkView> {
    links.map_values(|l: ExportedLink| l@)
}

/// A memory as a document: the name of its file, what its front matter
/// holds, and its body.
#[derive(Debug)]
pub struct ExportedMemory {
    pub filename: String,
    pub uuid: String,
    pub mnemonic: String,
    pub tags: Vec<String>,
    pub links: Vec<ExportedLink>,
    pub content: String,
}

/// The mathematical value of an `ExportedMemory`.
pub ghost struct ExportedView {
    pub filename: Seq<char>,
    pub uuid: Seq<char>,
    pub mnemonic: Seq<char>,
    pub tags: Seq<Seq<char>>,
    pub links: Seq<ExportedLinkView>,
    pub content: Seq<char>,
}

impl View for ExportedMemory {
    type V = ExportedView;

    open spec fn view(&self) -> ExportedView {
        ExportedView {
            filename: self.filename@,
            uuid: self.uuid@,
            mnemonic: self.mnemonic@,
            tags: texts(self.tags@),
            links: exported_link_views(self.links@),
            content: self.content@,
        }
    }
}

impl Ranked for ExportedMemory {
    /// Documents stand in the order of their mnemonics.
    open spec fn ahead(&self, other: &Self) -> bool {
        text_lt(self.mnemonic@, other.mnemonic@)
    }

    fn is_ahead(&self, other: &Self) -> (first: bool) {
        text_before(self.mnemonic.as_str(), other.mnemonic.as_str())
    }

    proof fn lemma_one_way(a: &Self, b: &Self) {
        lemma_text_lt_one_way(a.mnemonic@, b.mnemonic@);
    }

    proof fn lemma_carries(a: &Self, b: &Self, c: &Self) {
        lemma_text_lt_carries(a.mnemonic@, b.mnemonic@, c.mnemonic@);
    }
}

/// The predicate "starts at the row `id`".
pub open spec fn leaves(id: i64) -> spec_fn(Edge) -> bool {
    |e: Edge| e.source == id
}

/// The tags of an optional tag list.
pub open spec fn chosen(tags: Option<&Vec<String>>) -> Option<Seq<Seq<char>>> {
    match tags {
        Some(t) => Some(texts(t@)),
        None => None,
    }
}

impl StoreView {
    /// A link as a document shows it.
    pub open spec fn exported_link(self, e: Edge) -> ExportedLinkView {
        ExportedLinkView { target: self.row_of_id(e.target).uuid, link_type: e.kind.name() }
    }

    /// The function that shows a link as a document does.
    pub open spec fn link_exporter(self) -> spec_fn(Edge) -> ExportedLinkView {
        |e: Edge| self.exported_link(e)
    }

    /// The document of the row `r`: filed under the slug of its mnemonic,
    /// with the links that start at it.
    pub open spec fn exported(self, r: RowView) -> ExportedView {
        ExportedView {
            filename: slug(lowercase_of(r.mnemonic)) + ".md"@,
            uuid: r.uuid,
            mnemonic: r.mnemonic,
            tags: r.tags,
            links: self.edges.filter(leaves(r.id)).map_values(self.link_exporter()),
            content: r.content,
        }
    }

    /// Whether the row `r` is exported: always without a tag list, and with
    /// one where the row has one of its tags.
    pub open spec fn exportable(self, r: RowView, tags: Option<Seq<Seq<char>>>) -> bool {
        tags is Some ==> shares_tag(r.tags, tags->0)
    }

    /// The predicate "is exported".
    pub open spec fn exporting(self, tags: Option<Seq<Seq<char>>>) -> spec_fn(RowView) -> bool {
        |r: RowView| self.exportable(r, tags)
    }

    /// Whether `docs` are the documents of the rows at `src`, which are the
    /// rows that are exported, in their order.
    pub open spec fn drawn_from(
        self,
        docs: Seq<ExportedView>,
        src: Seq<int>,
        tags: Option<Seq<Seq<char>>>,
    ) -> bool {
        &&& src.len() == docs.len()
        &&& src.len() == self.rows.filter(self.exporting(tags)).len()
        &&& forall|a: int|
            0 <= a < src.len() ==> {
                &&& 0 <= (#[trigger] src[a]) < self.rows.len()
                &&& self.exportable(self.rows[src[a]], tags)
                &&& docs[a] == self.exported(self.rows[src[a]])
            }
        &&& forall|a: int, b: int|
            0 <= a < b < src.len() ==> (#[trigger] src[a]) < (#[trigger] src[b])
        &&& forall|k: int|
            0 <= k < self.rows.len() && self.exportable(#[trigger] self.rows[k], tags)
                ==> src.contains(k)
    }

    /// Whether `docs` is the export of the store: the documents of the rows
    /// that are exported, each once, in the order of their mnemonics.
    pub open spec fn is_export(self, docs: Seq<ExportedView>, tags: Option<Seq<Seq<char>>>) -> bool {
        &&& docs.len() == self.rows.filter(self.exporting(tags)).len()
        &&& forall|i: int, j: int|
            0 <= i < j < docs.len() ==> text_lt(
                (#[trigger] docs[i]).mnemonic,
                (#[trigger] docs[j]).mnemonic,
            )
        &&& forall|i: int|
            0 <= i < docs.len() ==> {
                &&& self.has_mnemonic((#[trigger] docs[i]).mnemonic)
                &&& self.exportable(self.row(docs[i].mnemonic), tags)
                &&& docs[i] == self.exported(self.row(docs[i].mnemonic))
            }
        &&& forall|m: Seq<char>|
            self.has_mnemonic(m) && self.exportable(self.row(m), tags) ==> exists|i: int|
                0 <= i < docs.len() && (#[trigger] docs[i]).mnemonic == m
    }
}

/// The views of a sequence of documents, element by element.
pub open spec fn exported_views(docs: Seq<ExportedMemory>) -> Seq<ExportedView> {
    docs.map_values(|d: ExportedMemory| d@)
}

impl MemoryStore {
    /// The links that start at the row `id`, as a document shows them.
    fn exported_links(&self, id: i64) -> (links: Vec<ExportedLink>)
        requires
            self.wf(),
        ensures
            exported_link_views(links@) == self@.edges.filter(leaves(id)).map_values(
                self@.link_exporter(),
            ),
    {
        let mut out: Vec<ExportedLink> = Vec::new();
        let mut i: usize = 0;
        let ghost edges = self@.edges;
        let ghost starts = leaves(id);
        let ghost show = self@.link_exporter();
        proof {
            reveal(Seq::filter);
            assert(edges.take(0) =~= Seq::empty());
            assert(exported_link_views(out@) =~= edges.take(0).filter(starts).map_values(show));
        }
        while i < self.links.len()
            invariant
                i <= self.links.len(),
                self.wf(),
                edges == self@.edges,
                starts == leaves(id),
                show == self@.link_exporter(),
                exported_link_views(out@) == edges.take(i as int).filter(starts).map_values(show),
            decreases self.links.len() - i,
        {
            let e = self.links[i];
            proof {
                assert(edges.take(i + 1) =~= edges.take(i as int).push(e));
                edges.take(i as int).lemma_filter_push(e, starts);
                assert(self@.edge_ok(edges[i as int]));
            }
            if e.source == id {
                let ghost before = exported_link_views(out@);
                match self.find_id(e.target) {
                    Some(t) => {
                        let link = ExportedLink {
                            target: self.rows[t].uuid.clone(),
                            link_type: e.kind.as_string(),
                        };
                        assert(self@.rows[t as int].uuid == self.rows@[t as int].uuid@);
                        assert(link@ == show(e));
                        out.push(link);
                    },
                    None => {
                        assert(false);
                    },
                }
                assert(exported_link_views(out@) =~= before.push(show(e)));
                assert(edges.take(i as int).filter(starts).push(e).map_values(show)
                    =~= before.push(show(e)));
            }
            i += 1;
        }
        assert(edges.take(self.links.len() as int) =~= edges);
        out
    }

    /// The documents of the rows that are exported, in the order of the rows.
    fn export_rows(&self, tags: Option<&Vec<String>>) -> (out: (
        Vec<ExportedMemory>,
        Ghost<Seq<int>>,
    ))
        requires
            self.wf(),
        ensures
            self@.drawn_from(exported_views(out.0@), out.1@, chosen(tags)),
    {
        let ghost rows = self@.rows;
        let ghost want = chosen(tags);
        let mut out: Vec<ExportedMemory> = Vec::new();
        let ghost mut src: Seq<int> = Seq::empty();
        let ghost pick = self@.exporting(want);
        let mut i: usize = 0;
        proof {
            reveal(Seq::filter);
            assert(rows.take(0) =~= Seq::empty());
        }
        while i < self.rows.len()
            invariant
                i <= self.rows.len(),
                self.wf(),
                rows == self@.rows,
                want == chosen(tags),
                pick == self@.exporting(want),
                src.len() == out.len(),
                src.len() == rows.take(i as int).filter(pick).len(),
                forall|a: int|
                    0 <= a < src.len() ==> {
                        &&& 0 <= (#[trigger] src[a]) < i
                        &&& self@.exportable(rows[src[a]], want)
                        &&& out@[a]@ == self@.exported(rows[src[a]])
                    },
                forall|a: int, b: int|
                    0 <= a < b < src.len() ==> (#[trigger] src[a]) < (#[trigger] src[b]),
                forall|k: int|
                    0 <= k < i && self@.exportable(#[trigger] rows[k], want) ==> src.contains(k),
            decreases self.rows.len() - i,
        {
            let r = &self.rows[i];
            assert(rows[i as int] == r@);
            proof {
                assert(rows.take(i + 1) =~= rows.take(i as int).push(rows[i as int]));
                rows.take(i as int).lemma_filter_push(rows[i as int], pick);
            }
            let wanted = match tags {
                Some(t) => any_shared_tag(&r.tags, t),
                None => true,
            };
            if wanted {
                let name = slugify(r.mnemonic.as_str());
                let doc = ExportedMemory {
                    filename: concat(name.as_str(), ".md"),
                    uuid: r.uuid.clone(),
                    mnemonic: r.mnemonic.clone(),
                    tags: copy_tags(&r.tags),
                    links: self.exported_links(r.id),
                    content: r.content.clone(),
                };
                assert(doc@ == self@.exported(rows[i as int]));
                let ghost before = src;
                out.push(doc);
                proof {
                    src = src.push(i as int);
                    assert(src[before.len() as int] == i);
                    assert forall|k: int|
                        0 <= k < i + 1 && self@.exportable(
                            #[trigger] rows[k],
                            want,
                        ) implies src.contains(k) by {
                        if k < i {
                            assert(before.contains(k));
                            let a = choose|a: int| 0 <= a < before.len() && before[a] == k;
                            assert(src[a] == k);
                        }
                    }
                }
            }
            i += 1;
        }
        proof {
            let docs = exported_views(out@);
            assert(rows.take(self.rows.len() as int) =~= rows);
            assert forall|a: int| 0 <= a < src.len() implies {
                &&& 0 <= (#[trigger] src[a]) < rows.len()
                &&& self@.exportable(rows[src[a]], want)
                &&& docs[a] == self@.exported(rows[src[a]])
            } by {}
        }
        (out, Ghost(src))
    }

    /// The memories of the store as documents, in the order of their
    /// mnemonics. With `tags`, only the memories that have one of them.
    pub fn export(&self, tags: Option<&Vec<String>>) -> (docs: Vec<ExportedMemory>)
        requires
            self.wf(),
        ensures
            self@.is_export(exported_views(docs@), chosen(tags)),
    {
        let ghost rows = self@.rows;
        let ghost want = chosen(tags);
        let (out, Ghost(src)) = self.export_rows(tags);
        let ghost unsorted = out@;
        let sorted = rank(out);
        proof {
            let docs = exported_views(sorted@);
            let given = exported_views(unsorted);
            assert forall|a: int, b: int|
                0 <= a < unsorted.len() && 0 <= b < unsorted.len() && a != b implies (
            #[trigger] given[a]).mnemonic != (#[trigger] given[b]).mnemonic by {
                if a < b {
                    assert(src[a] < src[b]);
                    assert(rows[src[a]].mnemonic != rows[src[b]].mnemonic);
                } else {
                    assert(src[b] < src[a]);
                    assert(rows[src[b]].mnemonic != rows[src[a]].mnemonic);
                }
            }
            assert(unsorted.no_duplicates()) by {
                assert forall|a: int, b: int|
                    0 <= a < unsorted.len() && 0 <= b < unsorted.len() && a != b implies unsorted[a]
                    != unsorted[b] by {
                    assert(given[a].mnemonic != given[b].mnemonic);
                }
            }
            lemma_same_entries(unsorted, sorted@);
            assert forall|a: int| 0 <= a < docs.len() implies {
                &&& self@.has_mnemonic((#[trigger] docs[a]).mnemonic)
                &&& self@.exportable(self@.row(docs[a].mnemonic), want)
                &&& docs[a] == self@.exported(self@.row(docs[a].mnemonic))
            } by {
                assert(unsorted.contains(sorted@[a]));
                let u = choose|u: int| 0 <= u < unsorted.len() && unsorted[u] == sorted@[a];
                assert(given[u] == docs[a]);
                let k = src[u];
                self@.lemma_position(rows[k].mnemonic, k);
            }
            assert forall|a: int, b: int| 0 <= a < b < docs.len() implies text_lt(
                (#[trigger] docs[a]).mnemonic,
                (#[trigger] docs[b]).mnemonic,
            ) by {
                assert(!sorted@[b].ahead(&sorted@[a]));
                assert(sorted@[a] != sorted@[b]);
                assert(unsorted.contains(sorted@[a]));
                assert(unsorted.contains(sorted@[b]));
                let u = choose|u: int| 0 <= u < unsorted.len() && unsorted[u] == sorted@[a];
                let v = choose|v: int| 0 <= v < unsorted.len() && unsorted[v] == sorted@[b];
                assert(given[u].mnemonic != given[v].mnemonic);
                lemma_text_lt_total(docs[a].mnemonic, docs[b].mnemonic);
            }
            assert forall|m: Seq<char>|
                self@.has_mnemonic(m) && self@.exportable(self@.row(m), want) implies exists|
                a: int,
            |
                0 <= a < docs.len() && (#[trigger] docs[a]).mnemonic == m by {
                let k = self@.position(m);
                assert(self@.exportable(rows[k], want));
                assert(src.contains(k));
                let u = choose|u: int| 0 <= u < src.len() && src[u] == k;
                assert(given[u].mnemonic == m);
                assert(sorted@.contains(unsorted[u]));
                let a = choose|a: int| 0 <= a < sorted@.len() && sorted@[a] == unsorted[u];
                assert(docs[a].mnemonic == m);
            }
        }
        sorted
    }
}

} // verus!
