//! The data the store holds and hands out, and their mathematical views.

use vstd::prelude::*;
use crate::text::texts;

verus! {

/// Number of components of an embedding.
pub const EMBED_DIM: usize = 384;

/// Number of bytes of an embedding: four per component, little-endian.
pub const EMBED_BYTES: usize = 1536;

/// One unit of distance or of score, in the millionths that both are counted in.
pub const UNIT: u64 = 1_000_000;

/// A neighbour closer than this is reported and linked when a memory is written.
pub const AUTO_LINK_THRESHOLD: u64 = 300_000;

/// How many neighbours, besides the memory itself, the write looks at.
pub const AUTO_LINK_MAX_NEIGHBORS: usize = 5;

/// A neighbour closer than this is merged into the memory being written.
pub const AUTO_MERGE_THRESHOLD: u64 = 150_000;

/// What a link says of its source with respect to its target.
#[derive(Clone, Copy, Debug, PartialEq, Eq, Structural)]
pub enum LinkType {
    Related,
    Supersedes,
    DerivedFrom,
}

/// Why an operation did not take place. The store is left as it was.
#[derive(Clone, Copy, Debug, PartialEq, Eq, Structural)]
pub enum StoreError {
    /// A mnemonic that the operation names is not in the store.
    NotFound,
    /// The mnemonic asked for belongs to another memory.
    MnemonicTaken,
    /// The identifier offered for a new memory belongs to another memory.
    UuidTaken,
    /// An edit that changes nothing.
    EmptyEdit,
    /// A rename without the embedding of the new mnemonic.
    EmbeddingRequired,
    /// An embedding that is not `EMBED_BYTES` long.
    BadEmbedding,
    /// A link type other than `related`, `supersedes` and `derived_from`.
    UnknownLinkType,
    /// One memory where the operation needs two: a link from a memory to
    /// itself, or a merge of a memory into itself.
    SameMemory,
    /// No row identifier is left.
    Full,
    /// Rows or links that cannot be the content of a store.
    Corrupt,
    /// A rating that names no memory, or that says neither useful nor not
    /// useful.
    EmptyRating,
}

/// A directed, typed link between two rows, by their identifiers.
#[derive(Clone, Copy, Debug, PartialEq, Eq, Structural)]
pub struct Edge {
    pub source: i64,
    pub target: i64,
    pub kind: LinkType,
    pub created_at: i64,
}

/// One answer of the vector index: a row and its distance from the query, in
/// millionths.
#[derive(Clone, Copy, Debug, PartialEq, Eq, Structural)]
pub struct Neighbor {
    pub memory_id: i64,
    pub distance: u64,
}

/// A memory as the store keeps it.
#[derive(Debug)]
pub struct MemoryRow {
    pub id: i64,
    pub uuid: String,
    pub mnemonic: String,
    pub content: String,
    pub tags: Vec<String>,
    pub embedding: Vec<u8>,
    pub created_at: i64,
    pub updated_at: i64,
    pub recall_count: i64,
    pub last_recalled_at: Option<i64>,
    pub useful_count: i64,
    pub not_useful_count: i64,
}

/// The mathematical value of a `MemoryRow`.
pub ghost struct RowView {
    pub id: i64,
    pub uuid: Seq<char>,
    pub mnemonic: Seq<char>,
    pub content: Seq<char>,
    pub tags: Seq<Seq<char>>,
    pub embedding: Seq<u8>,
    pub created_at: i64,
    pub updated_at: i64,
    pub recall_count: i64,
    pub last_recalled_at: Option<i64>,
    pub useful_count: i64,
    pub not_useful_count: i64,
}

impl View for MemoryRow {
    type V = RowView;

    open spec fn view(&self) -> RowView {
        RowView {
            id: self.id,
            uuid: self.uuid@,
            mnemonic: self.mnemonic@,
            content: self.content@,
            tags: texts(self.tags@),
            embedding: self.embedding@,
            created_at: self.created_at,
            updated_at: self.updated_at,
            recall_count: self.recall_count,
            last_recalled_at: self.last_recalled_at,
            useful_count: self.useful_count,
            not_useful_count: self.not_useful_count,
        }
    }
}

/// The views of a sequence of rows, element by element.
pub open spec fn row_views(rows: Seq<MemoryRow>) -> Seq<RowView> {
    rows.map_values(|r: MemoryRow| r@)
}

/// A link as it is handed out: by the mnemonics of its two ends.
#[derive(Debug)]
pub struct MemoryLink {
    pub source_mnemonic: String,
    pub target_mnemonic: String,
    pub link_type: String,
    pub created_at: i64,
}

/// The mathematical value of a `MemoryLink`.
pub ghost struct LinkView {
    pub source_mnemonic: Seq<char>,
    pub target_mnemonic: Seq<char>,
    pub link_type: Seq<char>,
    pub created_at: i64,
}

impl View for MemoryLink {
    type V = LinkView;

    open spec fn view(&self) -> LinkView {
        LinkView {
            source_mnemonic: self.source_mnemonic@,
            target_mnemonic: self.target_mnemonic@,
            link_type: self.link_type@,
            created_at: self.created_at,
        }
    }
}

/// The views of a sequence of links, element by element.
pub open spec fn link_views(links: Seq<MemoryLink>) -> Seq<LinkView> {
    links.map_values(|l: MemoryLink| l@)
}

/// A memory as recall hands it out: the row, its distance from the query
/// and its score, both in millionths, and its links.
#[derive(Debug)]
pub struct Memory {
    pub mnemonic: String,
    pub content: String,
    pub tags: Vec<String>,
    pub distance: u64,
    pub score: i64,
    pub created_at: i64,
    pub updated_at: i64,
    pub recall_count: i64,
    pub last_recalled_at: Option<i64>,
    pub useful_count: i64,
    pub not_useful_count: i64,
    pub links: Vec<MemoryLink>,
}

/// The mathematical value of a `Memory`.
pub ghost struct MemoryView {
    pub mnemonic: Seq<char>,
    pub content: Seq<char>,
    pub tags: Seq<Seq<char>>,
    pub distance: u64,
    pub score: i64,
    pub created_at: i64,
    pub updated_at: i64,
    pub recall_count: i64,
    pub last_recalled_at: Option<i64>,
    pub useful_count: i64,
    pub not_useful_count: i64,
    pub links: Seq<LinkView>,
}

impl View for Memory {
    type V = MemoryView;

    open spec fn view(&self) -> MemoryView {
        MemoryView {
            mnemonic: self.mnemonic@,
            content: self.content@,
            tags: texts(self.tags@),
            distance: self.distance,
            score: self.score,
            created_at: self.created_at,
            updated_at: self.updated_at,
            recall_count: self.recall_count,
            last_recalled_at: self.last_recalled_at,
            useful_count: self.useful_count,
            not_useful_count: self.not_useful_count,
            links: link_views(self.links@),
        }
    }
}

/// The views of a sequence of memories, element by element.
pub open spec fn memory_views(memories: Seq<Memory>) -> Seq<MemoryView> {
    memories.map_values(|m: Memory| m@)
}

/// A memory in the list of all memories.
#[derive(Debug)]
pub struct MemorySummary {
    pub mnemonic: String,
    pub content: String,
    pub tags: Vec<String>,
    pub recall_count: i64,
    pub useful_count: i64,
    pub not_useful_count: i64,
}

/// The mathematical value of a `MemorySummary`.
pub ghost struct SummaryView {
    pub mnemonic: Seq<char>,
    pub content: Seq<char>,
    pub tags: Seq<Seq<char>>,
    pub recall_count: i64,
    pub useful_count: i64,
    pub not_useful_count: i64,
}

impl View for MemorySummary {
    type V = SummaryView;

    open spec fn view(&self) -> SummaryView {
        SummaryView {
            mnemonic: self.mnemonic@,
            content: self.content@,
            tags: texts(self.tags@),
            recall_count: self.recall_count,
            useful_count: self.useful_count,
            not_useful_count: self.not_useful_count,
        }
    }
}

/// The views of a sequence of summaries, element by element.
pub open spec fn summary_views(summaries: Seq<MemorySummary>) -> Seq<SummaryView> {
    summaries.map_values(|s: MemorySummary| s@)
}

/// A tag and how often it occurs.
#[derive(Debug)]
pub struct TagCount {
    pub tag: String,
    pub count: i64,
}

/// A memory that could be merged into another.
#[derive(Debug)]
pub struct MergeCandidate {
    pub mnemonic: String,
    pub content: String,
    pub tags: Vec<String>,
    pub distance: u64,
    pub recall_count: i64,
}

/// The mathematical value of a `MergeCandidate`.
pub ghost struct MergeCandidateView {
    pub mnemonic: Seq<char>,
    pub content: Seq<char>,
    pub tags: Seq<Seq<char>>,
    pub distance: u64,
    pub recall_count: i64,
}

impl View for MergeCandidate {
    type V = MergeCandidateView;

    open spec fn view(&self) -> MergeCandidateView {
        MergeCandidateView {
            mnemonic: self.mnemonic@,
            content: self.content@,
            tags: texts(self.tags@),
            distance: self.distance,
            recall_count: self.recall_count,
        }
    }
}

/// The views of a sequence of merge candidates, element by element.
pub open spec fn merge_candidate_views(candidates: Seq<MergeCandidate>) -> Seq<MergeCandidateView> {
    candidates.map_values(|c: MergeCandidate| c@)
}

/// What an edit did.
#[derive(Debug)]
pub struct EditResult {
    pub old_mnemonic: String,
    pub new_mnemonic: String,
    pub tags: Vec<String>,
    pub re_embedded: bool,
}

/// The mathematical value of an `EditResult`.
pub ghost struct EditView {
    pub old_mnemonic: Seq<char>,
    pub new_mnemonic: Seq<char>,
    pub tags: Seq<Seq<char>>,
    pub re_embedded: bool,
}

impl View for EditResult {
    type V = EditView;

    open spec fn view(&self) -> EditView {
        EditView {
            old_mnemonic: self.old_mnemonic@,
            new_mnemonic: self.new_mnemonic@,
            tags: texts(self.tags@),
            re_embedded: self.re_embedded,
        }
    }
}

/// A memory that lay near the one just written.
#[derive(Debug)]
pub struct MemorizeNeighbor {
    pub mnemonic: String,
    pub distance: u64,
    pub tags: Vec<String>,
}

/// The mathematical value of a `MemorizeNeighbor`.
pub ghost struct NeighborView {
    pub mnemonic: Seq<char>,
    pub distance: u64,
    pub tags: Seq<Seq<char>>,
}

impl View for MemorizeNeighbor {
    type V = NeighborView;

    open spec fn view(&self) -> NeighborView {
        NeighborView { mnemonic: self.mnemonic@, distance: self.distance, tags: texts(self.tags@) }
    }
}

/// The views of a sequence of neighbours, element by element.
pub open spec fn neighbor_views(neighbors: Seq<MemorizeNeighbor>) -> Seq<NeighborView> {
    neighbors.map_values(|n: MemorizeNeighbor| n@)
}

/// What writing a memory reports: the memory that was merged into it, if
/// one was, and the memories that lay near.
#[derive(Debug)]
pub struct MemorizeResult {
    pub merged_with: Option<String>,
    pub neighbors: Vec<MemorizeNeighbor>,
}

/// The mathematical value of a `MemorizeResult`.
pub ghost struct MemorizeView {
    pub merged_with: Option<Seq<char>>,
    pub neighbors: Seq<NeighborView>,
}

impl View for MemorizeResult {
    type V = MemorizeView;

    open spec fn view(&self) -> MemorizeView {
        MemorizeView {
            merged_with: match self.merged_with {
                Some(m) => Some(m@),
                None => None,
            },
            neighbors: neighbor_views(self.neighbors@),
        }
    }
}

impl LinkType {
    /// The name under which the link type is written.
    pub open spec fn name(self) -> Seq<char> {
        match self {
            LinkType::Related => "related"@,
            LinkType::Supersedes => "supersedes"@,
            LinkType::DerivedFrom => "derived_from"@,
        }
    }

    /// The link type written as `name`, if there is one.
    pub open spec fn named(name: Seq<char>) -> Option<LinkType> {
        if name == "related"@ {
            Some(LinkType::Related)
        } else if name == "supersedes"@ {
            Some(LinkType::Supersedes)
        } else if name == "derived_from"@ {
            Some(LinkType::DerivedFrom)
        } else {
            None
        }
    }

    /// The link type's name.
    pub fn as_string(self) -> (name: String)
        ensures
            name@ == self.name(),
    {
        match self {
            LinkType::Related => "related".to_owned(),
            LinkType::Supersedes => "supersedes".to_owned(),
            LinkType::DerivedFrom => "derived_from".to_owned(),
        }
    }

    /// Reads a link type from its name.
    pub fn parse(name: &str) -> (kind: Option<LinkType>)
        ensures
            kind == LinkType::named(name@),
    {
        let given = name.to_owned();
        if given == "related".to_owned() {
            Some(LinkType::Related)
        } else if given == "supersedes".to_owned() {
            Some(LinkType::Supersedes)
        } else if given == "derived_from".to_owned() {
            Some(LinkType::DerivedFrom)
        } else {
            None
        }
    }
}

/// A name is read back as the link type it was written from.
pub proof fn lemma_link_type_round_trip(kind: LinkType)
    ensures
        LinkType::named(kind.name()) == Some(kind),
{
    reveal_strlit("related");
    reveal_strlit("supersedes");
    reveal_strlit("derived_from");
    assert("related"@.len() == 7);
    assert("supersedes"@.len() == 10);
    assert("derived_from"@.len() == 12);
}

} // verus!
