//! The store as it is kept: rows and links as text and numbers, from which a
//! store is opened.

use vstd::prelude::*;
use crate::model::{Edge, LinkType, MemoryRow, RowView, StoreError, row_views, EMBED_BYTES};
use crate::store::{MemoryStore, StoreView, copy_bytes, same_triple};
use crate::text::texts;

verus! {

/// The error of `serde_json`.
#[verifier::external_type_specification]
#[verifier::external_body]
pub struct ExJsonError(serde_json::Error);

/// What `serde_json::to_string` makes of a list of strings: a JSON array of
/// strings.
pub uninterp spec fn tags_json(tags: Seq<Seq<char>>) -> Seq<char>;

/// What `serde_json::from_str` reads from a text as a list of strings, or
/// `None` where the text is no JSON array of strings.
pub uninterp spec fn json_tags(json: Seq<char>) -> Option<Seq<Seq<char>>>;

/// What `chrono::NaiveDateTime::parse_from_str` reads from a text of the
/// form `YYYY-MM-DD HH:MM:SS`, as seconds since 1970 in UTC, or `None` where
/// the text has not that form.
pub uninterp spec fn datetime_seconds(text: Seq<char>) -> Option<i64>;

/// `serde_json::to_string` on a list of strings. It succeeds: a list of
/// strings has no part that refuses to be written, and the text is written
/// into memory. The result depends on the list alone.
#[verifier::external_body]
fn encode_tags(tags: &Vec<String>) -> (json: Result<String, serde_json::Error>)
    ensures
        json is Ok,
        json->Ok_0@ == tags_json(texts(tags@)),
{
    serde_json::to_string(tags)
}

/// `serde_json::from_str` for a list of strings. The result depends on the
/// text alone; a text that cannot be read gives `None`.
#[verifier::external_body]
fn decode_tags(json: &str) -> (tags: Option<Vec<String>>)
    ensures
        match tags {
            Some(t) => json_tags(json@) == Some(texts(t@)),
            None => json_tags(json@) is None,
        },
{
    match serde_json::from_str::<Vec<String>>(json) {
        Ok(tags) => Some(tags),
        Err(_) => None,
    }
}

/// `chrono::NaiveDateTime::parse_from_str` with the format
/// `%Y-%m-%d %H:%M:%S`, the result read as UTC and given as seconds since
/// 1970. The result depends on the text alone; a text of another form gives
/// `None`.
#[verifier::external_body]
fn decode_datetime(text: &str) -> (seconds: Option<i64>)
    ensures
        seconds == datetime_seconds(text@),
{
    match chrono::NaiveDateTime::parse_from_str(text, "%Y-%m-%d %H:%M:%S") {
        Ok(naive) => Some(naive.and_utc().timestamp()),
        Err(_) => None,
    }
}

/// The tags that a stored text stands for: what it reads as, and none where
/// it cannot be read.
pub open spec fn stored_tags(json: Seq<char>) -> Seq<Seq<char>> {
    match json_tags(json) {
        Some(tags) => tags,
        None => Seq::empty(),
    }
}

/// The time that a stored text stands for: what it reads as, and the start
/// of 1970 where it cannot be read.
pub open spec fn stored_time(text: Seq<char>) -> i64 {
    match datetime_seconds(text) {
        Some(seconds) => seconds,
        None => 0,
    }
}

/// The tags as they are stored: a JSON array of strings.
pub fn tags_to_json(tags: &Vec<String>) -> (json: String)
    ensures
        json@ == tags_json(texts(tags@)),
{
    match encode_tags(tags) {
        Ok(text) => text,
        Err(_) => {
            proof {
                assert(false);
            }
            String::new()
        },
    }
}

/// The tags that a stored text stands for.
pub fn tags_from_json(json: &str) -> (tags: Vec<String>)
    ensures
        texts(tags@) == stored_tags(json@),
{
    match decode_tags(json) {
        Some(tags) => tags,
        None => {
            let none: Vec<String> = Vec::new();
            assert(texts(none@) =~= Seq::empty());
            none
        },
    }
}

/// The time that a stored text stands for, in seconds since 1970.
pub fn parse_sqlite_datetime(text: &str) -> (seconds: i64)
    ensures
        seconds == stored_time(text@),
{
    match decode_datetime(text) {
        Some(seconds) => seconds,
        None => 0,
    }
}

/// A row as it is kept: tags as a JSON array, times as text.
#[derive(Debug)]
pub struct StoredRow {
    pub id: i64,
    pub uuid: String,
    pub mnemonic: String,
    pub content: String,
    pub tags: String,
    pub embedding: Vec<u8>,
    pub created_at: String,
    pub updated_at: String,
    pub recall_count: i64,
    pub last_recalled_at: Option<String>,
    pub useful_count: i64,
    pub not_useful_count: i64,
}

/// The mathematical value of a `StoredRow`.
pub ghost struct StoredRowView {
    pub id: i64,
    pub uuid: Seq<char>,
    pub mnemonic: Seq<char>,
    pub content: Seq<char>,
    pub tags: Seq<char>,
    pub embedding: Seq<u8>,
    pub created_at: Seq<char>,
    pub updated_at: Seq<char>,
    pub recall_count: i64,
    pub last_recalled_at: Option<Seq<char>>,
    pub useful_count: i64,
    pub not_useful_count: i64,
}

impl View for StoredRow {
    type V = StoredRowView;

    open spec fn view(&self) -> StoredRowView {
        StoredRowView {
            id: self.id,
            uuid: self.uuid@,
            mnemonic: self.mnemonic@,
            content: self.content@,
            tags: self.tags@,
            embedding: self.embedding@,
            created_at: self.created_at@,
            updated_at: self.updated_at@,
            recall_count: self.recall_count,
            last_recalled_at: match self.last_recalled_at {
                Some(t) => Some(t@),
                None => None,
            },
            useful_count: self.useful_count,
            not_useful_count: self.not_useful_count,
        }
    }
}

/// A link as it is kept: its type by name, its time as text.
#[derive(Debug)]
pub struct StoredLink {
    pub source_id: i64,
    pub target_id: i64,
    pub link_type: String,
    pub created_at: String,
}

/// The mathematical value of a `StoredLink`.
pub ghost struct StoredLinkView {
    pub source_id: i64,
    pub target_id: i64,
    pub link_type: Seq<char>,
    pub created_at: Seq<char>,
}

impl View for StoredLink {
    type V = StoredLinkView;

    open spec fn view(&self) -> StoredLinkView {
        StoredLinkView {
            source_id: self.source_id,
            target_id: self.target_id,
            link_type: self.link_type@,
            created_at: self.created_at@,
        }
    }
}

/// The views of a sequence of stored rows, element by element.
pub open spec fn stored_row_views(rows: Seq<StoredRow>) -> Seq<StoredRowView> {
    rows.map_values(|r: StoredRow| r@)
}

/// The views of a sequence of stored links, element by element.
pub open spec fn stored_link_views(links: Seq<StoredLink>) -> Seq<StoredLinkView> {
    links.map_values(|l: StoredLink| l@)
}

/// The row that a stored row stands for.
pub open spec fn read_row(r: StoredRowView) -> RowView {
    RowView {
        id: r.id,
        uuid: r.uuid,
        mnemonic: r.mnemonic,
        content: r.content,
        tags: stored_tags(r.tags),
        embedding: r.embedding,
        created_at: stored_time(r.created_at),
        updated_at: stored_time(r.updated_at),
        recall_count: r.recall_count,
        last_recalled_at: match r.last_recalled_at {
            Some(t) => Some(stored_time(t)),
            None => None,
        },
        useful_count: r.useful_count,
        not_useful_count: r.not_useful_count,
    }
}

/// The link that a stored link stands for, if its type has a known name.
pub open spec fn read_link(l: StoredLinkView) -> Option<Edge> {
    match LinkType::named(l.link_type) {
        Some(kind) => Some(
            Edge {
                source: l.source_id,
                target: l.target_id,
                kind,
                created_at: stored_time(l.created_at),
            },
        ),
        None => None,
    }
}

/// The identifier for the next new row of a store with these rows: one
/// more than the last one given out.
pub open spec fn next_after(rows: Seq<RowView>) -> i64 {
    if rows.len() == 0 {
        1
    } else if rows.last().id < i64::MAX {
        (rows.last().id + 1) as i64
    } else {
        i64::MAX
    }
}

/// The store that stored rows and links stand for.
pub open spec fn opened(rows: Seq<StoredRowView>, links: Seq<StoredLinkView>) -> StoreView {
    StoreView {
        rows: rows.map_values(|r: StoredRowView| read_row(r)),
        edges: links.map_values(|l: StoredLinkView| read_link(l)->0),
        next_id: next_after(rows.map_values(|r: StoredRowView| read_row(r))),
        boost_tags: Seq::empty(),
    }
}

/// Whether stored rows and links are the content of a store: every link
/// type has a known name, and the store that they stand for is well formed.
pub open spec fn can_open(rows: Seq<StoredRowView>, links: Seq<StoredLinkView>) -> bool {
    &&& forall|i: int| 0 <= i < links.len() ==> read_link(#[trigger] links[i]) is Some
    &&& opened(rows, links).wf()
}

impl MemoryStore {
    /// The rows of the store, oldest first.
    pub fn rows(&self) -> (rows: &Vec<MemoryRow>)
        ensures
            row_views(rows@) == self@.rows,
    {
        &self.rows
    }

    /// The links of the store, oldest first.
    pub fn links(&self) -> (links: &Vec<Edge>)
        ensures
            links@ == self@.edges,
    {
        &self.links
    }

    /// Whether a row has the identifier `id`.
    fn knows_id(&self, id: i64) -> (known: bool)
        ensures
            known == self@.has_id(id),
    {
        let mut i: usize = 0;
        while i < self.rows.len()
            invariant
                i <= self.rows.len(),
                forall|j: int| 0 <= j < i ==> (#[trigger] self@.rows[j]).id != id,
            decreases self.rows.len() - i,
        {
            if self.rows[i].id == id {
                assert(self@.rows[i as int].id == id);
                return true;
            }
            i += 1;
        }
        false
    }

    /// Whether the rows are as the invariant of the store asks.
    fn rows_hold(&self) -> (good: bool)
        ensures
            good == {
                &&& forall|i: int|
                    0 <= i < self@.rows.len() ==> self@.row_ok(#[trigger] self@.rows[i])
                &&& forall|i: int, j: int|
                    0 <= i < j < self@.rows.len() ==> {
                        &&& (#[trigger] self@.rows[i]).id < (#[trigger] self@.rows[j]).id
                        &&& self@.rows[i].mnemonic != self@.rows[j].mnemonic
                        &&& self@.rows[i].uuid != self@.rows[j].uuid
                    }
            },
    {
        let ghost rows = self@.rows;
        let mut i: usize = 0;
        while i < self.rows.len()
            invariant
                i <= self.rows.len(),
                rows == self@.rows,
                forall|a: int| 0 <= a < i ==> self@.row_ok(#[trigger] rows[a]),
                forall|a: int, b: int|
                    0 <= a < b < i ==> {
                        &&& (#[trigger] rows[a]).id < (#[trigger] rows[b]).id
                        &&& rows[a].mnemonic != rows[b].mnemonic
                        &&& rows[a].uuid != rows[b].uuid
                    },
            decreases self.rows.len() - i,
        {
            let r = &self.rows[i];
            assert(rows[i as int] == r@);
            if r.id < 1 || r.id >= self.next_id || r.embedding.len() != EMBED_BYTES
                || r.recall_count < 0 || r.useful_count < 0 || r.not_useful_count < 0 {
                assert(!self@.row_ok(rows[i as int]));
                return false;
            }
            if i > 0 && self.rows[i - 1].id >= r.id {
                assert(!(rows[i - 1].id < rows[i as int].id));
                return false;
            }
            let mut j: usize = 0;
            while j < i
                invariant
                    j <= i,
                    i < self.rows.len(),
                    rows == self@.rows,
                    r == &self.rows@[i as int],
                    forall|a: int|
                        0 <= a < j ==> (#[trigger] rows[a]).mnemonic != rows[i as int].mnemonic
                            && rows[a].uuid != rows[i as int].uuid,
                decreases i - j,
            {
                let other = &self.rows[j];
                assert(rows[j as int] == other@);
                if other.mnemonic == r.mnemonic || other.uuid == r.uuid {
                    assert(rows[j as int].mnemonic == rows[i as int].mnemonic || rows[j as int].uuid
                        == rows[i as int].uuid);
                    return false;
                }
                j += 1;
            }
            proof {
                assert forall|a: int| 0 <= a < i implies (#[trigger] rows[a]).id < rows[i as int].id by {
                    if a < i - 1 {
                        assert(rows[a].id < rows[i - 1].id);
                    }
                }
            }
            i += 1;
        }
        true
    }

    /// Whether the links are as the invariant of the store asks.
    fn links_hold(&self) -> (good: bool)
        ensures
            good == {
                &&& forall|i: int|
                    0 <= i < self@.edges.len() ==> self@.edge_ok(#[trigger] self@.edges[i])
                &&& forall|i: int, j: int|
                    0 <= i < j < self@.edges.len() ==> !same_triple(
                        #[trigger] self@.edges[i],
                        #[trigger] self@.edges[j],
                    )
            },
    {
        let ghost edges = self@.edges;
        let mut i: usize = 0;
        while i < self.links.len()
            invariant
                i <= self.links.len(),
                edges == self@.edges,
                forall|a: int| 0 <= a < i ==> self@.edge_ok(#[trigger] edges[a]),
                forall|a: int, b: int|
                    0 <= a < b < i ==> !same_triple(#[trigger] edges[a], #[trigger] edges[b]),
            decreases self.links.len() - i,
        {
            let e = self.links[i];
            if e.source == e.target || !self.knows_id(e.source) || !self.knows_id(e.target) {
                assert(!self@.edge_ok(edges[i as int]));
                return false;
            }
            let mut j: usize = 0;
            while j < i
                invariant
                    j <= i,
                    i < self.links.len(),
                    edges == self@.edges,
                    e == edges[i as int],
                    forall|a: int| 0 <= a < j ==> !same_triple(#[trigger] edges[a], e),
                decreases i - j,
            {
                let other = self.links[j];
                if other.source == e.source && other.target == e.target && other.kind == e.kind {
                    assert(same_triple(edges[j as int], edges[i as int]));
                    return false;
                }
                j += 1;
            }
            i += 1;
        }
        true
    }

    /// Whether the invariant of the store holds.
    pub fn check(&self) -> (good: bool)
        ensures
            good == self.wf(),
    {
        self.next_id >= 1 && self.rows_hold() && self.links_hold()
    }

    /// Opens a store over what is kept of it. The rows and links must be the
    /// content of a store, rows in the order of their identifiers: else the
    /// answer is `Corrupt`.
    pub fn new(rows: Vec<StoredRow>, links: Vec<StoredLink>) -> (opened_store: Result<
        MemoryStore,
        StoreError,
    >)
        ensures
            match opened_store {
                Ok(store) => {
                    &&& can_open(stored_row_views(rows@), stored_link_views(links@))
                    &&& store@ == opened(stored_row_views(rows@), stored_link_views(links@))
                    &&& store.wf()
                },
                Err(e) => {
                    &&& e == StoreError::Corrupt
                    &&& !can_open(stored_row_views(rows@), stored_link_views(links@))
                },
            },
    {
        let ghost given_rows = stored_row_views(rows@);
        let ghost given_links = stored_link_views(links@);
        let ghost read = |r: StoredRowView| read_row(r);
        let mut kept: Vec<MemoryRow> = Vec::new();
        let mut i: usize = 0;
        assert(row_views(kept@) =~= given_rows.take(0).map_values(read));
        while i < rows.len()
            invariant
                i <= rows.len(),
                given_rows == stored_row_views(rows@),
                read == (|r: StoredRowView| read_row(r)),
                row_views(kept@) == given_rows.take(i as int).map_values(read),
            decreases rows.len() - i,
        {
            let r = &rows[i];
            let last_recalled_at = match &r.last_recalled_at {
                Some(t) => Some(parse_sqlite_datetime(t.as_str())),
                None => None,
            };
            let row = MemoryRow {
                id: r.id,
                uuid: r.uuid.clone(),
                mnemonic: r.mnemonic.clone(),
                content: r.content.clone(),
                tags: tags_from_json(r.tags.as_str()),
                embedding: copy_bytes(&r.embedding),
                created_at: parse_sqlite_datetime(r.created_at.as_str()),
                updated_at: parse_sqlite_datetime(r.updated_at.as_str()),
                recall_count: r.recall_count,
                last_recalled_at,
                useful_count: r.useful_count,
                not_useful_count: r.not_useful_count,
            };
            assert(row@ == read_row(r@));
            let ghost before = row_views(kept@);
            kept.push(row);
            assert(row_views(kept@) =~= before.push(read_row(r@)));
            assert(given_rows.take(i + 1).map_values(read) =~= before.push(read_row(r@)));
            i += 1;
        }
        assert(given_rows.take(rows.len() as int) =~= given_rows);
        let mut edges: Vec<Edge> = Vec::new();
        let mut j: usize = 0;
        while j < links.len()
            invariant
                j <= links.len(),
                given_links == stored_link_views(links@),
                edges.len() == j,
                forall|a: int|
                    0 <= a < j ==> read_link(#[trigger] given_links[a]) == Some(edges@[a]),
            decreases links.len() - j,
        {
            let l = &links[j];
            assert(given_links[j as int] == l@);
            let kind = match LinkType::parse(l.link_type.as_str()) {
                Some(kind) => kind,
                None => {
                    assert(read_link(given_links[j as int]) is None);
                    return Err(StoreError::Corrupt);
                },
            };
            edges.push(
                Edge {
                    source: l.source_id,
                    target: l.target_id,
                    kind,
                    created_at: parse_sqlite_datetime(l.created_at.as_str()),
                },
            );
            j += 1;
        }
        let next_id: i64 = if kept.len() == 0 {
            1
        } else {
            let last: i64 = kept[kept.len() - 1].id;
            if last < i64::MAX {
                last + 1
            } else {
                i64::MAX
            }
        };
        let store = MemoryStore { rows: kept, links: edges, next_id, boost_tags: Vec::new() };
        proof {
            let goal = opened(given_rows, given_links);
            assert(store@.boost_tags =~= goal.boost_tags);
            assert(store@.edges =~= goal.edges);
            assert(store@.rows == goal.rows);
            if store@.rows.len() > 0 {
                assert(store@.rows.last().id == store.rows@[store.rows.len() - 1].id);
            }
            assert(store@ == goal);
        }
        if store.check() {
            Ok(store)
        } else {
            Err(StoreError::Corrupt)
        }
    }
}

} // verus!
