//! Rows: the form in which fragments and edges are kept in a database.

use vstd::prelude::*;

use crate::edge::{Edge, EdgeId, EdgeKind};
#[allow(unused_imports)]
use crate::edge::EdgeView;
use crate::embedding::{bytes_to_embedding, embedding_to_bytes};
use crate::fixed::ONE;
use crate::fragment::{copy_text, Fragment, FragmentId, Metadata};
#[allow(unused_imports)]
use crate::fragment::FragmentView;
use crate::json::{json_strings, write_json_strings};

verus! {

/// A fragment as a row.
#[derive(Debug, PartialEq, Eq)]
pub struct FragmentRow {
    pub id: String,
    pub content: String,
    pub summary: String,
    pub depth: u32,
    pub embedding: Option<Vec<u8>>,
    pub created_at: i64,
    pub last_accessed: i64,
    pub access_count: u32,
    pub source_session: Option<String>,
    pub superseded_by: Option<String>,
    pub metadata: Option<String>,
    pub importance: Option<i64>,
    pub relevance_score: Option<i64>,
    pub decay_rate: Option<i64>,
    pub last_reinforced: Option<i64>,
}

/// An edge as a row.
#[derive(Debug, PartialEq, Eq)]
pub struct EdgeRow {
    pub id: String,
    pub source: String,
    pub target: String,
    pub kind: String,
    pub weight: i64,
    pub content: Option<String>,
    pub created_at: i64,
}

/// A row that cannot be read: the column holds no identifier.
#[derive(Debug, Clone, Copy, PartialEq, Eq, Structural)]
pub struct RowError {
    pub column: usize,
}

/// A number of a row, or what stands for a missing one.
pub open spec fn number_or(n: Option<i64>, default: i64) -> i64 {
    match n {
        Some(x) => x,
        None => default,
    }
}

/// The fragment that a row stands for. Only an identifier that cannot be read is
/// an error; other columns that are missing or cannot be read get their defaults.
pub open spec fn row_fragment(row: FragmentRow) -> Option<FragmentView> {
    match crate::fragment::uuid_parsed(row.id@) {
        Some(v) => Some(
            FragmentView {
                id: FragmentId(v),
                content: row.content@,
                summary: row.summary@,
                depth: row.depth,
                embedding: match row.embedding {
                    Some(b) => crate::embedding::bytes_embedding(b@),
                    None => Seq::empty(),
                },
                created_at: row.created_at,
                last_accessed: row.last_accessed,
                access_count: row.access_count,
                source_session: crate::fragment::text_view(row.source_session),
                superseded_by: match row.superseded_by {
                    Some(s) => match crate::fragment::uuid_parsed(s@) {
                        Some(u) => Some(FragmentId(u)),
                        None => None,
                    },
                    None => None,
                },
                metadata: match row.metadata {
                    Some(m) => match crate::json::json_strings_of(m@) {
                        Some(map) => map,
                        None => Map::empty(),
                    },
                    None => Map::empty(),
                },
                importance: number_or(row.importance, 500_000_000),
                relevance_score: number_or(row.relevance_score, ONE),
                decay_rate: number_or(row.decay_rate, 35_000_000),
                last_reinforced: number_or(row.last_reinforced, row.created_at),
            },
        ),
        None => None,
    }
}

/// The edge that a row stands for, or the column that cannot be read. A kind
/// that is not known counts as associative.
pub open spec fn row_edge(row: EdgeRow) -> Result<EdgeView, RowError> {
    match (
        crate::fragment::uuid_parsed(row.id@),
        crate::fragment::uuid_parsed(row.source@),
        crate::fragment::uuid_parsed(row.target@),
    ) {
        (Some(i), Some(s), Some(t)) => Ok(
            EdgeView {
                id: EdgeId(i),
                source: FragmentId(s),
                target: FragmentId(t),
                kind: named_kind(row.kind@),
                weight: row.weight,
                content: crate::fragment::text_view(row.content),
                created_at: row.created_at,
            },
        ),
        (None, _, _) => Err(RowError { column: 0 }),
        (_, None, _) => Err(RowError { column: 1 }),
        (_, _, None) => Err(RowError { column: 2 }),
    }
}

/// The kind with a name; associative where there is none.
pub open spec fn named_kind(name: Seq<char>) -> EdgeKind {
    if name == crate::edge::kind_name(EdgeKind::Hierarchical) {
        EdgeKind::Hierarchical
    } else if name == crate::edge::kind_name(EdgeKind::Temporal) {
        EdgeKind::Temporal
    } else if name == crate::edge::kind_name(EdgeKind::Supersedes) {
        EdgeKind::Supersedes
    } else {
        EdgeKind::Associative
    }
}

proof fn lemma_named_kind(kind: EdgeKind)
    ensures
        named_kind(crate::edge::kind_name(kind)) == kind,
{
    crate::edge::law_kind_names_differ(kind, EdgeKind::Hierarchical);
    crate::edge::law_kind_names_differ(kind, EdgeKind::Temporal);
    crate::edge::law_kind_names_differ(kind, EdgeKind::Supersedes);
}

fn or_default(n: Option<i64>, default: i64) -> (r: i64)
    ensures
        r == number_or(n, default),
{
    match n {
        Some(x) => x,
        None => default,
    }
}

/// Reads a fragment from a row.
pub fn row_to_fragment(row: &FragmentRow) -> (r: Result<Fragment, RowError>)
    ensures
        match r {
            Ok(f) => row_fragment(*row) == Some(f@),
            Err(e) => row_fragment(*row) is None && e.column == 0,
        },
{
    let id = match FragmentId::parse(row.id.as_str()) {
        Ok(id) => id,
        Err(_) => {
            return Err(RowError { column: 0 });
        },
    };
    let embedding: Vec<i32> = match &row.embedding {
        Some(b) => bytes_to_embedding(b),
        None => Vec::new(),
    };
    let superseded_by: Option<FragmentId> = match &row.superseded_by {
        Some(s) => match FragmentId::parse(s.as_str()) {
            Ok(u) => Some(u),
            Err(_) => None,
        },
        None => None,
    };
    let metadata: Metadata = match &row.metadata {
        Some(m) => match json_strings(m.as_str()) {
            Some(entries) => Metadata::from_entries(entries),
            None => Metadata::new(),
        },
        None => Metadata::new(),
    };
    Ok(
        Fragment {
            id,
            content: row.content.clone(),
            summary: row.summary.clone(),
            depth: row.depth,
            embedding,
            created_at: row.created_at,
            last_accessed: row.last_accessed,
            access_count: row.access_count,
            source_session: copy_text(&row.source_session),
            superseded_by,
            metadata,
            importance: or_default(row.importance, 500_000_000),
            relevance_score: or_default(row.relevance_score, ONE),
            decay_rate: or_default(row.decay_rate, 35_000_000),
            last_reinforced: or_default(row.last_reinforced, row.created_at),
        },
    )
}

/// Writes a fragment as a row. Reading the row gives the fragment back. There is
/// no embedding in the row of a fragment without one.
pub fn fragment_to_row(f: &Fragment) -> (r: FragmentRow)
    ensures
        row_fragment(r) == Some(f@),
        r.embedding is Some <==> f.embedding.len() > 0,
        r.id@ == crate::fragment::uuid_text(f.id.0),
{
    let embedding: Option<Vec<u8>> = if f.embedding.len() == 0 {
        assert(f.embedding@ == Seq::<i32>::empty());
        None
    } else {
        proof {
            crate::embedding::law_embedding_roundtrip(f.embedding@);
        }
        Some(embedding_to_bytes(&f.embedding))
    };
    let superseded_by: Option<String> = match f.superseded_by {
        Some(s) => Some(s.as_str()),
        None => None,
    };
    FragmentRow {
        id: f.id.as_str(),
        content: f.content.clone(),
        summary: f.summary.clone(),
        depth: f.depth,
        embedding,
        created_at: f.created_at,
        last_accessed: f.last_accessed,
        access_count: f.access_count,
        source_session: copy_text(&f.source_session),
        superseded_by,
        metadata: Some(write_json_strings(f.metadata.to_entries())),
        importance: Some(f.importance),
        relevance_score: Some(f.relevance_score),
        decay_rate: Some(f.decay_rate),
        last_reinforced: Some(f.last_reinforced),
    }
}

/// Reads an edge from a row.
pub fn row_to_edge(row: &EdgeRow) -> (r: Result<Edge, RowError>)
    ensures
        match r {
            Ok(e) => row_edge(*row) == Ok::<EdgeView, RowError>(e@),
            Err(x) => row_edge(*row) == Err::<EdgeView, RowError>(x),
        },
{
    let id = match EdgeId::parse(row.id.as_str()) {
        Some(id) => id,
        None => {
            return Err(RowError { column: 0 });
        },
    };
    let source = match FragmentId::parse(row.source.as_str()) {
        Ok(id) => id,
        Err(_) => {
            return Err(RowError { column: 1 });
        },
    };
    let target = match FragmentId::parse(row.target.as_str()) {
        Ok(id) => id,
        Err(_) => {
            return Err(RowError { column: 2 });
        },
    };
    let kind = match EdgeKind::parse(row.kind.as_str()) {
        Some(k) => {
            proof {
                lemma_named_kind(k);
            }
            k
        },
        None => {
            assert(row.kind@ != crate::edge::kind_name(EdgeKind::Hierarchical));
            assert(row.kind@ != crate::edge::kind_name(EdgeKind::Temporal));
            assert(row.kind@ != crate::edge::kind_name(EdgeKind::Supersedes));
            EdgeKind::Associative
        },
    };
    Ok(
        Edge {
            id,
            source,
            target,
            kind,
            weight: row.weight,
            content: copy_text(&row.content),
            created_at: row.created_at,
        },
    )
}

/// Writes an edge as a row. Reading the row gives the edge back.
pub fn edge_to_row(e: &Edge) -> (r: EdgeRow)
    ensures
        row_edge(r) == Ok::<EdgeView, RowError>(e@),
{
    proof {
        lemma_named_kind(e.kind);
    }
    EdgeRow {
        id: e.id.as_str(),
        source: e.source.as_str(),
        target: e.target.as_str(),
        kind: e.kind.as_str().to_owned(),
        weight: e.weight,
        content: copy_text(&e.content),
        created_at: e.created_at,
    }
}

// ---- laws ----

/// What a row stands for: its columns as they are, and for the numbers that an older row
/// lacks an importance of 0.5, full relevance, the decay rate of that importance, and the
/// time of its creation. Only a row without an identifier stands for nothing.
pub proof fn law_rows_of_fragments(row: FragmentRow)
    ensures
        crate::fragment::uuid_parsed(row.id@) is None <==> row_fragment(row) is None,
        row_fragment(row) matches Some(f) ==> {
            &&& Some(f.id.0) == crate::fragment::uuid_parsed(row.id@)
            &&& f.content == row.content@ && f.summary == row.summary@ && f.depth == row.depth
            &&& f.created_at == row.created_at && f.last_accessed == row.last_accessed
                && f.access_count == row.access_count
            &&& row.embedding is None ==> f.embedding.len() == 0
            &&& row.superseded_by is None ==> f.superseded_by is None
            &&& row.metadata is None ==> f.metadata == Map::<Seq<char>, Seq<char>>::empty()
            &&& row.source_session is None <==> f.source_session is None
            &&& row.importance matches Some(x) ==> f.importance == x
            &&& row.importance is None ==> f.importance == 500_000_000
            &&& row.relevance_score matches Some(x) ==> f.relevance_score == x
            &&& row.relevance_score is None ==> f.relevance_score == 1_000_000_000
            &&& row.decay_rate matches Some(x) ==> f.decay_rate == x
            &&& row.decay_rate is None ==> f.decay_rate == crate::relevance::decay_rate_of(
                500_000_000,
            )
            &&& row.last_reinforced matches Some(x) ==> f.last_reinforced == x
            &&& row.last_reinforced is None ==> f.last_reinforced == row.created_at
        },
{
    crate::relevance::law_decay_rate_falls_evenly(500_000_000, 500_000_000);
}

/// What a row of an edge stands for, and which of its identifiers is told as the first
/// that cannot be read.
pub proof fn law_rows_of_edges(row: EdgeRow)
    ensures
        match row_edge(row) {
            Ok(e) => {
                &&& crate::fragment::uuid_parsed(row.id@) == Some(e.id.0)
                &&& crate::fragment::uuid_parsed(row.source@) == Some(e.source.0)
                &&& crate::fragment::uuid_parsed(row.target@) == Some(e.target.0)
                &&& e.weight == row.weight && e.created_at == row.created_at
                &&& row.content is None <==> e.content is None
                &&& row.content matches Some(c) ==> e.content == Some(c@)
            },
            Err(x) => {
                &&& x.column == 0 <==> crate::fragment::uuid_parsed(row.id@) is None
                &&& x.column == 1 ==> crate::fragment::uuid_parsed(row.source@) is None
                &&& x.column == 2 ==> crate::fragment::uuid_parsed(row.target@) is None
                    && crate::fragment::uuid_parsed(row.source@) is Some
                &&& x.column <= 2
            },
        },
        crate::fragment::uuid_parsed(row.id@) is Some && crate::fragment::uuid_parsed(row.source@)
            is Some && crate::fragment::uuid_parsed(row.target@) is Some ==> row_edge(row) is Ok,
{
}

/// Kinds are stored under their names, and a name that is none counts as associative.
pub proof fn law_kinds_by_name(kind: EdgeKind, name: Seq<char>)
    ensures
        named_kind(crate::edge::kind_name(kind)) == kind,
        name != "hierarchical"@ && name != "temporal"@ && name != "supersedes"@ ==> named_kind(name)
            == EdgeKind::Associative,
        named_kind("hierarchical"@) == EdgeKind::Hierarchical,
        named_kind("associative"@) == EdgeKind::Associative,
        named_kind("temporal"@) == EdgeKind::Temporal,
        named_kind("supersedes"@) == EdgeKind::Supersedes,
{
    lemma_named_kind(kind);
    lemma_named_kind(EdgeKind::Hierarchical);
    lemma_named_kind(EdgeKind::Associative);
    lemma_named_kind(EdgeKind::Temporal);
    lemma_named_kind(EdgeKind::Supersedes);
}

} // verus!
