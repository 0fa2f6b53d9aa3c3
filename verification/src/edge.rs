//! Edges: the typed connections between fragments.

use vstd::prelude::*;

use crate::fragment::{copy_text, random_uuid, FragmentId};
use crate::text::same;

verus! {

/// Unique identifier of an edge: the 128 bits of a UUID.
#[derive(Debug, Clone, Copy, PartialEq, Eq, Hash, Structural)]
pub struct EdgeId(pub u128);

impl EdgeId {
    /// A new random identifier.
    pub fn new() -> (r: Self)
        ensures
            crate::fragment::is_random_uuid(r.0),
    {
        EdgeId(random_uuid())
    }

    /// Reads an identifier.
    pub fn parse(s: &str) -> (r: Option<Self>)
        ensures
            match r {
                Some(id) => crate::fragment::uuid_parsed(s@) == Some(id.0),
                None => crate::fragment::uuid_parsed(s@) is None,
            },
    {
        match crate::fragment::parse_uuid(s) {
            Some(v) => Some(EdgeId(v)),
            None => None,
        }
    }

    /// Writes an identifier in its hyphenated form.
    pub fn as_str(&self) -> (r: String)
        ensures
            r@ == crate::fragment::uuid_text(self.0),
            crate::fragment::uuid_parsed(r@) == Some(self.0),
    {
        crate::fragment::format_uuid(self.0)
    }
}

impl Default for EdgeId {
    fn default() -> (r: Self)
        ensures
            crate::fragment::is_random_uuid(r.0),
    {
        EdgeId::new()
    }
}

/// The kind of relationship between two fragments.
#[derive(Debug, Clone, Copy, PartialEq, Eq, Structural)]
pub enum EdgeKind {
    /// Parent to child, in a tree.
    Hierarchical,
    /// Semantic link across branches.
    Associative,
    /// Order in time within a topic.
    Temporal,
    /// A newer fragment replaces an older one.
    Supersedes,
}

/// The name under which a kind is stored.
pub open spec fn kind_name(kind: EdgeKind) -> Seq<char> {
    match kind {
        EdgeKind::Hierarchical => "hierarchical"@,
        EdgeKind::Associative => "associative"@,
        EdgeKind::Temporal => "temporal"@,
        EdgeKind::Supersedes => "supersedes"@,
    }
}

/// Two kinds have the same name only where they are the same kind.
pub proof fn law_kind_names_differ(a: EdgeKind, b: EdgeKind)
    ensures
        kind_name(a) == kind_name(b) <==> a == b,
{
    reveal_strlit("hierarchical");
    reveal_strlit("associative");
    reveal_strlit("temporal");
    reveal_strlit("supersedes");
    assert(kind_name(EdgeKind::Temporal)[0] == 't');
    assert(kind_name(EdgeKind::Supersedes)[0] == 's');
    assert(kind_name(EdgeKind::Associative)[0] == 'a');
    assert(kind_name(EdgeKind::Hierarchical)[0] == 'h');
}

impl EdgeKind {
    /// The name under which a kind is stored.
    pub fn as_str(&self) -> (r: &'static str)
        ensures
            r@ == kind_name(*self),
    {
        match self {
            EdgeKind::Hierarchical => "hierarchical",
            EdgeKind::Associative => "associative",
            EdgeKind::Temporal => "temporal",
            EdgeKind::Supersedes => "supersedes",
        }
    }

    /// The kind with a name: what [`EdgeKind::as_str`] wrote, and nothing else,
    /// is read back.
    pub fn parse(s: &str) -> (r: Option<Self>)
        ensures
            match r {
                Some(k) => s@ == kind_name(k),
                None => forall|k: EdgeKind| s@ != #[trigger] kind_name(k),
            },
            forall|k: EdgeKind| s@ == #[trigger] kind_name(k) ==> r == Some(k),
    {
        proof {
            assert forall|k: EdgeKind, l: EdgeKind| #[trigger]
                kind_name(k) == #[trigger] kind_name(l) implies k == l by {
                law_kind_names_differ(k, l);
            }
        }
        if same(s, "hierarchical") {
            assert(s@ == kind_name(EdgeKind::Hierarchical));
            Some(EdgeKind::Hierarchical)
        } else if same(s, "associative") {
            assert(s@ == kind_name(EdgeKind::Associative));
            Some(EdgeKind::Associative)
        } else if same(s, "temporal") {
            assert(s@ == kind_name(EdgeKind::Temporal));
            Some(EdgeKind::Temporal)
        } else if same(s, "supersedes") {
            assert(s@ == kind_name(EdgeKind::Supersedes));
            Some(EdgeKind::Supersedes)
        } else {
            None
        }
    }
}

/// A connection between two fragments.
#[derive(Debug)]
pub struct Edge {
    pub id: EdgeId,
    pub source: FragmentId,
    pub target: FragmentId,
    pub kind: EdgeKind,
    pub weight: i64,
    /// How the two fragments relate, in words.
    pub content: Option<String>,
    pub created_at: i64,
}

/// What an edge holds.
#[verifier::ext_equal]
pub struct EdgeView {
    pub id: EdgeId,
    pub source: FragmentId,
    pub target: FragmentId,
    pub kind: EdgeKind,
    pub weight: i64,
    pub content: Option<Seq<char>>,
    pub created_at: i64,
}

impl View for Edge {
    type V = EdgeView;

    open spec fn view(&self) -> EdgeView {
        EdgeView {
            id: self.id,
            source: self.source,
            target: self.target,
            kind: self.kind,
            weight: self.weight,
            content: crate::fragment::text_view(self.content),
            created_at: self.created_at,
        }
    }
}

impl Clone for Edge {
    fn clone(&self) -> (r: Self)
        ensures
            r@ == self@,
    {
        Edge {
            id: self.id,
            source: self.source,
            target: self.target,
            kind: self.kind,
            weight: self.weight,
            content: copy_text(&self.content),
            created_at: self.created_at,
        }
    }
}

/// What the edges of a list hold.
pub open spec fn edge_views(v: Seq<Edge>) -> Seq<EdgeView> {
    Seq::new(v.len(), |i: int| v[i]@)
}

} // verus!
