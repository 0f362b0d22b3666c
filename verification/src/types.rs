//! Data model: fragments, route bodies, documents, and their ghost views.

use vstd::prelude::*;

verus! {

/// The key under which a definition document stores its routes.
pub open spec fn paths_key() -> Seq<char> {
    seq!['p', 'a', 't', 'h', 's']
}

/// View of a key/value entry list: each key as its character sequence.
pub open spec fn entry_views(es: Seq<(String, serde_json::Value)>) -> Seq<
    (Seq<char>, serde_json::Value),
> {
    es.map_values(|e: (String, serde_json::Value)| (e.0@, e.1))
}

/// A path-level fragment: one canonical route with every method known for
/// it, rendered as a self-contained text document.
#[derive(Debug, Clone, PartialEq)]
pub struct APIPath {
    pub path: String,
    pub yaml: String,
}

/// An operation-level fragment: one method of one canonical route, with the
/// resource key that clusters routes sharing a first segment.
#[derive(Debug, Clone, PartialEq)]
pub struct APIVerb {
    pub verb: String,
    pub path: String,
    pub root_path: String,
    pub yaml: String,
}

/// A fragment emitted by the splitter and consumed by the merger.
#[derive(Debug, Clone, PartialEq)]
pub enum APIDef {
    Path(APIPath),
    Verb(APIVerb),
}

/// The value attached to one raw route: a method-to-operation map when the
/// route's value is an object, otherwise the value itself, carried through
/// untouched.
#[derive(Debug, Clone)]
pub enum RouteBody {
    Methods(Vec<(String, serde_json::Value)>),
    Opaque(serde_json::Value),
}

/// A parsed definition document: its top-level members other than "paths"
/// (the skeleton, in original key order), and its routes when a "paths"
/// object is present (`None` when "paths" is absent or not an object).
#[derive(Debug, Clone)]
pub struct RawDocument {
    pub skeleton: Vec<(String, serde_json::Value)>,
    pub routes: Option<Vec<(String, RouteBody)>>,
}

/// A failure surfaced by the pipeline: a fragment's text could not be
/// parsed back, or a working document could not be serialized.
#[derive(Debug, Clone)]
pub enum ProcessError {
    Parse { message: String },
    Render { message: String },
}

// ---------------------------------------------------------------------------
// Ghost views
// ---------------------------------------------------------------------------

/// View of a route body.
pub ghost enum BodyV {
    Methods(Seq<(Seq<char>, serde_json::Value)>),
    Opaque(serde_json::Value),
}

/// View of a document: skeleton entries and optional routes.
pub ghost struct DocV {
    pub skeleton: Seq<(Seq<char>, serde_json::Value)>,
    pub routes: Option<Seq<(Seq<char>, BodyV)>>,
}

/// View of a fragment.
pub ghost enum DefV {
    Path { path: Seq<char>, yaml: Seq<char> },
    Verb { verb: Seq<char>, path: Seq<char>, root: Seq<char>, yaml: Seq<char> },
}

impl View for RouteBody {
    type V = BodyV;

    open spec fn view(&self) -> BodyV {
        match self {
            RouteBody::Methods(m) => BodyV::Methods(entry_views(m@)),
            RouteBody::Opaque(v) => BodyV::Opaque(*v),
        }
    }
}

pub open spec fn route_views(rs: Seq<(String, RouteBody)>) -> Seq<(Seq<char>, BodyV)> {
    rs.map_values(|r: (String, RouteBody)| (r.0@, r.1@))
}

impl View for RawDocument {
    type V = DocV;

    open spec fn view(&self) -> DocV {
        DocV {
            skeleton: entry_views(self.skeleton@),
            routes: match self.routes {
                Option::None => Option::None,
                Option::Some(rs) => Option::Some(route_views(rs@)),
            },
        }
    }
}

impl View for APIDef {
    type V = DefV;

    open spec fn view(&self) -> DefV {
        match self {
            APIDef::Path(p) => DefV::Path { path: p.path@, yaml: p.yaml@ },
            APIDef::Verb(v) => DefV::Verb {
                verb: v.verb@,
                path: v.path@,
                root: v.root_path@,
                yaml: v.yaml@,
            },
        }
    }
}

pub open spec fn def_views(ds: Seq<APIDef>) -> Seq<DefV> {
    ds.map_values(|d: APIDef| d@)
}

} // verus!
