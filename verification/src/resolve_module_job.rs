use vstd::prelude::*;

use crate::SourceType;
use crate::str_eq;

verus! {

/// How a dependency edge was written in source.
#[derive(Debug, Clone, Copy, PartialEq, Eq, Hash, Structural)]
pub enum ResolveKind {
    Import,
    Require,
    DynamicImport,
    AtImport,
}

/// A dependency edge as written: who imports, the specifier text, and the
/// import kind. The triple itself is the edge's identity.
#[derive(Debug)]
pub struct Dependency {
    /// Uri of the importer module; `None` for an entry.
    pub importer: Option<String>,
    /// `./a.js` in `import './a.js'` is the specifier.
    pub specifier: String,
    pub kind: ResolveKind,
}

/// The mathematical value of a `Dependency`.
pub ghost struct DepView {
    pub importer: Option<Seq<char>>,
    pub specifier: Seq<char>,
    pub kind: ResolveKind,
}

impl View for Dependency {
    type V = DepView;

    open spec fn view(&self) -> DepView {
        DepView {
            importer: match self.importer {
                Some(s) => Some(s@),
                None => None,
            },
            specifier: self.specifier@,
            kind: self.kind,
        }
    }
}

impl Clone for Dependency {
    fn clone(&self) -> (r: Self)
        ensures
            r@ == self@,
    {
        Dependency {
            importer: match &self.importer {
                Some(s) => Some(s.clone()),
                None => None,
            },
            specifier: self.specifier.clone(),
            kind: self.kind,
        }
    }
}

impl Dependency {
    /// Whether two dependency edges are the same edge (same triple).
    pub fn key_eq(&self, other: &Dependency) -> (r: bool)
        ensures
            r == (self@ == other@),
    {
        let importer_eq: bool = match (&self.importer, &other.importer) {
            (Some(a), Some(b)) => str_eq(a.as_str(), b.as_str()),
            (None, None) => true,
            _ => false,
        };
        importer_eq && str_eq(self.specifier.as_str(), other.specifier.as_str()) && self.kind
            == other.kind
    }
}

/// A raw dependency as reported by a parser: specifier and kind, with the
/// importer still implicit.
#[derive(Debug)]
pub struct ModuleDependency {
    pub specifier: String,
    pub kind: ResolveKind,
}

impl Clone for ModuleDependency {
    fn clone(&self) -> (r: Self)
        ensures
            r.specifier@ == self.specifier@,
            r.kind == self.kind,
    {
        ModuleDependency { specifier: self.specifier.clone(), kind: self.kind }
    }
}

/// Per-job state that travels with one resolution job: the importing module
/// and the source type discovered for the job's own module.
#[derive(Debug)]
pub struct JobContext {
    pub importer: Option<String>,
    pub source_type: Option<SourceType>,
}

impl Clone for JobContext {
    fn clone(&self) -> (r: Self)
        ensures
            r.source_type == self.source_type,
            match (r.importer, self.importer) {
                (Some(a), Some(b)) => a@ == b@,
                (None, None) => true,
                _ => false,
            },
    {
        JobContext {
            importer: match &self.importer {
                Some(s) => Some(s.clone()),
                None => None,
            },
            source_type: self.source_type,
        }
    }
}

impl JobContext {
    pub fn set_source_type(&mut self, source_type: SourceType)
        ensures
            final(self).source_type == Some(source_type),
            final(self).importer == old(self).importer,
    {
        self.source_type = Some(source_type);
    }
}

/// The file extension of a uri: the characters after the last `.` of its
/// last `/`-separated component, provided that `.` is not the component's
/// first character. Empty when there is none.
pub open spec fn spec_ext_of(uri: Seq<char>) -> Seq<char> {
    crate::utils::ext_of_component(crate::utils::last_component(uri))
}

/// The source type of a module uri, decided by its file extension.
pub fn resolve_source_type_by_uri(uri: &str) -> (r: Option<SourceType>)
    ensures
        r == crate::source_type_of_ext(spec_ext_of(uri@)),
{
    let ext = crate::utils::extension_of(uri);
    SourceType::from_ext(ext.as_str())
}

/// The child dependency edges of a freshly parsed module: each raw
/// dependency of the parser, with this module as the importer.
pub fn child_dependencies(uri: &str, raw: &Vec<ModuleDependency>) -> (r: Vec<Dependency>)
    ensures
        r@.len() == raw@.len(),
        forall|i: int|
            0 <= i < r@.len() ==> #[trigger] r@[i]@ == (DepView {
                importer: Some(uri@),
                specifier: raw@[i].specifier@,
                kind: raw@[i].kind,
            }),
{
    let mut out: Vec<Dependency> = Vec::new();
    let mut i: usize = 0;
    while i < raw.len()
        invariant
            i <= raw@.len(),
            out@.len() == i,
            forall|j: int|
                0 <= j < i ==> #[trigger] out@[j]@ == (DepView {
                    importer: Some(uri@),
                    specifier: raw@[j].specifier@,
                    kind: raw@[j].kind,
                }),
        decreases raw@.len() - i,
    {
        let d = Dependency {
            importer: Some(uri.to_owned()),
            specifier: raw[i].specifier.clone(),
            kind: raw[i].kind,
        };
        out.push(d);
        i = i + 1;
    }
    out
}

/// The directory part of an importer uri: everything up to the last `/`,
/// or empty when the uri has none. The resolver collaborator resolves a
/// specifier against this base directory.
pub fn base_dir_of(importer: &str) -> (r: String)
    ensures
        r@ == crate::utils::dir_of(importer@),
{
    crate::utils::dirname_of(importer)
}

/// Resolution of an entry specifier, which has no importer: a root-relative
/// path join.
pub fn resolve_entry_uri(root: &str, specifier: &str) -> (r: String)
    ensures
        r@ == crate::utils::join_path(root@, specifier@),
{
    crate::utils::path_join(root, specifier)
}

/// What a resolution job reports as the canonical uri, given what the
/// resolver collaborator returned for a non-entry specifier: a concrete
/// path when one was found, otherwise the raw specifier stands unresolved.
pub fn resolved_uri_from(specifier: &str, found: Option<String>) -> (r: String)
    ensures
        match found {
            Some(p) => r@ == p@,
            None => r@ == specifier@,
        },
{
    match found {
        Some(p) => p,
        None => specifier.to_owned(),
    }
}

} // verus!
