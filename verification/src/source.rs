//! Visible provenance of measurement files: the display name, the optional
//! path, and the identity under which two files count as the same source.

use vstd::prelude::*;
use crate::text::{is_blank, owned, str_eq, str_is_blank};

verus! {

/// Mathematical model of a provenance record.
pub struct ProvenanceView {
    pub name: Seq<char>,
    pub path: Option<Seq<char>>,
    pub identity: Option<Seq<char>>,
}

/// Name, optional path, and the identity key compared between two sources.
/// The identity is the path itself, or the canonical form of that path when the
/// caller resolved one (a filesystem question, answered outside this library).
#[derive(Debug, PartialEq, Eq)]
pub struct Provenance {
    name: String,
    path: Option<String>,
    identity: Option<String>,
}

pub open spec fn opt_view(o: Option<String>) -> Option<Seq<char>> {
    match o {
        Some(s) => Some(s@),
        None => None,
    }
}

impl View for Provenance {
    type V = ProvenanceView;

    closed spec fn view(&self) -> ProvenanceView {
        ProvenanceView {
            name: self.name@,
            path: opt_view(self.path),
            identity: opt_view(self.identity),
        }
    }
}

/// Two sources are the same file when both carry an identity and the
/// identities agree; when either is pathless, the visible names decide.
pub open spec fn same_named(a: ProvenanceView, b: ProvenanceView) -> bool {
    match (a.identity, b.identity) {
        (Some(x), Some(y)) => x == y,
        _ => a.name == b.name,
    }
}

/// Source identity does not depend on argument order.
pub proof fn lemma_same_named_symmetric(a: ProvenanceView, b: ProvenanceView)
    ensures
        same_named(a, b) == same_named(b, a),
{
}

pub fn clone_opt_string(o: &Option<String>) -> (r: Option<String>)
    ensures
        r == *o,
{
    match o {
        Some(s) => Some(s.clone()),
        None => None,
    }
}

pub fn opt_str_eq(a: &Option<String>, b: &Option<String>) -> (r: bool)
    ensures
        r == (opt_view(*a) == opt_view(*b)),
{
    match (a, b) {
        (Some(x), Some(y)) => str_eq(x.as_str(), y.as_str()),
        (None, None) => true,
        _ => false,
    }
}

impl Provenance {
    pub closed spec fn wf(&self) -> bool {
        self.path.is_some() == self.identity.is_some()
    }

    pub fn new(name: &str, path: Option<String>) -> (r: Self)
        ensures
            r@.name == name@,
            r@.path == opt_view(path),
            r@.identity == opt_view(path),
            r.wf(),
    {
        let identity = clone_opt_string(&path);
        Provenance { name: owned(name), path, identity }
    }

    pub fn name(&self) -> (r: &str)
        ensures
            r@ == self@.name,
    {
        self.name.as_str()
    }

    pub fn path(&self) -> (r: Option<&str>)
        ensures
            r.is_some() == self@.path.is_some(),
            r.is_some() ==> r.unwrap()@ == self@.path.unwrap(),
    {
        match &self.path {
            Some(p) => Some(p.as_str()),
            None => None,
        }
    }

    /// Replaces the identity of a pathed source by its resolved canonical form.
    /// A pathless source keeps comparing by name.
    pub fn resolve_identity(&mut self, canonical: &str)
        requires
            old(self).wf(),
        ensures
            final(self).wf(),
            final(self)@.name == old(self)@.name,
            final(self)@.path == old(self)@.path,
            final(self)@.identity == if old(self)@.path.is_some() {
                Some(canonical@)
            } else {
                None::<Seq<char>>
            },
    {
        if self.path.is_some() {
            self.identity = Some(owned(canonical));
        }
    }

    pub fn duplicate(&self) -> (r: Self)
        ensures
            r == *self,
            r@ == self@,
            r.wf() == self.wf(),
    {
        Provenance {
            name: self.name.clone(),
            path: clone_opt_string(&self.path),
            identity: clone_opt_string(&self.identity),
        }
    }

    /// Whether `self` and `other` name the same measurement file.
    pub fn same_as(&self, other: &Provenance) -> (r: bool)
        ensures
            r == same_named(self@, other@),
    {
        match (&self.identity, &other.identity) {
            (Some(x), Some(y)) => str_eq(x.as_str(), y.as_str()),
            _ => str_eq(self.name.as_str(), other.name.as_str()),
        }
    }
}

/// Visible provenance for the primary transfer measurement that created one
/// device row.
#[derive(Debug, PartialEq, Eq)]
pub struct PrimaryTransferSource {
    prov: Provenance,
}

#[derive(Clone, Copy, Debug, PartialEq, Eq)]
pub enum PrimaryTransferSourceError {
    EmptyName,
}

/// Visible provenance for output curves owned by an installed device.
#[derive(Debug, PartialEq, Eq)]
pub struct OutputSource {
    prov: Provenance,
}

#[derive(Clone, Copy, Debug, PartialEq, Eq)]
pub enum OutputSourceError {
    EmptyName,
}

/// Visible provenance for the second transfer measurement refining a device's
/// DIBL terms; a distinct type from [`OutputSource`].
#[derive(Debug, PartialEq, Eq)]
pub struct DiblSource {
    prov: Provenance,
}

#[derive(Clone, Copy, Debug, PartialEq, Eq)]
pub enum DiblSourceError {
    EmptyName,
}

impl View for PrimaryTransferSource {
    type V = ProvenanceView;

    closed spec fn view(&self) -> ProvenanceView {
        self.prov@
    }
}

impl View for OutputSource {
    type V = ProvenanceView;

    closed spec fn view(&self) -> ProvenanceView {
        self.prov@
    }
}

impl View for DiblSource {
    type V = ProvenanceView;

    closed spec fn view(&self) -> ProvenanceView {
        self.prov@
    }
}

/// The name shown for a file: its own name unless blank, else the displayed
/// path unless blank, else a placeholder.
pub open spec fn visible_name(name: Seq<char>, path: Seq<char>) -> Seq<char> {
    if !is_blank(name) {
        name
    } else if !is_blank(path) {
        path
    } else {
        "(unnamed file)"@
    }
}

/// Display name for a parsed file: `name` unless it is blank, else the path
/// text, else `(unnamed file)`.
pub fn visible_source_name(name: &str, source_path: &str) -> (r: String)
    ensures
        r@ == visible_name(name@, source_path@),
{
    if !str_is_blank(name) {
        return owned(name);
    }
    if !str_is_blank(source_path) {
        return owned(source_path);
    }
    let r = owned("(unnamed file)");
    proof {
        reveal_strlit("(unnamed file)");
    }
    r
}

/// A plain file name: not empty, not `.` or `..`, and free of `/` and `\`.
pub open spec fn plain_name(name: Seq<char>) -> bool {
    &&& name.len() > 0
    &&& !name.contains('/')
    &&& !name.contains('\\')
    &&& name != seq!['.']
    &&& name != seq!['.', '.']
}

/// A directory part that holds no `\`, in a path that does not begin with
/// two slashes (a network prefix on Windows).
pub open spec fn plain_dir(path: Seq<char>, dir: Seq<char>) -> bool {
    &&& !dir.contains('\\')
    &&& !(path.len() >= 2 && path[0] == '/' && path[1] == '/')
}

/// `path` is `dir`, a `/` and the plain file name `name`, with or without one
/// trailing `/`. Such a path ends in the component `name` on every
/// platform: `/` separates components on Unix and on Windows alike, and a
/// trailing separator is ignored.
pub open spec fn plain_tail(path: Seq<char>, dir: Seq<char>, name: Seq<char>) -> bool {
    &&& (path == dir + seq!['/'] + name || path == dir + seq!['/'] + name + seq!['/'])
    &&& plain_dir(path, dir)
    &&& plain_name(name)
}

/// `path` is a plain file name alone, with no `:` (a drive prefix on
/// Windows).
pub open spec fn bare_name(path: Seq<char>) -> bool {
    plain_name(path) && !path.contains(':')
}

/// `path` is `..`, or `dir`, a `/` and `..`: its last component is the parent
/// directory.
pub open spec fn parent_tail(path: Seq<char>, dir: Seq<char>) -> bool {
    ||| path == seq!['.', '.']
    ||| path == dir + seq!['/', '.', '.'] && plain_dir(path, dir)
}

/// A blank path holds no `/`, so it is never a directory and a file name.
pub(crate) proof fn lemma_blank_has_no_tail(path: Seq<char>)
    requires
        is_blank(path),
    ensures
        forall|dir: Seq<char>, name: Seq<char>| !#[trigger] plain_tail(path, dir, name),
{
    assert forall|dir: Seq<char>, name: Seq<char>| !#[trigger] plain_tail(path, dir, name) by {
        if plain_tail(path, dir, name) {
            let k = dir.len() as int;
            assert(path[k] == '/');
            assert(crate::text::is_ws(path[k]));
        }
    }
}

/// `Path::file_name` on a textual path, as owned text. Its documentation
/// gives the final component of the path when that is a normal component,
/// and none when the path is empty, a root alone, or ends in `..`. This
/// contract claims the cases that hold on every platform: the empty path and
/// `/` give none, a path ending in `..` gives none, and a plain file name
/// alone or after a `/` (with or without one trailing `/`) gives that name.
/// What it gives for other paths (a `\` separator, a `.` at the end, a
/// drive or network prefix) depends on the platform and is left unsaid.
#[verifier::external_body]
pub(crate) fn path_file_name(path: &str) -> (r: Option<String>)
    ensures
        path@.len() == 0 ==> r is None,
        path@ == seq!['/'] ==> r is None,
        bare_name(path@) ==> opt_view(r) == Some(path@),
        forall|dir: Seq<char>, name: Seq<char>|
            #[trigger] plain_tail(path@, dir, name) ==> opt_view(r) == Some(name),
        forall|dir: Seq<char>| #[trigger] parent_tail(path@, dir) ==> r is None,
{
    std::path::Path::new(path).file_name().map(|name| name.to_string_lossy().into_owned())
}

/// Name chosen for a primary source created from a path alone: the path's
/// final component unless it is missing or blank, else the path text unless
/// blank, else `(unnamed file)`.
pub open spec fn name_from_path(path: Seq<char>, file_name: Option<Seq<char>>) -> Seq<char> {
    match file_name {
        Some(f) if !is_blank(f) => f,
        _ => if !is_blank(path) {
            path
        } else {
            "(unnamed file)"@
        },
    }
}

impl PrimaryTransferSource {
    /// The provenance record behind this source.
    pub fn provenance(&self) -> (r: &Provenance)
        ensures
            r@ == self@,
    {
        &self.prov
    }

    pub closed spec fn wf(&self) -> bool {
        self.prov.wf() && !is_blank(self@.name)
    }

    /// A source named `name`; refused when the name is blank.
    pub fn new(name: &str, path: Option<String>) -> (r: Result<Self, PrimaryTransferSourceError>)
        ensures
            is_blank(name@) <==> r is Err,
            r matches Ok(s) ==> s@.name == name@ && s@.path == opt_view(path) && s@.identity
                == opt_view(path) && s.wf(),
    {
        if str_is_blank(name) {
            return Err(PrimaryTransferSourceError::EmptyName);
        }
        Ok(PrimaryTransferSource { prov: Provenance::new(name, path) })
    }

    /// The source for `path` given that path's final component.
    pub fn from_path_parts(path: &str, file_name: Option<String>) -> (r: Self)
        ensures
            r@.name == name_from_path(path@, opt_view(file_name)),
            r@.path == Some(path@),
            r@.identity == Some(path@),
            r.wf(),
    {
        let name = match file_name {
            Some(f) => {
                if !str_is_blank(f.as_str()) {
                    f
                } else if !str_is_blank(path) {
                    owned(path)
                } else {
                    proof {
                        reveal_strlit("(unnamed file)");
                    }
                    owned("(unnamed file)")
                }
            },
            None => {
                if !str_is_blank(path) {
                    owned(path)
                } else {
                    proof {
                        reveal_strlit("(unnamed file)");
                    }
                    owned("(unnamed file)")
                }
            },
        };
        proof {
            reveal_strlit("(unnamed file)");
            assert(!crate::text::is_ws("(unnamed file)"@[0]));
        }
        PrimaryTransferSource { prov: Provenance::new(name.as_str(), Some(owned(path))) }
    }

    /// The source for a file chosen by path.
    pub fn from_path(path: &str) -> (r: Self)
        ensures
            exists|f: Option<Seq<char>>| r@.name == name_from_path(path@, f),
            forall|dir: Seq<char>, name: Seq<char>|
                #[trigger] plain_tail(path@, dir, name) && !is_blank(name) ==> r@.name == name,
            bare_name(path@) && !is_blank(path@) ==> r@.name == path@,
            is_blank(path@) ==> r@.name == "(unnamed file)"@,
            r@.path == Some(path@),
            r.wf(),
    {
        if str_is_blank(path) {
            proof {
                lemma_blank_has_no_tail(path@);
            }
            return Self::from_path_parts(path, None);
        }
        let file_name = path_file_name(path);
        let r = Self::from_path_parts(path, file_name);
        proof {
            let w = opt_view(file_name);
            assert(r@.name == name_from_path(path@, w));
        }
        r
    }

    pub fn name(&self) -> (r: &str)
        ensures
            r@ == self@.name,
    {
        self.prov.name()
    }

    pub fn path(&self) -> (r: Option<&str>)
        ensures
            r.is_some() == self@.path.is_some(),
            r.is_some() ==> r.unwrap()@ == self@.path.unwrap(),
    {
        self.prov.path()
    }

    pub fn resolve_identity(&mut self, canonical: &str)
        requires
            old(self).wf(),
        ensures
            final(self).wf(),
            final(self)@.name == old(self)@.name,
            final(self)@.path == old(self)@.path,
            final(self)@.identity == if old(self)@.path.is_some() {
                Some(canonical@)
            } else {
                None::<Seq<char>>
            },
    {
        self.prov.resolve_identity(canonical);
    }

    pub fn duplicate(&self) -> (r: Self)
        ensures
            r == *self,
            r@ == self@,
            r.wf() == self.wf(),
    {
        PrimaryTransferSource { prov: self.prov.duplicate() }
    }

    pub fn same_as(&self, other: &Self) -> (r: bool)
        ensures
            r == same_named(self@, other@),
    {
        self.prov.same_as(&other.prov)
    }
}

impl OutputSource {
    /// The provenance record behind this source.
    pub fn provenance(&self) -> (r: &Provenance)
        ensures
            r@ == self@,
    {
        &self.prov
    }

    pub closed spec fn wf(&self) -> bool {
        self.prov.wf() && !is_blank(self@.name)
    }

    /// A source named `name`; refused when the name is blank.
    pub fn new(name: &str, path: Option<String>) -> (r: Result<Self, OutputSourceError>)
        ensures
            is_blank(name@) <==> r is Err,
            r matches Ok(s) ==> s@.name == name@ && s@.path == opt_view(path) && s@.identity
                == opt_view(path) && s.wf(),
    {
        if str_is_blank(name) {
            return Err(OutputSourceError::EmptyName);
        }
        Ok(OutputSource { prov: Provenance::new(name, path) })
    }

    pub fn name(&self) -> (r: &str)
        ensures
            r@ == self@.name,
    {
        self.prov.name()
    }

    pub fn path(&self) -> (r: Option<&str>)
        ensures
            r.is_some() == self@.path.is_some(),
            r.is_some() ==> r.unwrap()@ == self@.path.unwrap(),
    {
        self.prov.path()
    }

    pub fn resolve_identity(&mut self, canonical: &str)
        requires
            old(self).wf(),
        ensures
            final(self).wf(),
            final(self)@.name == old(self)@.name,
            final(self)@.path == old(self)@.path,
            final(self)@.identity == if old(self)@.path.is_some() {
                Some(canonical@)
            } else {
                None::<Seq<char>>
            },
    {
        self.prov.resolve_identity(canonical);
    }

    pub fn duplicate(&self) -> (r: Self)
        ensures
            r == *self,
            r@ == self@,
            r.wf() == self.wf(),
    {
        OutputSource { prov: self.prov.duplicate() }
    }

    pub fn same_as(&self, other: &Self) -> (r: bool)
        ensures
            r == same_named(self@, other@),
    {
        self.prov.same_as(&other.prov)
    }
}

impl DiblSource {
    /// The provenance record behind this source.
    pub fn provenance(&self) -> (r: &Provenance)
        ensures
            r@ == self@,
    {
        &self.prov
    }

    pub closed spec fn wf(&self) -> bool {
        self.prov.wf() && !is_blank(self@.name)
    }

    /// A source named `name`; refused when the name is blank.
    pub fn new(name: &str, path: Option<String>) -> (r: Result<Self, DiblSourceError>)
        ensures
            is_blank(name@) <==> r is Err,
            r matches Ok(s) ==> s@.name == name@ && s@.path == opt_view(path) && s@.identity
                == opt_view(path) && s.wf(),
    {
        if str_is_blank(name) {
            return Err(DiblSourceError::EmptyName);
        }
        Ok(DiblSource { prov: Provenance::new(name, path) })
    }

    pub fn name(&self) -> (r: &str)
        ensures
            r@ == self@.name,
    {
        self.prov.name()
    }

    pub fn path(&self) -> (r: Option<&str>)
        ensures
            r.is_some() == self@.path.is_some(),
            r.is_some() ==> r.unwrap()@ == self@.path.unwrap(),
    {
        self.prov.path()
    }

    pub fn resolve_identity(&mut self, canonical: &str)
        requires
            old(self).wf(),
        ensures
            final(self).wf(),
            final(self)@.name == old(self)@.name,
            final(self)@.path == old(self)@.path,
            final(self)@.identity == if old(self)@.path.is_some() {
                Some(canonical@)
            } else {
                None::<Seq<char>>
            },
    {
        self.prov.resolve_identity(canonical);
    }

    pub fn duplicate(&self) -> (r: Self)
        ensures
            r == *self,
            r@ == self@,
            r.wf() == self.wf(),
    {
        DiblSource { prov: self.prov.duplicate() }
    }

    pub fn same_as(&self, other: &Self) -> (r: bool)
        ensures
            r == same_named(self@, other@),
    {
        self.prov.same_as(&other.prov)
    }
}

} // verus!
