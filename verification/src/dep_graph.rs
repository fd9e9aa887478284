//! The header-dependency graph of one repository.
//!
//! Nodes are the source and header files of the repository, in the order in
//! which they were discovered. A file has one outgoing dependency for each
//! distinct include declaration in it that some header can satisfy: a header
//! satisfies a declaration where the components of its path end with those
//! of the declared path.

use vstd::prelude::*;
use crate::abbrev::AbbrevTable;
use crate::path::{components, ends_with, split, texts};
use crate::pattern::{find_all, pattern_matches, Groups};
use crate::types::{file_kind, Declare, DeclareType, DeclareView, File, FileType, FileView};

verus! {

/// A declaration of a file together with the headers that can satisfy it,
/// as indices into the graph's files, in discovery order.
pub struct DepView {
    pub decl: DeclareView,
    pub candidates: Seq<int>,
}

/// The graph as a value: the root directory, the files, and for each file
/// its dependencies.
pub struct DepGraphView {
    pub root: Seq<char>,
    pub files: Seq<FileView>,
    pub deps: Seq<Seq<DepView>>,
}

/// A file as discovery and scanning hand it over: the file and the include
/// declarations found in it, in the order of their occurrence.
pub struct Scanned {
    pub file: File,
    pub declares: Vec<Declare>,
}

pub struct ScannedView {
    pub file: FileView,
    pub declares: Seq<DeclareView>,
}

impl View for Scanned {
    type V = ScannedView;

    open spec fn view(&self) -> ScannedView {
        ScannedView { file: self.file@, declares: declare_views(self.declares@) }
    }
}

pub open spec fn declare_views(v: Seq<Declare>) -> Seq<DeclareView> {
    Seq::new(v.len(), |i: int| v[i]@)
}

pub open spec fn scanned_views(v: Seq<Scanned>) -> Seq<ScannedView> {
    Seq::new(v.len(), |i: int| v[i]@)
}

pub open spec fn file_views(v: Seq<File>) -> Seq<FileView> {
    Seq::new(v.len(), |i: int| v[i]@)
}

pub open spec fn ids(v: Seq<usize>) -> Seq<int> {
    Seq::new(v.len(), |i: int| v[i] as int)
}

/// Whether `file` can satisfy a declaration whose path has the components
/// `key`: it is a header and its path ends with `key`.
pub open spec fn resolves(file: FileView, key: Seq<Seq<char>>) -> bool {
    file.kind == FileType::Header && key.len() > 0 && ends_with(components(file.path), key)
}

/// The indices below `n` of the files that resolve `key`, in increasing order.
pub open spec fn candidates_upto(files: Seq<FileView>, key: Seq<Seq<char>>, n: int) -> Seq<int>
    decreases n,
{
    if n <= 0 {
        Seq::empty()
    } else if resolves(files[n - 1], key) {
        candidates_upto(files, key, n - 1).push(n - 1)
    } else {
        candidates_upto(files, key, n - 1)
    }
}

/// What a lookup of `key` among `files` gives: the indices of all files that
/// resolve it, in discovery order.
pub open spec fn candidates(files: Seq<FileView>, key: Seq<Seq<char>>) -> Seq<int> {
    candidates_upto(files, key, files.len() as int)
}

/// Whether `file` is among the files of `nodes`.
pub open spec fn has_file(nodes: Seq<ScannedView>, file: FileView) -> bool {
    exists|j: int| 0 <= j < nodes.len() && (#[trigger] nodes[j]).file == file
}

/// The scanned files without repetitions: of several entries for one file
/// the first stays.
pub open spec fn nodes_of(scanned: Seq<ScannedView>) -> Seq<ScannedView>
    decreases scanned.len(),
{
    if scanned.len() == 0 {
        Seq::empty()
    } else {
        let before = nodes_of(scanned.drop_last());
        if has_file(before, scanned.last().file) {
            before
        } else {
            before.push(scanned.last())
        }
    }
}

/// Whether `decl` is among the declarations of `deps`.
pub open spec fn has_decl(deps: Seq<DepView>, decl: DeclareView) -> bool {
    exists|j: int| 0 <= j < deps.len() && (#[trigger] deps[j]).decl == decl
}

/// The dependencies that the declarations `decls` give among `files`: one
/// for each distinct declaration that at least one file resolves, in the
/// order of first occurrence.
pub open spec fn resolved(files: Seq<FileView>, decls: Seq<DeclareView>) -> Seq<DepView>
    decreases decls.len(),
{
    if decls.len() == 0 {
        Seq::empty()
    } else {
        let before = resolved(files, decls.drop_last());
        let decl = decls.last();
        let found = candidates(files, components(decl.path));
        if found.len() == 0 || has_decl(before, decl) {
            before
        } else {
            before.push(DepView { decl, candidates: found })
        }
    }
}

pub open spec fn node_files(nodes: Seq<ScannedView>) -> Seq<FileView> {
    Seq::new(nodes.len(), |i: int| nodes[i].file)
}

/// The graph below `root` of the scanned files.
pub open spec fn graph_of(root: Seq<char>, scanned: Seq<ScannedView>) -> DepGraphView {
    let nodes = nodes_of(scanned);
    let files = node_files(nodes);
    DepGraphView {
        root,
        files,
        deps: Seq::new(nodes.len(), |i: int| resolved(files, nodes[i].declares)),
    }
}

/// The first index at or after `from` at which `files` holds `file`.
pub open spec fn find_from(files: Seq<FileView>, file: FileView, from: int) -> Option<int>
    decreases files.len() - from,
{
    if from < 0 || from >= files.len() {
        None
    } else if files[from] == file {
        Some(from)
    } else {
        find_from(files, file, from + 1)
    }
}

/// The source files among `files`, in order.
pub open spec fn sources(files: Seq<FileView>) -> Seq<FileView>
    decreases files.len(),
{
    if files.len() == 0 {
        Seq::empty()
    } else if files.last().kind == FileType::Source {
        sources(files.drop_last()).push(files.last())
    } else {
        sources(files.drop_last())
    }
}

impl DepGraphView {
    /// What every graph built from scanned files satisfies.
    pub open spec fn wf(self) -> bool {
        &&& self.deps.len() == self.files.len()
        &&& forall|i: int|
            0 <= i < self.files.len() ==> file_kind((#[trigger] self.files[i]).path) == Some(
                self.files[i].kind,
            )
        &&& forall|i: int, j: int|
            0 <= i < j < self.files.len() ==> #[trigger] self.files[i] != #[trigger] self.files[j]
        &&& forall|i: int, k: int|
            0 <= i < self.deps.len() && 0 <= k < self.deps[i].len() ==> {
                &&& (#[trigger] self.deps[i][k]).candidates == candidates(
                    self.files,
                    components(self.deps[i][k].decl.path),
                )
                &&& self.deps[i][k].candidates.len() > 0
            }
        &&& forall|i: int, k: int, l: int|
            0 <= i < self.deps.len() && 0 <= k < l < self.deps[i].len() ==> (
            #[trigger] self.deps[i][k]).decl != (#[trigger] self.deps[i][l]).decl
    }
}

/// Every index that a lookup gives is that of a header below `n` whose path
/// ends with the key, the indices increase, and no such header is left out.
pub proof fn lemma_candidates(files: Seq<FileView>, key: Seq<Seq<char>>, n: int)
    requires
        0 <= n <= files.len(),
    ensures
        candidates_upto(files, key, n).len() <= n,
        forall|j: int|
            0 <= j < candidates_upto(files, key, n).len() ==> 0 <= (#[trigger] candidates_upto(
                files,
                key,
                n,
            )[j]) < n && resolves(files[candidates_upto(files, key, n)[j]], key),
        forall|j: int, l: int|
            0 <= j < l < candidates_upto(files, key, n).len() ==> candidates_upto(files, key, n)[j]
                < candidates_upto(files, key, n)[l],
        forall|i: int|
            0 <= i < n && resolves(#[trigger] files[i], key) ==> candidates_upto(
                files,
                key,
                n,
            ).contains(i),
    decreases n,
{
    if n > 0 {
        lemma_candidates(files, key, n - 1);
        let before = candidates_upto(files, key, n - 1);
        let now = candidates_upto(files, key, n);
        assert forall|i: int| 0 <= i < n && resolves(#[trigger] files[i], key) implies now.contains(
            i,
        ) by {
            if i < n - 1 {
                let j = choose|j: int| 0 <= j < before.len() && before[j] == i;
                assert(now[j] == i);
            } else {
                assert(now[now.len() - 1] == i);
            }
        }
    }
}

/// A lookup returns only headers whose path ends with the key, by
/// components, and it returns every such header, in discovery order.
pub proof fn lemma_lookup(files: Seq<FileView>, key: Seq<Seq<char>>)
    ensures
        forall|j: int|
            0 <= j < candidates(files, key).len() ==> {
                let i = #[trigger] candidates(files, key)[j];
                &&& 0 <= i < files.len()
                &&& files[i].kind == FileType::Header
                &&& ends_with(components(files[i].path), key)
            },
        forall|i: int|
            0 <= i < files.len() && resolves(#[trigger] files[i], key) ==> candidates(
                files,
                key,
            ).contains(i),
        forall|j: int, l: int|
            0 <= j < l < candidates(files, key).len() ==> candidates(files, key)[j] < candidates(
                files,
                key,
            )[l],
{
    lemma_candidates(files, key, files.len() as int);
}

/// In a well-formed graph an edge leads from a file only to a header that
/// resolves one of its declarations, and every dependency has such a
/// header.
pub proof fn lemma_edges_resolve(graph: DepGraphView, i: int, k: int)
    requires
        graph.wf(),
        0 <= i < graph.deps.len(),
        0 <= k < graph.deps[i].len(),
    ensures
        graph.deps[i][k].candidates.len() > 0,
        forall|c: int|
            0 <= c < graph.deps[i][k].candidates.len() ==> {
                let to = #[trigger] graph.deps[i][k].candidates[c];
                &&& 0 <= to < graph.files.len()
                &&& resolves(graph.files[to], components(graph.deps[i][k].decl.path))
            },
{
    lemma_candidates(
        graph.files,
        components(graph.deps[i][k].decl.path),
        graph.files.len() as int,
    );
}

/// Resolving keeps declarations as they were found: every dependency
/// carries one of the declarations given, kind and path unchanged, and
/// every declaration given that some file resolves is carried by a
/// dependency.
pub proof fn lemma_resolved_declares(files: Seq<FileView>, decls: Seq<DeclareView>)
    ensures
        forall|k: int|
            0 <= k < resolved(files, decls).len() ==> decls.contains(
                (#[trigger] resolved(files, decls)[k]).decl,
            ),
        forall|j: int|
            0 <= j < decls.len() && candidates(files, components((#[trigger] decls[j]).path)).len()
                > 0 ==> has_decl(resolved(files, decls), decls[j]),
    decreases decls.len(),
{
    if decls.len() > 0 {
        let rest = decls.drop_last();
        lemma_resolved_declares(files, rest);
        let before = resolved(files, rest);
        let now = resolved(files, decls);
        assert forall|k: int| 0 <= k < now.len() implies decls.contains((#[trigger] now[k]).decl) by {
            if k < before.len() {
                assert(now[k] == before[k]);
                let j = choose|j: int| 0 <= j < rest.len() && rest[j] == before[k].decl;
                assert(decls[j] == now[k].decl);
            } else {
                assert(decls[decls.len() - 1] == now[k].decl);
            }
        }
        assert forall|j: int|
            0 <= j < decls.len() && candidates(files, components((#[trigger] decls[j]).path)).len()
                > 0 implies has_decl(now, decls[j]) by {
            if j < rest.len() {
                assert(rest[j] == decls[j]);
                let k = choose|k: int| 0 <= k < before.len() && (#[trigger] before[k]).decl
                    == decls[j];
                assert(now[k].decl == decls[j]);
            } else if has_decl(before, decls.last()) {
                let k = choose|k: int| 0 <= k < before.len() && (#[trigger] before[k]).decl
                    == decls[j];
                assert(now[k].decl == decls[j]);
            } else {
                assert(now[now.len() - 1].decl == decls[j]);
            }
        }
    }
}

/// The pattern of an include declaration: `#include`, a space, an opening
/// quote or angle bracket, the path, and a closing quote or angle bracket.
pub const INCLUDE_PATTERN: &'static str = "#include ([\"<])([^\">]+)([\">])";

/// The declaration that the capture groups of one match of
/// [`INCLUDE_PATTERN`] stand for: group 1 is the opening delimiter, group 2
/// the path.
pub open spec fn declare_of(groups: Seq<Option<Seq<char>>>) -> Option<DeclareView> {
    if groups.len() >= 3 && groups[1] is Some && groups[2] is Some {
        if groups[1].unwrap() == seq!['<'] {
            Some(DeclareView { kind: DeclareType::System, path: groups[2].unwrap() })
        } else if groups[1].unwrap() == seq!['"'] {
            Some(DeclareView { kind: DeclareType::User, path: groups[2].unwrap() })
        } else {
            None
        }
    } else {
        None
    }
}

/// The declarations that a sequence of matches stands for, in order.
pub open spec fn declares_of(found: Seq<Seq<Option<Seq<char>>>>) -> Seq<DeclareView>
    decreases found.len(),
{
    if found.len() == 0 {
        Seq::empty()
    } else {
        match declare_of(found.last()) {
            Some(decl) => declares_of(found.drop_last()).push(decl),
            None => declares_of(found.drop_last()),
        }
    }
}

/// The include declarations in the text of a file, in order of occurrence.
pub open spec fn declares_in_text(text: Seq<char>) -> Seq<DeclareView> {
    match pattern_matches(INCLUDE_PATTERN@, text) {
        Some(found) => declares_of(found),
        None => Seq::empty(),
    }
}

/// A discovered file and its contents, `None` where it could not be read.
pub struct Discovered {
    pub file: File,
    pub contents: Option<String>,
}

pub struct DiscoveredView {
    pub file: FileView,
    pub contents: Option<Seq<char>>,
}

impl View for Discovered {
    type V = DiscoveredView;

    open spec fn view(&self) -> DiscoveredView {
        DiscoveredView {
            file: self.file@,
            contents: match self.contents {
                Some(text) => Some(text@),
                None => None,
            },
        }
    }
}

pub open spec fn discovered_views(v: Seq<Discovered>) -> Seq<DiscoveredView> {
    Seq::new(v.len(), |i: int| v[i]@)
}

/// What scanning makes of a discovered file: a file that could not be read
/// has no declarations.
pub open spec fn scan_one(found: DiscoveredView) -> ScannedView {
    ScannedView {
        file: found.file,
        declares: match found.contents {
            Some(text) => declares_in_text(text),
            None => Seq::empty(),
        },
    }
}

pub open spec fn scan_all(found: Seq<DiscoveredView>) -> Seq<ScannedView> {
    Seq::new(found.len(), |i: int| scan_one(found[i]))
}

/// The dependencies of file `i` as a listing: each declaration with the
/// files that can satisfy it.
pub open spec fn listing(graph: DepGraphView, i: int) -> Seq<(DeclareView, Seq<FileView>)> {
    Seq::new(
        graph.deps[i].len(),
        |k: int|
            (
                graph.deps[i][k].decl,
                Seq::new(
                    graph.deps[i][k].candidates.len(),
                    |c: int| graph.files[graph.deps[i][k].candidates[c]],
                ),
            ),
    )
}

pub open spec fn listing_view(list: Seq<(Declare, Vec<File>)>) -> Seq<(DeclareView, Seq<FileView>)> {
    Seq::new(list.len(), |k: int| (list[k].0@, file_views(list[k].1@)))
}

/// What a query for the dependencies of `file` gives: the listing of the
/// file's dependencies where the graph holds the file and at least one of
/// its declarations was resolved.
pub open spec fn deps_of(graph: DepGraphView, file: FileView) -> Option<
    Seq<(DeclareView, Seq<FileView>)>,
> {
    match find_from(graph.files, file, 0) {
        Some(i) => if graph.deps[i].len() > 0 {
            Some(listing(graph, i))
        } else {
            None
        },
        None => None,
    }
}

/// One dependency of a file.
pub struct Dep {
    decl: Declare,
    candidates: Vec<usize>,
}

impl View for Dep {
    type V = DepView;

    closed spec fn view(&self) -> DepView {
        DepView { decl: self.decl@, candidates: ids(self.candidates@) }
    }
}

pub open spec fn dep_views(v: Seq<Dep>) -> Seq<DepView> {
    Seq::new(v.len(), |i: int| v[i]@)
}

/// Dependency graph between all source and header files in a repository.
///
/// The nodes are the files; a file has an edge to each header that can
/// satisfy one of its include declarations.
pub struct DepGraph {
    root: String,
    files: Vec<File>,
    // The components of each file's path.
    parts: Vec<Vec<String>>,
    // Every suffix of the path of every header.
    abbrev: AbbrevTable,
    deps: Vec<Vec<Dep>>,
}

impl View for DepGraph {
    type V = DepGraphView;

    closed spec fn view(&self) -> DepGraphView {
        DepGraphView {
            root: self.root@,
            files: file_views(self.files@),
            deps: Seq::new(self.deps.len() as nat, |i: int| dep_views(self.deps[i]@)),
        }
    }
}

/// Whether `parts` holds the components of each of `files`.
pub open spec fn parts_of(files: Seq<File>, parts: Seq<Vec<String>>) -> bool {
    &&& parts.len() == files.len()
    &&& forall|i: int|
        0 <= i < files.len() ==> texts((#[trigger] parts[i])@) == components(files[i]@.path)
}

fn contains_file(files: &Vec<File>, file: &File) -> (found: bool)
    ensures
        found == exists|j: int| 0 <= j < files.len() && (#[trigger] files[j])@ == file@,
{
    let mut j: usize = 0;
    while j < files.len()
        invariant
            j <= files.len(),
            forall|l: int| 0 <= l < j ==> (#[trigger] files[l])@ != file@,
        decreases files.len() - j,
    {
        if files[j] == *file {
            return true;
        }
        j += 1;
    }
    false
}

fn contains_decl(deps: &Vec<Dep>, decl: &Declare) -> (found: bool)
    ensures
        found == has_decl(dep_views(deps@), decl@),
{
    let mut j: usize = 0;
    while j < deps.len()
        invariant
            j <= deps.len(),
            forall|l: int| 0 <= l < j ==> (#[trigger] dep_views(deps@)[l]).decl != decl@,
        decreases deps.len() - j,
    {
        if deps[j].decl == *decl {
            assert(dep_views(deps@)[j as int].decl == decl@);
            return true;
        }
        j += 1;
    }
    false
}

/// A copy of `list`.
fn copy_ids(list: &Vec<usize>) -> (out: Vec<usize>)
    ensures
        out@ == list@,
{
    let mut out: Vec<usize> = Vec::new();
    let mut i: usize = 0;
    while i < list.len()
        invariant
            i <= list.len(),
            out@ == list@.take(i as int),
        decreases list.len() - i,
    {
        out.push(list[i]);
        assert(list@.take(i + 1) == list@.take(i as int).push(list[i as int]));
        i += 1;
    }
    assert(list@.take(list.len() as int) == list@);
    out
}

/// Resolves the declarations of one file among `files`.
fn resolve_declares(files: &Vec<File>, table: &AbbrevTable, declares: &Vec<Declare>) -> (out: Vec<
    Dep,
>)
    requires
        table.covers(file_views(files@), files.len() as int),
    ensures
        dep_views(out@) == resolved(file_views(files@), declare_views(declares@)),
        forall|k: int|
            0 <= k < out.len() ==> (#[trigger] dep_views(out@)[k]).candidates == candidates(
                file_views(files@),
                components(dep_views(out@)[k].decl.path),
            ) && dep_views(out@)[k].candidates.len() > 0,
        forall|k: int, l: int|
            0 <= k < l < out.len() ==> (#[trigger] dep_views(out@)[k]).decl != (
            #[trigger] dep_views(out@)[l]).decl,
{
    let mut out: Vec<Dep> = Vec::new();
    let mut d: usize = 0;
    let n = declares.len();
    let ghost fv = file_views(files@);
    let ghost dv = declare_views(declares@);
    assert(dv.take(0) == Seq::<DeclareView>::empty());
    while d < n
        invariant
            n == declares.len(),
            d <= n,
            fv == file_views(files@),
            dv == declare_views(declares@),
            table.covers(fv, files.len() as int),
            dep_views(out@) == resolved(fv, dv.take(d as int)),
            forall|k: int|
                0 <= k < out.len() ==> (#[trigger] dep_views(out@)[k]).candidates == candidates(
                    fv,
                    components(dep_views(out@)[k].decl.path),
                ) && dep_views(out@)[k].candidates.len() > 0,
            forall|k: int, l: int|
                0 <= k < l < out.len() ==> (#[trigger] dep_views(out@)[k]).decl != (
                #[trigger] dep_views(out@)[l]).decl,
        decreases n - d,
    {
        let decl = &declares[d];
        let key = split(decl.path().as_str());
        let ghost before = dep_views(out@);
        proof {
            assert(dv.take(d + 1).drop_last() == dv.take(d as int));
            assert(dv.take(d + 1).last() == decl@);
        }
        let found = match table.lookup(Ghost(fv), &key) {
            Some(list) => Some(copy_ids(list)),
            None => None,
        };
        if found.is_some() && !contains_decl(&out, decl) {
            let dep = Dep { decl: decl.clone(), candidates: found.unwrap() };
            proof {
                assert(dep_views(out@.push(dep)) == before.push(dep@));
                assert forall|k: int, l: int| 0 <= k < l < out.len() + 1 implies (
                #[trigger] before.push(dep@)[k]).decl != (#[trigger] before.push(dep@)[l]).decl by {
                    if l == out.len() {
                        assert(before[k].decl != decl@);
                    }
                }
            }
            out.push(dep);
        }
        d += 1;
    }
    assert(dv.take(n as int) == dv);
    out
}

impl DepGraph {
    /// The cached components belong to the files.
    pub closed spec fn cached(&self) -> bool {
        &&& parts_of(self.files@, self.parts@)
        &&& self.abbrev.covers(file_views(self.files@), self.files.len() as int)
        &&& self.deps.len() == self.files.len()
    }

    /// What holds of every graph that this module hands out.
    pub open spec fn wf(&self) -> bool {
        self@.wf() && self.cached()
    }

    /// Builds the graph below `root` of the given files and the declarations
    /// found in them.
    pub fn from_scanned(root: &str, scanned: &Vec<Scanned>) -> (graph: Self)
        ensures
            graph@ == graph_of(root@, scanned_views(scanned@)),
            graph.wf(),
    {
        let ghost sv = scanned_views(scanned@);
        let n = scanned.len();
        // The first occurrence of each file.
        let mut files: Vec<File> = Vec::new();
        let mut kept: Vec<usize> = Vec::new();
        let mut i: usize = 0;
        assert(sv.take(0) == Seq::<ScannedView>::empty());
        while i < n
            invariant
                n == scanned.len(),
                i <= n,
                sv == scanned_views(scanned@),
                kept.len() == files.len(),
                forall|j: int| 0 <= j < kept.len() ==> (#[trigger] kept[j]) < i,
                nodes_of(sv.take(i as int)) == Seq::new(
                    kept.len() as nat,
                    |j: int| sv[kept[j] as int],
                ),
                forall|j: int|
                    0 <= j < files.len() ==> (#[trigger] files[j])@ == sv[kept[j] as int].file,
                forall|j: int|
                    0 <= j < files.len() ==> file_kind((#[trigger] files[j])@.path) == Some(
                        files[j]@.kind,
                    ),
                forall|j: int, l: int|
                    0 <= j < l < files.len() ==> (#[trigger] files[j])@ != (#[trigger] files[l])@,
            decreases n - i,
        {
            let file = &scanned[i].file;
            let ghost before = nodes_of(sv.take(i as int));
            proof {
                assert(sv.take(i + 1).drop_last() == sv.take(i as int));
                assert(sv.take(i + 1).last() == sv[i as int]);
                assert(sv[i as int].file == file@);
            }
            let known = contains_file(&files, file);
            proof {
                if known {
                    let j = choose|j: int| 0 <= j < files.len() && (#[trigger] files[j])@ == file@;
                    assert(before[j].file == file@);
                } else if has_file(before, file@) {
                    let j = choose|j: int|
                        0 <= j < before.len() && (#[trigger] before[j]).file == file@;
                    assert(files[j]@ == file@);
                }
            }
            if !known {
                let _ = file.kind();
                let ghost old_kept = kept@;
                files.push(file.clone());
                kept.push(i);
                proof {
                    assert(Seq::new(kept.len() as nat, |j: int| sv[kept[j] as int]) == Seq::new(
                        old_kept.len(),
                        |j: int| sv[old_kept[j] as int],
                    ).push(sv[i as int]));
                }
            }
            i += 1;
        }
        assert(sv.take(n as int) == sv);
        let ghost nodes = nodes_of(sv);
        let count = files.len();
        assert(file_views(files@) == node_files(nodes));

        let mut parts: Vec<Vec<String>> = Vec::new();
        let mut p: usize = 0;
        while p < count
            invariant
                count == files.len(),
                p <= count,
                parts.len() == p,
                forall|j: int|
                    0 <= j < p ==> texts((#[trigger] parts[j])@) == components(files[j]@.path),
            decreases count - p,
        {
            parts.push(files[p].components());
            p += 1;
        }

        // Every suffix of the path of a header names the header.
        let abbrev = AbbrevTable::build(&files, &parts);

        let mut deps: Vec<Vec<Dep>> = Vec::new();
        let mut f: usize = 0;
        while f < count
            invariant
                abbrev.covers(file_views(files@), files.len() as int),
                count == files.len() == kept.len(),
                n == scanned.len(),
                sv == scanned_views(scanned@),
                nodes == Seq::new(kept.len() as nat, |j: int| sv[kept[j] as int]),
                forall|j: int| 0 <= j < kept.len() ==> (#[trigger] kept[j]) < n,
                f <= count,
                deps.len() == f,
                parts_of(files@, parts@),
                forall|j: int|
                    0 <= j < f ==> dep_views((#[trigger] deps[j])@) == resolved(
                        file_views(files@),
                        nodes[j].declares,
                    ),
                forall|j: int, k: int|
                    0 <= j < f && 0 <= k < deps[j].len() ==> (#[trigger] dep_views(
                        deps[j]@,
                    )[k]).candidates == candidates(
                        file_views(files@),
                        components(dep_views(deps[j]@)[k].decl.path),
                    ) && dep_views(deps[j]@)[k].candidates.len() > 0,
                forall|j: int, k: int, l: int|
                    0 <= j < f && 0 <= k < l < deps[j].len() ==> (#[trigger] dep_views(
                        deps[j]@,
                    )[k]).decl != (#[trigger] dep_views(deps[j]@)[l]).decl,
            decreases count - f,
        {
            let at = kept[f];
            let found = resolve_declares(&files, &abbrev, &scanned[at].declares);
            deps.push(found);
            f += 1;
        }
        let graph = DepGraph { root: root.to_owned(), files, parts, abbrev, deps };
        proof {
            let want = graph_of(root@, sv);
            assert(graph@.files == want.files);
            assert(graph@.deps =~= want.deps);
            assert(graph@ == want);
            assert forall|i: int, k: int|
                0 <= i < graph@.deps.len() && 0 <= k < graph@.deps[i].len() implies {
                &&& (#[trigger] graph@.deps[i][k]).candidates == candidates(
                    graph@.files,
                    components(graph@.deps[i][k].decl.path),
                )
                &&& graph@.deps[i][k].candidates.len() > 0
            } by {
                assert(graph@.deps[i][k] == dep_views(graph.deps[i]@)[k]);
            }
            assert forall|i: int, k: int, l: int|
                0 <= i < graph@.deps.len() && 0 <= k < l < graph@.deps[i].len() implies (
            #[trigger] graph@.deps[i][k]).decl != (#[trigger] graph@.deps[i][l]).decl by {
                assert(graph@.deps[i][k] == dep_views(graph.deps[i]@)[k]);
                assert(graph@.deps[i][l] == dep_views(graph.deps[i]@)[l]);
            }
        }
        graph
    }

    /// Builds the graph below `root` of the discovered files: scans the
    /// contents of each for include declarations and resolves them.
    pub fn new(root: &str, found: &Vec<Discovered>) -> (graph: Self)
        ensures
            graph@ == graph_of(root@, scan_all(discovered_views(found@))),
            graph.wf(),
    {
        let mut scanned: Vec<Scanned> = Vec::new();
        let n = found.len();
        let mut i: usize = 0;
        while i < n
            invariant
                n == found.len(),
                i <= n,
                scanned.len() == i,
                forall|j: int|
                    0 <= j < i ==> (#[trigger] scanned[j])@ == scan_one(discovered_views(found@)[j]),
            decreases n - i,
        {
            let declares = match &found[i].contents {
                Some(text) => parse_declare(text.as_str()),
                None => Vec::new(),
            };
            let entry = Scanned { file: found[i].file.clone(), declares };
            assert(entry@.declares =~= scan_one(discovered_views(found@)[i as int]).declares);
            scanned.push(entry);
            i += 1;
        }
        assert(scanned_views(scanned@) == scan_all(discovered_views(found@)));
        Self::from_scanned(root, &scanned)
    }

    /// Return the root directory.
    pub fn root(&self) -> (root: &String)
        ensures
            root@ == self@.root,
    {
        &self.root
    }

    /// The number of files in the graph.
    pub fn len(&self) -> (n: usize)
        ensures
            n == self@.files.len(),
    {
        self.files.len()
    }

    /// The file at index `i`.
    pub fn file(&self, i: usize) -> (file: &File)
        requires
            i < self@.files.len(),
        ensures
            file@ == self@.files[i as int],
    {
        &self.files[i]
    }

    /// The components of the path of the file at index `i`.
    pub fn file_parts(&self, i: usize) -> (parts: &Vec<String>)
        requires
            self.wf(),
            i < self@.files.len(),
        ensures
            texts(parts@) == components(self@.files[i as int].path),
    {
        &self.parts[i]
    }

    /// The number of dependencies of the file at index `i`.
    pub fn dep_count(&self, i: usize) -> (n: usize)
        requires
            self.wf(),
            i < self@.files.len(),
        ensures
            n == self@.deps[i as int].len(),
    {
        self.deps[i].len()
    }

    /// The declaration of dependency `k` of the file at index `i`.
    pub fn dep_declare(&self, i: usize, k: usize) -> (decl: &Declare)
        requires
            self.wf(),
            i < self@.files.len(),
            k < self@.deps[i as int].len(),
        ensures
            decl@ == self@.deps[i as int][k as int].decl,
    {
        &self.deps[i][k].decl
    }

    /// The candidates of dependency `k` of the file at index `i`.
    pub fn dep_candidates(&self, i: usize, k: usize) -> (found: &Vec<usize>)
        requires
            self.wf(),
            i < self@.files.len(),
            k < self@.deps[i as int].len(),
        ensures
            ids(found@) == self@.deps[i as int][k as int].candidates,
    {
        &self.deps[i][k].candidates
    }

    /// Looks a declared path up among the headers of the graph: the headers
    /// whose path ends with the components of `path`, in discovery order.
    pub fn lookup(&self, path: &str) -> (found: Vec<File>)
        requires
            self.wf(),
        ensures
            found.len() == candidates(self@.files, components(path@)).len(),
            forall|j: int|
                0 <= j < found.len() ==> {
                    let i = candidates(self@.files, components(path@))[j];
                    &&& 0 <= i < self@.files.len()
                    &&& (#[trigger] found[j])@ == self@.files[i]
                    &&& found[j]@.kind == FileType::Header
                    &&& ends_with(components(found[j]@.path), components(path@))
                },
    {
        let key = split(path);
        proof {
            lemma_lookup(self@.files, components(path@));
        }
        let ghost want = candidates(self@.files, components(path@));
        let mut found: Vec<File> = Vec::new();
        let at = match self.abbrev.lookup(Ghost(self@.files), &key) {
            Some(at) => at,
            None => {
                return found;
            },
        };
        let mut j: usize = 0;
        while j < at.len()
            invariant
                j <= at.len(),
                found.len() == j,
                want == ids(at@),
                forall|l: int| 0 <= l < want.len() ==> 0 <= (#[trigger] want[l]) < self.files.len(),
                forall|l: int| 0 <= l < j ==> (#[trigger] found[l])@ == self@.files[want[l]],
            decreases at.len() - j,
        {
            let i = at[j];
            assert(want[j as int] == i);
            found.push(self.files[i].clone());
            j += 1;
        }
        found
    }

    /// The index of `file` in the graph, if it holds the file.
    pub fn index_of(&self, file: &File) -> (at: Option<usize>)
        ensures
            at matches Some(i) ==> find_from(self@.files, file@, 0) == Some(i as int) && i
                < self@.files.len() && self@.files[i as int] == file@,
            at is None ==> find_from(self@.files, file@, 0) is None,
    {
        let n = self.files.len();
        let mut i: usize = 0;
        while i < n
            invariant
                n == self.files.len(),
                i <= n,
                find_from(self@.files, file@, 0) == find_from(self@.files, file@, i as int),
            decreases n - i,
        {
            if self.files[i] == *file {
                return Some(i);
            }
            i += 1;
        }
        None
    }

    /// Return all source files in the graph, in discovery order.
    pub fn source_files(&self) -> (out: Vec<File>)
        ensures
            file_views(out@) == sources(self@.files),
    {
        let mut out: Vec<File> = Vec::new();
        let n = self.files.len();
        let mut i: usize = 0;
        assert(self@.files.take(0) == Seq::<FileView>::empty());
        while i < n
            invariant
                n == self.files.len(),
                i <= n,
                file_views(out@) == sources(self@.files.take(i as int)),
            decreases n - i,
        {
            proof {
                assert(self@.files.take(i + 1).drop_last() == self@.files.take(i as int));
                assert(self@.files.take(i + 1).last() == self.files[i as int]@);
            }
            if let FileType::Source = self.files[i].kind() {
                let file = self.files[i].clone();
                assert(file_views(out@.push(file)) == file_views(out@).push(file@));
                out.push(file);
            }
            i += 1;
        }
        assert(self@.files.take(n as int) == self@.files);
        out
    }

    /// The dependencies of `file`: each resolved declaration with the files
    /// that can satisfy it. `None` for a file that the graph does not hold
    /// and for one without a resolved declaration.
    pub fn deps(&self, file: &File) -> (out: Option<Vec<(Declare, Vec<File>)>>)
        requires
            self.wf(),
        ensures
            match out {
                Some(list) => Some(listing_view(list@)) == deps_of(self@, file@),
                None => deps_of(self@, file@) is None,
            },
    {
        let i = match self.index_of(file) {
            Some(i) => i,
            None => {
                return None;
            },
        };
        assert(self@.deps[i as int] == dep_views(self.deps[i as int]@));
        let count = self.deps[i].len();
        if count == 0 {
            return None;
        }
        let ghost want = listing(self@, i as int);
        let mut list: Vec<(Declare, Vec<File>)> = Vec::new();
        let mut k: usize = 0;
        while k < count
            invariant
                self.wf(),
                i < self.deps.len(),
                count == self.deps[i as int].len(),
                k <= count,
                list.len() == k,
                want == listing(self@, i as int),
                forall|j: int| 0 <= j < k ==> (#[trigger] listing_view(list@)[j]) == want[j],
            decreases count - k,
        {
            let dep = &self.deps[i][k];
            let ghost dv = self@.deps[i as int][k as int];
            proof {
                assert(dv == dep@);
                lemma_candidates(self@.files, components(dv.decl.path), self@.files.len() as int);
            }
            let m = dep.candidates.len();
            let mut files: Vec<File> = Vec::new();
            let mut c: usize = 0;
            while c < m
                invariant
                    m == dep.candidates.len(),
                    c <= m,
                    files.len() == c,
                    dv.candidates == ids(dep.candidates@),
                    forall|j: int|
                        0 <= j < m ==> 0 <= (#[trigger] dv.candidates[j]) < self.files.len(),
                    forall|j: int|
                        0 <= j < c ==> (#[trigger] files[j])@ == self@.files[dv.candidates[j]],
                decreases m - c,
            {
                let at = dep.candidates[c];
                assert(dv.candidates[c as int] == at);
                files.push(self.files[at].clone());
                c += 1;
            }
            proof {
                assert(file_views(files@) == want[k as int].1);
            }
            let ghost old_list = list@;
            list.push((dep.decl.clone(), files));
            proof {
                assert forall|j: int| 0 <= j < k + 1 implies (#[trigger] listing_view(list@)[j])
                    == want[j] by {
                    if j < k {
                        assert(listing_view(old_list)[j] == want[j]);
                        assert(list@[j] == old_list[j]);
                    }
                }
            }
            k += 1;
        }
        assert(listing_view(list@) == want);
        Some(list)
    }
}

/// The declarations that the matches `found` of [`INCLUDE_PATTERN`] stand
/// for, in order. A match whose groups do not hold a delimiter and a path
/// gives no declaration.
pub fn declares_in(found: &Vec<Groups>) -> (out: Vec<Declare>)
    ensures
        declare_views(out@) == declares_of(found.deep_view()),
{
    let mut out: Vec<Declare> = Vec::new();
    let n = found.len();
    let mut i: usize = 0;
    let ghost fv = found.deep_view();
    assert(fv.take(0) == Seq::<Seq<Option<Seq<char>>>>::empty());
    while i < n
        invariant
            n == found.len(),
            i <= n,
            fv == found.deep_view(),
            declare_views(out@) == declares_of(fv.take(i as int)),
        decreases n - i,
    {
        let groups = &found[i];
        proof {
            assert(fv.take(i + 1).drop_last() == fv.take(i as int));
            assert(fv.take(i + 1).last() == groups.deep_view());
        }
        let ghost gv = groups.deep_view();
        let mut made: Option<Declare> = None;
        if groups.len() >= 3 {
            assert(gv[1] == groups[1].deep_view());
            assert(gv[2] == groups[2].deep_view());
            match (&groups[1], &groups[2]) {
                (Some(delim), Some(path)) => {
                    if delim.as_str().unicode_len() == 1 {
                        let c = delim.as_str().get_char(0);
                        assert(delim@ == seq![c]);
                        if c == '<' {
                            made = Some(Declare::new(path.as_str(), DeclareType::System));
                        } else if c == '"' {
                            made = Some(Declare::new(path.as_str(), DeclareType::User));
                        } else {
                            assert(delim@[0] != '<' && delim@[0] != '"');
                        }
                    } else {
                        assert(delim@.len() != 1);
                    }
                },
                _ => {},
            }
        }
        proof {
            assert(match made {
                Some(d) => declare_of(gv) == Some(d@),
                None => declare_of(gv) is None,
            });
        }
        match made {
            Some(decl) => {
                assert(declare_views(out@.push(decl)) == declare_views(out@).push(decl@));
                out.push(decl);
            },
            None => {},
        }
        i += 1;
    }
    assert(fv.take(n as int) == fv);
    out
}

/// The include declarations in the text of a file, in order of occurrence.
pub fn parse_declare(text: &str) -> (out: Vec<Declare>)
    ensures
        declare_views(out@) == declares_in_text(text@),
{
    match find_all(INCLUDE_PATTERN, text) {
        Some(found) => declares_in(&found),
        None => Vec::new(),
    }
}

} // verus!
