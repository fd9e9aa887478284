//! Program files and include declarations.

use vstd::prelude::*;
use crate::path::{components, join, join_range, parts_start_with, split, starts_with, texts};

verus! {

/// Kind of a program file.
#[derive(Clone, Copy, Debug, Eq, Hash, PartialEq, Structural)]
pub enum FileType {
    Source,
    Header,
}

/// The kind that the last component of a path stands for: `Source` where it
/// ends in `.c`, `Header` where it ends in `.h`, in both cases after at
/// least one other character.
pub open spec fn file_kind(path: Seq<char>) -> Option<FileType> {
    let parts = components(path);
    if parts.len() == 0 {
        None
    } else {
        let name = parts.last();
        if name.len() >= 3 && name[name.len() - 2] == '.' {
            if name.last() == 'c' {
                Some(FileType::Source)
            } else if name.last() == 'h' {
                Some(FileType::Header)
            } else {
                None
            }
        } else {
            None
        }
    }
}

/// The path of `string` relative to `directory`: what is left of its
/// components once those of `directory` are taken from the front.
pub open spec fn relative_path(string: Seq<char>, directory: Seq<char>) -> Option<Seq<char>> {
    let whole = components(string);
    let head = components(directory);
    if starts_with(whole, head) {
        Some(join(whole.subrange(head.len() as int, whole.len() as int)))
    } else {
        None
    }
}

/// The components of a relative path are those of the path without those
/// of the directory.
pub proof fn lemma_relative_components(string: Seq<char>, directory: Seq<char>)
    ensures
        relative_path(string, directory) matches Some(path) ==> components(path) == components(
            string,
        ).subrange(components(directory).len() as int, components(string).len() as int),
{
    let whole = components(string);
    let head = components(directory);
    if starts_with(whole, head) {
        let rest = whole.subrange(head.len() as int, whole.len() as int);
        crate::path::lemma_components_are_components(string);
        assert forall|k: int| 0 <= k < rest.len() implies crate::path::is_component(
            #[trigger] rest[k],
        ) by {
            assert(rest[k] == whole[head.len() + k]);
        }
        crate::path::lemma_components_of_join(rest);
    }
}

/// The path of `string` relative to `directory`, where it lies below it.
pub fn relative_to(string: &str, directory: &str) -> (path: Option<String>)
    ensures
        crate::runner::option_text(path) == relative_path(string@, directory@),
{
    let whole = split(string);
    let head = split(directory);
    if !parts_start_with(&whole, &head) {
        return None;
    }
    Some(join_range(&whole, head.len(), whole.len()))
}

/// The file that `string` names relative to `directory`, if it names one.
pub open spec fn relative_file(string: Seq<char>, directory: Seq<char>) -> Option<FileView> {
    match relative_path(string, directory) {
        Some(path) => match file_kind(path) {
            Some(kind) => Some(FileView { kind, path }),
            None => None,
        },
        None => None,
    }
}

/// What identifies a file: its kind and its path relative to the repository.
pub struct FileView {
    pub kind: FileType,
    pub path: Seq<char>,
}

/// Program file.
#[derive(Debug, Eq, Hash)]
pub struct File {
    kind: FileType,
    path: String,
}

impl View for File {
    type V = FileView;

    closed spec fn view(&self) -> FileView {
        FileView { kind: self.kind, path: self.path@ }
    }
}

impl Clone for File {
    fn clone(&self) -> (out: Self)
        ensures
            out@ == self@,
    {
        proof {
            use_type_invariant(self);
        }
        File { kind: self.kind, path: self.path.clone() }
    }
}

impl PartialEq for File {
    fn eq(&self, other: &Self) -> (same: bool) {
        self.kind == other.kind && self.path == other.path
    }
}

impl vstd::std_specs::cmp::PartialEqSpecImpl for File {
    open spec fn obeys_eq_spec() -> bool {
        true
    }

    open spec fn eq_spec(&self, other: &Self) -> bool {
        self@ == other@
    }
}

impl File {
    /// The kind of a file is the one that its path stands for.
    #[verifier::type_invariant]
    spec fn kind_fits(&self) -> bool {
        file_kind(self.path@) == Some(self.kind)
    }

    /// The kind of file that `path` names, if any.
    pub fn kind_of(path: &str) -> (kind: Option<FileType>)
        ensures
            kind == file_kind(path@),
    {
        let parts = split(path);
        if parts.len() == 0 {
            return None;
        }
        let name = parts[parts.len() - 1].as_str();
        assert(name@ == texts(parts@).last());
        let n = name.unicode_len();
        if n >= 3 && name.get_char(n - 2) == '.' {
            let last = name.get_char(n - 1);
            if last == 'c' {
                Some(FileType::Source)
            } else if last == 'h' {
                Some(FileType::Header)
            } else {
                None
            }
        } else {
            None
        }
    }

    /// Create a new file.
    pub fn new(path: &str) -> (file: Self)
        requires
            file_kind(path@) is Some,
        ensures
            file@ == (FileView { kind: file_kind(path@).unwrap(), path: path@ }),
    {
        File { kind: Self::kind_of(path).unwrap(), path: path.to_owned() }
    }

    /// Create a new file where `path` names one.
    pub fn try_new(path: &str) -> (file: Option<Self>)
        ensures
            file is Some <==> file_kind(path@) is Some,
            file matches Some(f) ==> f@ == (FileView {
                kind: file_kind(path@).unwrap(),
                path: path@,
            }),
    {
        match Self::kind_of(path) {
            Some(kind) => Some(File { kind, path: path.to_owned() }),
            None => None,
        }
    }

    /// Create a new file relative to `directory`.
    pub fn relative(string: &str, directory: &str) -> (file: Self)
        requires
            relative_file(string@, directory@) is Some,
        ensures
            Some(file@) == relative_file(string@, directory@),
    {
        Self::try_relative(string, directory).unwrap()
    }

    /// Create a new file relative to `directory`, where `string` lies below
    /// it and names a file.
    pub fn try_relative(string: &str, directory: &str) -> (file: Option<Self>)
        ensures
            file is Some <==> relative_file(string@, directory@) is Some,
            file matches Some(f) ==> Some(f@) == relative_file(string@, directory@),
    {
        match relative_to(string, directory) {
            Some(path) => Self::try_new(path.as_str()),
            None => None,
        }
    }

    pub fn kind(&self) -> (kind: FileType)
        ensures
            kind == self@.kind,
            file_kind(self@.path) == Some(kind),
    {
        proof {
            use_type_invariant(self);
        }
        self.kind
    }

    pub fn path(&self) -> (path: &String)
        ensures
            path@ == self@.path,
    {
        &self.path
    }

    /// The components of the file's path.
    pub fn components(&self) -> (parts: Vec<String>)
        ensures
            texts(parts@) == components(self@.path),
    {
        split(self.path.as_str())
    }
}

/// Kind of an include declaration.
#[derive(Clone, Copy, Debug, Hash, Eq, PartialEq, Structural)]
pub enum DeclareType {
    /// `#include "file.h"`
    User,
    /// `#include <file.h>`
    System,
}

/// What identifies a declaration: its kind and the path as written.
pub struct DeclareView {
    pub kind: DeclareType,
    pub path: Seq<char>,
}

/// An include declaration.
#[derive(Debug, Hash, Eq)]
pub struct Declare {
    kind: DeclareType,
    path: String,
}

impl View for Declare {
    type V = DeclareView;

    closed spec fn view(&self) -> DeclareView {
        DeclareView { kind: self.kind, path: self.path@ }
    }
}

impl Clone for Declare {
    fn clone(&self) -> (out: Self)
        ensures
            out@ == self@,
    {
        Declare { kind: self.kind, path: self.path.clone() }
    }
}

impl PartialEq for Declare {
    fn eq(&self, other: &Self) -> (same: bool) {
        self.kind == other.kind && self.path == other.path
    }
}

impl vstd::std_specs::cmp::PartialEqSpecImpl for Declare {
    open spec fn obeys_eq_spec() -> bool {
        true
    }

    open spec fn eq_spec(&self, other: &Self) -> bool {
        self@ == other@
    }
}

impl Declare {
    pub fn new(path: &str, kind: DeclareType) -> (decl: Self)
        ensures
            decl@ == (DeclareView { kind, path: path@ }),
    {
        Declare { kind, path: path.to_owned() }
    }

    pub fn kind(&self) -> (kind: DeclareType)
        ensures
            kind == self@.kind,
    {
        self.kind
    }

    pub fn is_user(&self) -> (user: bool)
        ensures
            user == (self@.kind == DeclareType::User),
    {
        match self.kind {
            DeclareType::User => true,
            _ => false,
        }
    }

    pub fn is_system(&self) -> (system: bool)
        ensures
            system == (self@.kind == DeclareType::System),
    {
        match self.kind {
            DeclareType::System => true,
            _ => false,
        }
    }

    pub fn path(&self) -> (path: &String)
        ensures
            path@ == self@.path,
    {
        &self.path
    }
}

} // verus!
