//! The in-memory directory model: one node per filesystem directory, with
//! children and files kept sorted by name, denylisted directory names never
//! materialized, and every node's path equal to its parent's path plus `/`
//! plus its own name.
//!
//! Nodes are built from an `FsDir` snapshot: a plain recording of what a
//! directory walk found on disk, handed in by the caller, so that everything
//! here is pure computation.

use vstd::prelude::*;

use crate::text::{lex_leq, str_eq};

verus! {

/// One eligible code file, with its summary once one has been recorded.
pub struct FileInfo {
    pub name: String,
    pub summary: Option<String>,
}

/// One directory: its name, its absolute path, its subdirectories and its
/// files, both sorted by name.
pub struct Directory {
    pub name: String,
    pub subdirs: Vec<Directory>,
    pub files: Vec<FileInfo>,
    pub path: String,
}

/// A snapshot of one directory on disk: the names of its entries, as a
/// directory walk found them, in no particular order and unfiltered.
pub struct FsDir {
    pub name: String,
    pub dirs: Vec<FsDir>,
    pub files: Vec<String>,
}

/// Mathematical image of a `FileInfo`.
pub ghost struct FileModel {
    pub name: Seq<char>,
    pub summary: Option<Seq<char>>,
}

/// Mathematical image of a `Directory`.
pub ghost struct DirModel {
    pub name: Seq<char>,
    pub path: Seq<char>,
    pub subdirs: Seq<DirModel>,
    pub files: Seq<FileModel>,
}

/// Mathematical image of an `FsDir`.
pub ghost struct FsModel {
    pub name: Seq<char>,
    pub dirs: Seq<FsModel>,
    pub files: Seq<Seq<char>>,
}

pub open spec fn file_model(f: FileInfo) -> FileModel {
    FileModel {
        name: f.name@,
        summary: match f.summary {
            Some(s) => Some(s@),
            None => None,
        },
    }
}

pub open spec fn files_model(s: Seq<FileInfo>) -> Seq<FileModel> {
    Seq::new(s.len(), |i: int| file_model(s[i]))
}

pub open spec fn strs_model(s: Seq<String>) -> Seq<Seq<char>> {
    Seq::new(s.len(), |i: int| s[i]@)
}

pub open spec fn dir_model(d: Directory) -> DirModel
    decreases d,
{
    DirModel {
        name: d.name@,
        path: d.path@,
        subdirs: dirs_model(d.subdirs@),
        files: files_model(d.files@),
    }
}

pub open spec fn dirs_model(s: Seq<Directory>) -> Seq<DirModel>
    decreases s,
{
    if s.len() == 0 {
        Seq::empty()
    } else {
        seq![dir_model(s[0])] + dirs_model(s.drop_first())
    }
}

pub open spec fn fs_model(f: FsDir) -> FsModel
    decreases f,
{
    FsModel { name: f.name@, dirs: fss_model(f.dirs@), files: strs_model(f.files@) }
}

pub open spec fn fss_model(s: Seq<FsDir>) -> Seq<FsModel>
    decreases s,
{
    if s.len() == 0 {
        Seq::empty()
    } else {
        seq![fs_model(s[0])] + fss_model(s.drop_first())
    }
}

pub proof fn lemma_dirs_model_index(s: Seq<Directory>)
    ensures
        dirs_model(s).len() == s.len(),
        forall|i: int| 0 <= i < s.len() ==> dirs_model(s)[i] == dir_model(s[i]),
    decreases s,
{
    if s.len() > 0 {
        lemma_dirs_model_index(s.drop_first());
    }
}

pub proof fn lemma_fss_model_index(s: Seq<FsDir>)
    ensures
        fss_model(s).len() == s.len(),
        forall|i: int| 0 <= i < s.len() ==> fss_model(s)[i] == fs_model(s[i]),
    decreases s,
{
    if s.len() > 0 {
        lemma_fss_model_index(s.drop_first());
    }
}

/// A child's path is its parent's path, a separator, and its own name.
pub open spec fn join(base: Seq<char>, name: Seq<char>) -> Seq<char> {
    base + seq!['/'] + name
}

pub fn join_path(base: &str, name: &str) -> (r: String)
    ensures
        r@ == join(base@, name@),
{
    let mut s = base.to_owned();
    s.append("/");
    s.append(name);
    proof {
        reveal_strlit("/");
        assert("/"@ =~= seq!['/']);
    }
    s
}

/// The fixed denylist: directory names that are never materialized as nodes.
pub open spec fn denied_name(n: Seq<char>) -> bool {
    n == ".git"@ || n == ".github"@ || n == ".pytest_cache"@ || n == ".gitignore"@ || n
        == "site-packages"@
}

/// Whether a directory name is hidden or otherwise commonly ignored.
pub fn is_hidden_or_common_ignore(name: &str) -> (r: bool)
    ensures
        r == denied_name(name@),
{
    str_eq(name, ".git") || str_eq(name, ".github") || str_eq(name, ".pytest_cache") || str_eq(
        name,
        ".gitignore",
    ) || str_eq(name, "site-packages")
}

/// The index of the last occurrence of `c` in `s`, or -1.
pub open spec fn last_index_of(s: Seq<char>, c: char) -> int
    decreases s.len(),
{
    if s.len() == 0 {
        -1
    } else if s[s.len() - 1] == c {
        s.len() - 1
    } else {
        last_index_of(s.drop_last(), c)
    }
}

pub proof fn lemma_last_index_of_found(s: Seq<char>, c: char, i: int)
    requires
        0 <= i < s.len(),
        s[i] == c,
        forall|j: int| i < j < s.len() ==> s[j] != c,
    ensures
        last_index_of(s, c) == i,
    decreases s.len(),
{
    if i < s.len() - 1 {
        lemma_last_index_of_found(s.drop_last(), c, i);
    }
}

pub proof fn lemma_last_index_of_none(s: Seq<char>, c: char)
    requires
        forall|j: int| 0 <= j < s.len() ==> s[j] != c,
    ensures
        last_index_of(s, c) == -1,
    decreases s.len(),
{
    if s.len() > 0 {
        lemma_last_index_of_none(s.drop_last(), c);
    }
}

/// The extension of a file name: what follows the final dot, provided the
/// dot is neither absent nor the leading character.
pub open spec fn ext_model(name: Seq<char>) -> Option<Seq<char>> {
    let i = last_index_of(name, '.');
    if i <= 0 {
        None
    } else {
        Some(name.subrange(i + 1, name.len() as int))
    }
}

/// The fixed allow-list of summarizable source and text extensions.
pub open spec fn allowed_ext(e: Seq<char>) -> bool {
    ||| e == "rs"@
    ||| e == "py"@
    ||| e == "js"@
    ||| e == "ts"@
    ||| e == "java"@
    ||| e == "cpp"@
    ||| e == "c"@
    ||| e == "go"@
    ||| e == "sh"@
    ||| e == "rb"@
    ||| e == "bat"@
    ||| e == "cs"@
    ||| e == "resx"@
    ||| e == "h"@
    ||| e == "md"@
}

/// A file belongs in the tree exactly when its extension is allowed.
pub open spec fn eligible_file(name: Seq<char>) -> bool {
    match ext_model(name) {
        Some(e) => allowed_ext(e),
        None => false,
    }
}

fn ext_allowed(e: &str) -> (r: bool)
    ensures
        r == allowed_ext(e@),
{
    str_eq(e, "rs") || str_eq(e, "py") || str_eq(e, "js") || str_eq(e, "ts") || str_eq(e, "java")
        || str_eq(e, "cpp") || str_eq(e, "c") || str_eq(e, "go") || str_eq(e, "sh") || str_eq(
        e,
        "rb",
    ) || str_eq(e, "bat") || str_eq(e, "cs") || str_eq(e, "resx") || str_eq(e, "h") || str_eq(
        e,
        "md",
    )
}

/// Children sorted ascending by name.
pub open spec fn dirs_sorted(s: Seq<DirModel>) -> bool {
    forall|i: int, j: int| 0 <= i < j < s.len() ==> lex_leq(s[i].name, s[j].name)
}

/// File entries sorted ascending by name.
pub open spec fn files_sorted(s: Seq<FileModel>) -> bool {
    forall|i: int, j: int| 0 <= i < j < s.len() ==> lex_leq(s[i].name, s[j].name)
}

/// Names sorted ascending.
pub open spec fn names_sorted(s: Seq<Seq<char>>) -> bool {
    forall|i: int, j: int| 0 <= i < j < s.len() ==> lex_leq(s[i], s[j])
}

/// The tree invariants: children and files sorted by name, no denylisted
/// child, only eligible files, and every child's path equal to the parent's
/// path joined with the child's name, recursively.
pub open spec fn node_wf(d: DirModel) -> bool
    decreases d,
{
    &&& dirs_sorted(d.subdirs)
    &&& files_sorted(d.files)
    &&& (forall|i: int| 0 <= i < d.subdirs.len() ==> !denied_name(#[trigger] d.subdirs[i].name))
    &&& (forall|i: int| 0 <= i < d.files.len() ==> eligible_file(#[trigger] d.files[i].name))
    &&& (forall|i: int|
        0 <= i < d.subdirs.len() ==> (#[trigger] d.subdirs[i]).path == join(
            d.path,
            d.subdirs[i].name,
        ))
    &&& (forall|i: int| 0 <= i < d.subdirs.len() ==> node_wf(#[trigger] d.subdirs[i]))
}

/// No node of the tree carries any file entry.
pub open spec fn all_files_empty(d: DirModel) -> bool
    decreases d,
{
    d.files.len() == 0 && (forall|i: int|
        0 <= i < d.subdirs.len() ==> all_files_empty(#[trigger] d.subdirs[i]))
}

impl Directory {
    /// An empty node with the given name and path.
    pub fn new(name: String, path: String) -> (d: Directory)
        ensures
            dir_model(d) == (DirModel {
                name: name@,
                path: path@,
                subdirs: Seq::<DirModel>::empty(),
                files: Seq::<FileModel>::empty(),
            }),
    {
        let d = Directory { name, subdirs: Vec::new(), files: Vec::new(), path };
        proof {
            assert(dirs_model(d.subdirs@) =~= Seq::<DirModel>::empty());
            assert(files_model(d.files@) =~= Seq::<FileModel>::empty());
        }
        d
    }

    /// Whether a file name carries one of the allowed code extensions.
    pub fn is_code_file(name: &str) -> (r: bool)
        ensures
            r == eligible_file(name@),
    {
        let len = name.unicode_len();
        let mut i: usize = len;
        // scan backwards for the last dot
        loop
            invariant
                i <= len,
                len == name@.len(),
                forall|j: int| i <= j < len ==> name@[j] != '.',
            decreases i,
        {
            if i == 0 {
                proof {
                    lemma_last_index_of_none(name@, '.');
                }
                return false;
            }
            i = i - 1;
            if name.get_char(i) == '.' {
                proof {
                    lemma_last_index_of_found(name@, '.', i as int);
                }
                if i == 0 {
                    return false;
                }
                let e = name.substring_char(i + 1, len);
                return ext_allowed(e);
            }
        }
    }
}

} // verus!
