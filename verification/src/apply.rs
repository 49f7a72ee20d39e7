//! Applying a finished summary to the tree: the entry whose node path plus
//! file name equals the given path receives the summary; the walk prunes
//! into a child only when the target path is prefixed by that child's path,
//! and a path that belongs to no known file leaves the tree unchanged.

use vstd::prelude::*;

use crate::text::{str_eq, str_starts_with};
use crate::tree::{
    dir_model, dirs_model, file_model, files_model, join, join_path, lemma_dirs_model_index,
    node_wf, DirModel, Directory, FileInfo, FileModel,
};

verus! {

/// The index of the first file of a node whose full path equals the
/// target, or -1 when none does.
pub open spec fn first_match(files: Seq<FileModel>, base: Seq<char>, target: Seq<char>) -> int
    decreases files.len(),
{
    if files.len() == 0 {
        -1
    } else if join(base, files[0].name) == target {
        0
    } else {
        let r = first_match(files.drop_first(), base, target);
        if r == -1 {
            -1
        } else {
            r + 1
        }
    }
}

proof fn lemma_first_match_found(files: Seq<FileModel>, base: Seq<char>, target: Seq<char>, i: int)
    requires
        0 <= i < files.len(),
        join(base, files[i].name) == target,
        forall|k: int| 0 <= k < i ==> join(base, files[k].name) != target,
    ensures
        first_match(files, base, target) == i,
    decreases files.len(),
{
    if i > 0 {
        lemma_first_match_found(files.drop_first(), base, target, i - 1);
    }
}

proof fn lemma_first_match_none(files: Seq<FileModel>, base: Seq<char>, target: Seq<char>)
    requires
        forall|k: int| 0 <= k < files.len() ==> join(base, files[k].name) != target,
    ensures
        first_match(files, base, target) == -1,
    decreases files.len(),
{
    if files.len() > 0 {
        lemma_first_match_none(files.drop_first(), base, target);
    }
}

/// The file list with the summary of the entry at `i` set to `s`.
pub open spec fn set_summary_at(files: Seq<FileModel>, i: int, s: Seq<char>) -> Seq<FileModel> {
    files.update(i, FileModel { name: files[i].name, summary: Some(s) })
}

/// The tree after applying one summary: at each node, the first own file
/// whose full path equals the target takes the summary; otherwise children
/// whose path prefixes the target are descended into.
pub open spec fn update_spec(d: DirModel, target: Seq<char>, s: Seq<char>) -> DirModel
    decreases d,
{
    let m = first_match(d.files, d.path, target);
    if m >= 0 {
        DirModel {
            name: d.name,
            path: d.path,
            subdirs: d.subdirs,
            files: set_summary_at(d.files, m, s),
        }
    } else {
        DirModel {
            name: d.name,
            path: d.path,
            subdirs: update_children(d.subdirs, target, s),
            files: d.files,
        }
    }
}

pub open spec fn update_children(subs: Seq<DirModel>, target: Seq<char>, s: Seq<char>) -> Seq<
    DirModel,
>
    decreases subs,
{
    if subs.len() == 0 {
        Seq::empty()
    } else {
        let h = if subs[0].path.is_prefix_of(target) {
            update_spec(subs[0], target, s)
        } else {
            subs[0]
        };
        seq![h] + update_children(subs.drop_first(), target, s)
    }
}

fn update_owned(d: Directory, file_path: &str, summary: String) -> (r: Directory)
    ensures
        dir_model(r) == update_spec(dir_model(d), file_path@, summary@),
    decreases dir_model(d),
{
    let ghost dm = dir_model(d);
    let Directory { name, mut subdirs, mut files, path } = d;
    let ghost fm = files_model(files@);
    let ghost dsub0 = subdirs@;
    proof {
        assert(fm =~= dm.files);
        assert(dirs_model(dsub0) =~= dm.subdirs);
        lemma_dirs_model_index(dsub0);
    }
    // look for the first own file whose full path equals the target
    let n = files.len();
    let mut i: usize = 0;
    let mut found = false;
    loop
        invariant_except_break
            !found,
        invariant
            i <= n,
            n == files@.len(),
            fm == files_model(files@),
            fm.len() == n,
            dm.path == path@,
            forall|k: int| 0 <= k < i ==> join(dm.path, fm[k].name) != file_path@,
        ensures
            i <= n,
            n == files@.len(),
            fm == files_model(files@),
            dm.path == path@,
            forall|k: int| 0 <= k < i ==> join(dm.path, fm[k].name) != file_path@,
            found ==> i < n && join(dm.path, fm[i as int].name) == file_path@,
            !found ==> i == n,
        decreases n - i,
    {
        if i == n {
            break ;
        }
        let full = join_path(path.as_str(), files[i].name.as_str());
        if str_eq(full.as_str(), file_path) {
            proof {
                assert(fm[i as int] == file_model(files@[i as int]));
            }
            found = true;
            break ;
        }
        proof {
            assert(fm[i as int] == file_model(files@[i as int]));
        }
        i = i + 1;
    }
    if found {
        proof {
            lemma_first_match_found(fm, dm.path, file_path@, i as int);
        }
        let fi = files.remove(i);
        let nm = fi.name;
        files.insert(i, FileInfo { name: nm, summary: Some(summary) });
        let nd = Directory { name, subdirs, files, path };
        proof {
            assert forall|t: int| 0 <= t < n implies files_model(nd.files@)[t] == set_summary_at(
                fm,
                i as int,
                summary@,
            )[t] by {
                if t != i {
                    assert(nd.files@[t] == files@[t]);
                }
            }
            assert(files_model(nd.files@) =~= set_summary_at(fm, i as int, summary@));
            assert(dirs_model(nd.subdirs@) == dm.subdirs);
        }
        nd
    } else {
        proof {
            lemma_first_match_none(fm, dm.path, file_path@);
        }
        let mut newsubs: Vec<Directory> = Vec::new();
        let nsub = subdirs.len();
        let mut k: usize = 0;
        proof {
            assert(dirs_model(newsubs@) =~= Seq::<DirModel>::empty());
            assert(dm.subdirs.skip(0) =~= dm.subdirs);
        }
        while subdirs.len() > 0
            invariant
                dm == dir_model(d),
                dm.subdirs.len() == nsub,
                k + subdirs@.len() == nsub,
                nsub == dsub0.len(),
                subdirs@ == dsub0.skip(k as int),
                forall|t: int| 0 <= t < nsub ==> dm.subdirs[t] == dir_model(dsub0[t]),
                dirs_model(newsubs@) + update_children(
                    dm.subdirs.skip(k as int),
                    file_path@,
                    summary@,
                ) == update_children(dm.subdirs, file_path@, summary@),
            decreases subdirs@.len(),
        {
            let ghost prevsub = subdirs@;
            let sub = subdirs.remove(0);
            proof {
                assert(sub == dsub0[k as int]);
                assert(subdirs@ =~= dsub0.skip(k as int + 1));
                assert(dir_model(sub) == dm.subdirs[k as int]);
                assert(dm.subdirs.skip(k as int).drop_first() =~= dm.subdirs.skip(k as int + 1));
                assert(dm.subdirs.skip(k as int)[0] == dm.subdirs[k as int]);
                let s_ = dm.subdirs;
                assert(decreases_to!(dm => dm.subdirs));
                assert(decreases_to!(s_ => s_[k as int]));
                assert(decreases_to!(dm => dir_model(sub)));
            }
            let ghost head = if dm.subdirs[k as int].path.is_prefix_of(file_path@) {
                update_spec(dm.subdirs[k as int], file_path@, summary@)
            } else {
                dm.subdirs[k as int]
            };
            let nsub_node = if str_starts_with(file_path, sub.path.as_str()) {
                update_owned(sub, file_path, summary.clone())
            } else {
                sub
            };
            proof {
                assert(dir_model(nsub_node) == head);
            }
            let ghost newsubs0 = newsubs@;
            newsubs.push(nsub_node);
            proof {
                crate::scan::lemma_dirs_model_push(newsubs0, newsubs@[newsubs@.len() - 1]);
                assert(newsubs@ =~= newsubs0.push(newsubs@[newsubs@.len() - 1]));
                assert(dirs_model(newsubs@) =~= dirs_model(newsubs0) + seq![head]);
                let rest = update_children(dm.subdirs.skip(k as int + 1), file_path@, summary@);
                assert(update_children(dm.subdirs.skip(k as int), file_path@, summary@)
                    =~= seq![head] + rest);
                assert((dirs_model(newsubs0) + seq![head]) + rest =~= dirs_model(newsubs0) + (
                seq![head] + rest));
            }
            k = k + 1;
        }
        proof {
            assert(dm.subdirs.skip(nsub as int) =~= Seq::<DirModel>::empty());
            assert(dirs_model(newsubs@) + Seq::<DirModel>::empty() =~= dirs_model(newsubs@));
        }
        let nd = Directory { name, subdirs: newsubs, files, path };
        proof {
            assert(files_model(nd.files@) == dm.files);
        }
        nd
    }
}

/// A file with the given full path exists somewhere in the tree.
pub open spec fn tree_has_file(d: DirModel, target: Seq<char>) -> bool
    decreases d,
{
    first_match(d.files, d.path, target) >= 0 || (exists|i: int|
        0 <= i < d.subdirs.len() && tree_has_file(#[trigger] d.subdirs[i], target))
}

impl Directory {
    /// Set the summary of the file whose full path is `file_path`; a path
    /// that belongs to no file in the tree leaves the tree unchanged.
    pub fn update_file_summary(&mut self, file_path: &str, summary: String)
        ensures
            dir_model(*final(self)) == update_spec(
                dir_model(*old(self)),
                file_path@,
                summary@,
            ),
    {
        let mut owned = Directory::new(String::new(), String::new());
        core::mem::swap(self, &mut owned);
        let nd = update_owned(owned, file_path, summary);
        *self = nd;
    }
}

/// Applying a summary under a path that no file of the tree carries
/// changes nothing.
pub proof fn lemma_update_absent_no_op(d: DirModel, target: Seq<char>, s: Seq<char>)
    requires
        !tree_has_file(d, target),
    ensures
        update_spec(d, target, s) == d,
    decreases d,
{
    let uc = update_children(d.subdirs, target, s);
    assert forall|i: int| 0 <= i < d.subdirs.len() implies uc[i] == d.subdirs[i] by {
        lemma_update_children_index(d.subdirs, target, s, i);
        if d.subdirs[i].path.is_prefix_of(target) {
            assert(!tree_has_file(d.subdirs[i], target));
            lemma_update_absent_no_op(d.subdirs[i], target, s);
        }
    }
    lemma_update_children_len(d.subdirs, target, s);
    assert(uc =~= d.subdirs);
}

proof fn lemma_first_match_range(files: Seq<FileModel>, base: Seq<char>, target: Seq<char>)
    ensures
        -1 <= first_match(files, base, target) < files.len(),
        first_match(files, base, target) >= 0 ==> join(
            base,
            files[first_match(files, base, target)].name,
        ) == target,
    decreases files.len(),
{
    if files.len() > 0 && join(base, files[0].name) != target {
        lemma_first_match_range(files.drop_first(), base, target);
    }
}

/// Applying a summary keeps the tree invariants and touches neither names
/// nor paths.
pub proof fn lemma_update_wf(d: DirModel, target: Seq<char>, s: Seq<char>)
    requires
        node_wf(d),
    ensures
        node_wf(update_spec(d, target, s)),
        update_spec(d, target, s).name == d.name,
        update_spec(d, target, s).path == d.path,
    decreases d,
{
    let u = update_spec(d, target, s);
    let m = first_match(d.files, d.path, target);
    lemma_first_match_range(d.files, d.path, target);
    if m >= 0 {
        assert forall|i: int| 0 <= i < u.files.len() implies (#[trigger] u.files[i]).name
            == d.files[i].name by {
            if i != m {
                assert(u.files[i] == d.files[i]);
            }
        }
    } else {
        lemma_update_children_len(d.subdirs, target, s);
        assert forall|i: int| 0 <= i < u.subdirs.len() implies {
            let c = #[trigger] u.subdirs[i];
            c.name == d.subdirs[i].name && c.path == d.subdirs[i].path && node_wf(c)
        } by {
            lemma_update_children_index(d.subdirs, target, s, i);
            if d.subdirs[i].path.is_prefix_of(target) {
                lemma_update_wf(d.subdirs[i], target, s);
            }
        }
    }
}

proof fn lemma_update_children_len(subs: Seq<DirModel>, target: Seq<char>, s: Seq<char>)
    ensures
        update_children(subs, target, s).len() == subs.len(),
    decreases subs,
{
    if subs.len() > 0 {
        lemma_update_children_len(subs.drop_first(), target, s);
    }
}

proof fn lemma_update_children_index(
    subs: Seq<DirModel>,
    target: Seq<char>,
    s: Seq<char>,
    i: int,
)
    requires
        0 <= i < subs.len(),
    ensures
        update_children(subs, target, s)[i] == (if subs[i].path.is_prefix_of(target) {
            update_spec(subs[i], target, s)
        } else {
            subs[i]
        }),
    decreases subs,
{
    let h = if subs[0].path.is_prefix_of(target) {
        update_spec(subs[0], target, s)
    } else {
        subs[0]
    };
    let rest = update_children(subs.drop_first(), target, s);
    lemma_update_children_len(subs.drop_first(), target, s);
    assert(update_children(subs, target, s) == seq![h] + rest);
    if i > 0 {
        lemma_update_children_index(subs.drop_first(), target, s, i - 1);
        assert((seq![h] + rest)[i] == rest[i - 1]);
        assert(subs.drop_first()[i - 1] == subs[i]);
    } else {
        assert((seq![h] + rest)[0] == h);
    }
}

} // verus!
