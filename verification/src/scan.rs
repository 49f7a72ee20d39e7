//! Building a `Directory` tree from an `FsDir` snapshot: denylisted
//! directory names are skipped, files are kept only when their extension is
//! allowed, both groups are sorted by name, and every child's path is the
//! parent's path extended with `/` and the child's name.  `collect_files`
//! decides whether files are gathered (a deep build) or left empty (the
//! shallow skeleton).

use vstd::multiset::Multiset;
use vstd::prelude::*;

use crate::text::{lemma_lex_leq_total, lemma_lex_leq_trans, lex_leq, str_le};
use crate::tree::{
    all_files_empty, denied_name, dir_model, dirs_model, dirs_sorted, eligible_file, file_model,
    files_model, files_sorted, fs_model, is_hidden_or_common_ignore, join, join_path,
    lemma_dirs_model_index, lemma_fss_model_index, names_sorted, node_wf, strs_model, DirModel,
    Directory, FileInfo, FileModel, FsDir, FsModel,
};

verus! {

broadcast use vstd::seq_lib::group_to_multiset_ensures;

/// Insert a node into a name-sorted sequence, before the first node whose
/// name is at or above its own.
pub open spec fn insert_dir_sorted(x: DirModel, s: Seq<DirModel>) -> Seq<DirModel>
    decreases s.len(),
{
    if s.len() == 0 {
        seq![x]
    } else if lex_leq(x.name, s[0].name) {
        seq![x] + s
    } else {
        seq![s[0]] + insert_dir_sorted(x, s.drop_first())
    }
}

/// Insertion sort of nodes by name, processing elements left to right.
pub open spec fn sort_dirs_by_name(s: Seq<DirModel>) -> Seq<DirModel>
    decreases s.len(),
{
    if s.len() == 0 {
        Seq::empty()
    } else {
        insert_dir_sorted(s.last(), sort_dirs_by_name(s.drop_last()))
    }
}

pub open spec fn insert_name_sorted(x: Seq<char>, s: Seq<Seq<char>>) -> Seq<Seq<char>>
    decreases s.len(),
{
    if s.len() == 0 {
        seq![x]
    } else if lex_leq(x, s[0]) {
        seq![x] + s
    } else {
        seq![s[0]] + insert_name_sorted(x, s.drop_first())
    }
}

pub open spec fn sort_names(s: Seq<Seq<char>>) -> Seq<Seq<char>>
    decreases s.len(),
{
    if s.len() == 0 {
        Seq::empty()
    } else {
        insert_name_sorted(s.last(), sort_names(s.drop_last()))
    }
}

pub proof fn lemma_insert_dir_sorted_props(x: DirModel, s: Seq<DirModel>)
    requires
        dirs_sorted(s),
    ensures
        dirs_sorted(insert_dir_sorted(x, s)),
        insert_dir_sorted(x, s).to_multiset() == s.to_multiset().insert(x),
        insert_dir_sorted(x, s).len() == s.len() + 1,
    decreases s.len(),
{
    let r = insert_dir_sorted(x, s);
    if s.len() == 0 {
        assert(seq![x] =~= Seq::<DirModel>::empty().push(x));
        assert(r.to_multiset() =~= s.to_multiset().insert(x));
    } else if lex_leq(x.name, s[0].name) {
        assert forall|i: int, j: int| 0 <= i < j < r.len() implies lex_leq(
            r[i].name,
            r[j].name,
        ) by {
            if i == 0 && j > 0 {
                assert(r[j] == s[j - 1]);
                if j > 1 {
                    assert(lex_leq(s[0].name, s[j - 1].name));
                    lemma_lex_leq_trans(x.name, s[0].name, s[j - 1].name);
                }
            }
        }
        vstd::seq_lib::lemma_multiset_commutative(seq![x], s);
        assert(seq![x].to_multiset() =~= Multiset::<DirModel>::empty().insert(x));
        assert(r.to_multiset() =~= s.to_multiset().insert(x));
    } else {
        lemma_lex_leq_total(x.name, s[0].name);
        assert(dirs_sorted(s.drop_first()));
        lemma_insert_dir_sorted_props(x, s.drop_first());
        let t = insert_dir_sorted(x, s.drop_first());
        // every element of t is either x or an element of the tail, so s[0]
        // stays at or below all of them
        assert forall|i: int, j: int| 0 <= i < j < r.len() implies lex_leq(
            r[i].name,
            r[j].name,
        ) by {
            if i == 0 {
                let y = r[j];
                assert(t[j - 1] == y);
                assert(t.to_multiset().count(y) > 0);
                if y == x {
                    assert(lex_leq(s[0].name, x.name));
                } else {
                    assert(s.drop_first().to_multiset().count(y) > 0);
                    let k = choose|k: int|
                        0 <= k < s.drop_first().len() && s.drop_first()[k] == y;
                    assert(s[k + 1] == y);
                    assert(lex_leq(s[0].name, y.name));
                }
            }
        }
        vstd::seq_lib::lemma_multiset_commutative(seq![s[0]], t);
        vstd::seq_lib::lemma_multiset_commutative(seq![s[0]], s.drop_first());
        assert(seq![s[0]] + s.drop_first() =~= s);
        assert(seq![s[0]].to_multiset() =~= Multiset::<DirModel>::empty().insert(s[0]));
        assert(r.to_multiset() =~= s.to_multiset().insert(x));
    }
}

pub proof fn lemma_sort_dirs_props(s: Seq<DirModel>)
    ensures
        dirs_sorted(sort_dirs_by_name(s)),
        sort_dirs_by_name(s).to_multiset() == s.to_multiset(),
        sort_dirs_by_name(s).len() == s.len(),
    decreases s.len(),
{
    if s.len() > 0 {
        lemma_sort_dirs_props(s.drop_last());
        lemma_insert_dir_sorted_props(s.last(), sort_dirs_by_name(s.drop_last()));
        assert(s =~= s.drop_last().push(s.last()));
        assert(s.drop_last().push(s.last()).to_multiset() =~= s.drop_last().to_multiset().insert(
            s.last(),
        ));
    }
}

pub proof fn lemma_insert_name_sorted_props(x: Seq<char>, s: Seq<Seq<char>>)
    requires
        names_sorted(s),
    ensures
        names_sorted(insert_name_sorted(x, s)),
        insert_name_sorted(x, s).to_multiset() == s.to_multiset().insert(x),
        insert_name_sorted(x, s).len() == s.len() + 1,
    decreases s.len(),
{
    let r = insert_name_sorted(x, s);
    if s.len() == 0 {
        assert(seq![x] =~= Seq::<Seq<char>>::empty().push(x));
        assert(r.to_multiset() =~= s.to_multiset().insert(x));
    } else if lex_leq(x, s[0]) {
        assert forall|i: int, j: int| 0 <= i < j < r.len() implies lex_leq(r[i], r[j]) by {
            if i == 0 && j > 0 {
                assert(r[j] == s[j - 1]);
                if j > 1 {
                    assert(lex_leq(s[0], s[j - 1]));
                    lemma_lex_leq_trans(x, s[0], s[j - 1]);
                }
            }
        }
        vstd::seq_lib::lemma_multiset_commutative(seq![x], s);
        assert(seq![x].to_multiset() =~= Multiset::<Seq<char>>::empty().insert(x));
        assert(r.to_multiset() =~= s.to_multiset().insert(x));
    } else {
        lemma_lex_leq_total(x, s[0]);
        assert(names_sorted(s.drop_first()));
        lemma_insert_name_sorted_props(x, s.drop_first());
        let t = insert_name_sorted(x, s.drop_first());
        assert forall|i: int, j: int| 0 <= i < j < r.len() implies lex_leq(r[i], r[j]) by {
            if i == 0 {
                let y = r[j];
                assert(t[j - 1] == y);
                assert(t.to_multiset().count(y) > 0);
                if y == x {
                    assert(lex_leq(s[0], x));
                } else {
                    assert(s.drop_first().to_multiset().count(y) > 0);
                    let k = choose|k: int|
                        0 <= k < s.drop_first().len() && s.drop_first()[k] == y;
                    assert(s[k + 1] == y);
                    assert(lex_leq(s[0], y));
                }
            }
        }
        vstd::seq_lib::lemma_multiset_commutative(seq![s[0]], t);
        vstd::seq_lib::lemma_multiset_commutative(seq![s[0]], s.drop_first());
        assert(seq![s[0]] + s.drop_first() =~= s);
        assert(seq![s[0]].to_multiset() =~= Multiset::<Seq<char>>::empty().insert(s[0]));
        assert(r.to_multiset() =~= s.to_multiset().insert(x));
    }
}

pub proof fn lemma_sort_names_props(s: Seq<Seq<char>>)
    ensures
        names_sorted(sort_names(s)),
        sort_names(s).to_multiset() == s.to_multiset(),
        sort_names(s).len() == s.len(),
    decreases s.len(),
{
    if s.len() > 0 {
        lemma_sort_names_props(s.drop_last());
        lemma_insert_name_sorted_props(s.last(), sort_names(s.drop_last()));
        assert(s =~= s.drop_last().push(s.last()));
        assert(s.drop_last().push(s.last()).to_multiset() =~= s.drop_last().to_multiset().insert(
            s.last(),
        ));
    }
}

pub proof fn lemma_dirs_model_push(s: Seq<Directory>, x: Directory)
    ensures
        dirs_model(s.push(x)) =~= dirs_model(s) + seq![dir_model(x)],
{
    lemma_dirs_model_index(s.push(x));
    lemma_dirs_model_index(s);
}

proof fn lemma_insert_dir_at(x: DirModel, s: Seq<DirModel>, p: int)
    requires
        0 <= p <= s.len(),
        forall|k: int| 0 <= k < p ==> !lex_leq(x.name, s[k].name),
        p < s.len() ==> lex_leq(x.name, s[p].name),
    ensures
        insert_dir_sorted(x, s) =~= s.subrange(0, p) + seq![x] + s.subrange(p, s.len() as int),
    decreases s.len(),
{
    if s.len() == 0 || p == 0 {
    } else {
        lemma_insert_dir_at(x, s.drop_first(), p - 1);
    }
}

proof fn lemma_insert_name_at(x: Seq<char>, s: Seq<Seq<char>>, p: int)
    requires
        0 <= p <= s.len(),
        forall|k: int| 0 <= k < p ==> !lex_leq(x, s[k]),
        p < s.len() ==> lex_leq(x, s[p]),
    ensures
        insert_name_sorted(x, s) =~= s.subrange(0, p) + seq![x] + s.subrange(p, s.len() as int),
    decreases s.len(),
{
    if s.len() == 0 || p == 0 {
    } else {
        lemma_insert_name_at(x, s.drop_first(), p - 1);
    }
}

fn insert_dir(v: &mut Vec<Directory>, d: Directory)
    ensures
        dirs_model(final(v)@) == insert_dir_sorted(dir_model(d), dirs_model(old(v)@)),
{
    let ghost s = dirs_model(old(v)@);
    proof {
        lemma_dirs_model_index(v@);
    }
    let mut p: usize = 0;
    loop
        invariant
            p <= v.len(),
            *v == *old(v),
            s == dirs_model(v@),
            s.len() == v@.len(),
            forall|k: int| 0 <= k < v@.len() ==> s[k] == dir_model(v@[k]),
            forall|k: int| 0 <= k < p ==> !lex_leq(d.name@, s[k].name),
        ensures
            p <= v.len(),
            *v == *old(v),
            forall|k: int| 0 <= k < p ==> !lex_leq(d.name@, s[k].name),
            p < v@.len() ==> lex_leq(d.name@, s[p as int].name),
        decreases v.len() - p,
    {
        if p == v.len() {
            break ;
        }
        if str_le(d.name.as_str(), v[p].name.as_str()) {
            break ;
        }
        p = p + 1;
    }
    let ghost dm = dir_model(d);
    v.insert(p, d);
    proof {
        lemma_insert_dir_at(dm, s, p as int);
        lemma_dirs_model_index(old(v)@);
        lemma_dirs_model_index(v@);
        assert(v@ =~= old(v)@.subrange(0, p as int).push(d) + old(v)@.subrange(
            p as int,
            old(v)@.len() as int,
        ));
        assert(dirs_model(v@) =~= s.subrange(0, p as int) + seq![dm] + s.subrange(
            p as int,
            s.len() as int,
        ));
    }
}

fn insert_string(v: &mut Vec<String>, x: String)
    ensures
        strs_model(final(v)@) == insert_name_sorted(x@, strs_model(old(v)@)),
{
    let ghost s = strs_model(old(v)@);
    let mut p: usize = 0;
    loop
        invariant
            p <= v.len(),
            *v == *old(v),
            s == strs_model(v@),
            forall|k: int| 0 <= k < p ==> !lex_leq(x@, s[k]),
        ensures
            p <= v.len(),
            *v == *old(v),
            forall|k: int| 0 <= k < p ==> !lex_leq(x@, s[k]),
            p < v@.len() ==> lex_leq(x@, s[p as int]),
        decreases v.len() - p,
    {
        if p == v.len() {
            break ;
        }
        if str_le(x.as_str(), v[p].as_str()) {
            break ;
        }
        p = p + 1;
    }
    let ghost xm = x@;
    v.insert(p, x);
    proof {
        lemma_insert_name_at(xm, s, p as int);
        assert(v@ =~= old(v)@.subrange(0, p as int).push(x) + old(v)@.subrange(
            p as int,
            old(v)@.len() as int,
        ));
        assert(strs_model(v@) =~= s.subrange(0, p as int) + seq![xm] + s.subrange(
            p as int,
            s.len() as int,
        ));
    }
}

fn sort_dirs(v: Vec<Directory>) -> (r: Vec<Directory>)
    ensures
        dirs_model(r@) == sort_dirs_by_name(dirs_model(v@)),
{
    let ghost orig = dirs_model(v@);
    proof {
        lemma_dirs_model_index(v@);
    }
    let mut rest = v;
    let n0 = rest.len();
    let mut out: Vec<Directory> = Vec::new();
    let mut i: usize = 0;
    proof {
        assert(dirs_model(out@) =~= Seq::<DirModel>::empty());
        assert(orig.subrange(0, 0) =~= Seq::<DirModel>::empty());
    }
    while rest.len() > 0
        invariant
            orig.len() == n0,
            i + rest@.len() == orig.len(),
            dirs_model(rest@) == orig.subrange(i as int, orig.len() as int),
            dirs_model(out@) == sort_dirs_by_name(orig.subrange(0, i as int)),
        decreases rest@.len(),
    {
        let ghost prevrest = rest@;
        let d = rest.remove(0);
        proof {
            lemma_dirs_model_index(prevrest);
            assert(d == prevrest[0]);
            assert(dir_model(d) == dirs_model(prevrest)[0]);
        }
        let ghost pre = orig.subrange(0, i as int);
        let ghost dm = dir_model(d);
        insert_dir(&mut out, d);
        proof {
            // the removed head is orig[i]
            assert(rest@ =~= prevrest.drop_first());
            lemma_dirs_model_index(rest@);
            assert forall|t: int| 0 <= t < rest@.len() implies dirs_model(rest@)[t]
                == orig.subrange(i as int + 1, orig.len() as int)[t] by {
                assert(dirs_model(rest@)[t] == dir_model(prevrest[t + 1]));
                assert(dir_model(prevrest[t + 1]) == dirs_model(prevrest)[t + 1]);
            }
            assert(dirs_model(rest@) =~= orig.subrange(i as int + 1, orig.len() as int));
            assert(dm == orig[i as int]);
            let next = orig.subrange(0, i as int + 1);
            assert(next.drop_last() =~= pre);
            assert(next.last() == orig[i as int]);
            assert(sort_dirs_by_name(next) == insert_dir_sorted(dm, sort_dirs_by_name(pre)));
        }
        i = i + 1;
    }
    proof {
        assert(orig.subrange(0, orig.len() as int) =~= orig);
    }
    out
}

fn sort_strings(v: Vec<String>) -> (r: Vec<String>)
    ensures
        strs_model(r@) == sort_names(strs_model(v@)),
{
    let ghost orig = strs_model(v@);
    let mut rest = v;
    let n0 = rest.len();
    let mut out: Vec<String> = Vec::new();
    let mut i: usize = 0;
    proof {
        assert(strs_model(out@) =~= Seq::<Seq<char>>::empty());
        assert(orig.subrange(0, 0) =~= Seq::<Seq<char>>::empty());
    }
    while rest.len() > 0
        invariant
            orig.len() == n0,
            i + rest@.len() == orig.len(),
            strs_model(rest@) == orig.subrange(i as int, orig.len() as int),
            strs_model(out@) == sort_names(orig.subrange(0, i as int)),
        decreases rest@.len(),
    {
        let ghost prevrest = rest@;
        let x = rest.remove(0);
        let ghost pre = orig.subrange(0, i as int);
        let ghost xm = x@;
        insert_string(&mut out, x);
        proof {
            assert(x == prevrest[0]);
            assert(rest@ =~= prevrest.drop_first());
            assert forall|t: int| 0 <= t < rest@.len() implies strs_model(rest@)[t]
                == orig.subrange(i as int + 1, orig.len() as int)[t] by {
                assert(strs_model(rest@)[t] == prevrest[t + 1]@);
                assert(strs_model(prevrest)[t + 1] == prevrest[t + 1]@);
            }
            assert(strs_model(rest@) =~= orig.subrange(i as int + 1, orig.len() as int));
            assert(strs_model(prevrest)[0] == xm);
            assert(xm == orig[i as int]);
            let next = orig.subrange(0, i as int + 1);
            assert(next.drop_last() =~= pre);
            assert(next.last() == orig[i as int]);
            assert(sort_names(next) == insert_name_sorted(xm, sort_names(pre)));
        }
        i = i + 1;
    }
    proof {
        assert(orig.subrange(0, orig.len() as int) =~= orig);
    }
    out
}

/// The file names from a raw listing whose extension is allowed, in
/// listing order.
pub open spec fn kept_file_names(files: Seq<Seq<char>>) -> Seq<Seq<char>>
    decreases files.len(),
{
    if files.len() == 0 {
        Seq::empty()
    } else if eligible_file(files[0]) {
        seq![files[0]] + kept_file_names(files.drop_first())
    } else {
        kept_file_names(files.drop_first())
    }
}

/// Fresh file entries for the given names, all without a summary.
pub open spec fn file_entries(names: Seq<Seq<char>>) -> Seq<FileModel> {
    Seq::new(names.len(), |i: int| FileModel { name: names[i], summary: None })
}

/// The nodes built for the non-denylisted subdirectories of a listing, in
/// listing order, each rooted at the parent path extended with its name.
pub open spec fn build_children(dirs: Seq<FsModel>, base: Seq<char>, deep: bool) -> Seq<DirModel>
    decreases dirs,
{
    if dirs.len() == 0 {
        Seq::empty()
    } else {
        let rest = build_children(dirs.drop_first(), base, deep);
        if denied_name(dirs[0].name) {
            rest
        } else {
            seq![build_spec(dirs[0], join(base, dirs[0].name), deep)] + rest
        }
    }
}

/// The node a snapshot builds into: children filtered, built recursively
/// and sorted by name; files filtered and sorted when the build is deep.
pub open spec fn build_spec(fs: FsModel, path: Seq<char>, deep: bool) -> DirModel
    decreases fs,
{
    DirModel {
        name: fs.name,
        path: path,
        subdirs: sort_dirs_by_name(build_children(fs.dirs, path, deep)),
        files: if deep {
            file_entries(sort_names(kept_file_names(fs.files)))
        } else {
            Seq::empty()
        },
    }
}

proof fn lemma_kept_eligible(files: Seq<Seq<char>>)
    ensures
        forall|i: int|
            0 <= i < kept_file_names(files).len() ==> eligible_file(
                #[trigger] kept_file_names(files)[i],
            ),
    decreases files.len(),
{
    if files.len() > 0 {
        lemma_kept_eligible(files.drop_first());
        let k = kept_file_names(files);
        let kt = kept_file_names(files.drop_first());
        assert forall|i: int| 0 <= i < k.len() implies eligible_file(k[i]) by {
            if eligible_file(files[0]) {
                if i > 0 {
                    assert(k[i] == kt[i - 1]);
                }
            } else {
                assert(k[i] == kt[i]);
            }
        }
    }
}

/// Every child a build produces keeps the invariants: it is not denylisted,
/// sits at its parent's path joined with its name, is itself well-formed,
/// and carries no files when the build is shallow.
proof fn lemma_build_children_wf(dirs: Seq<FsModel>, base: Seq<char>, deep: bool)
    ensures
        forall|i: int|
            0 <= i < build_children(dirs, base, deep).len() ==> {
                let c = #[trigger] build_children(dirs, base, deep)[i];
                &&& !denied_name(c.name)
                &&& c.path == join(base, c.name)
                &&& node_wf(c)
                &&& (!deep ==> all_files_empty(c))
            },
    decreases dirs,
{
    if dirs.len() > 0 {
        lemma_build_children_wf(dirs.drop_first(), base, deep);
        if !denied_name(dirs[0].name) {
            lemma_build_spec_wf(dirs[0], join(base, dirs[0].name), deep);
        }
        let b = build_children(dirs, base, deep);
        let bt = build_children(dirs.drop_first(), base, deep);
        assert forall|i: int| 0 <= i < b.len() implies {
            let c = #[trigger] b[i];
            &&& !denied_name(c.name)
            &&& c.path == join(base, c.name)
            &&& node_wf(c)
            &&& (!deep ==> all_files_empty(c))
        } by {
            if denied_name(dirs[0].name) {
                assert(b[i] == bt[i]);
            } else {
                if i > 0 {
                    assert(b[i] == bt[i - 1]);
                }
            }
        }
    }
}

/// The node a build produces satisfies the tree invariants; a shallow build
/// leaves every node's files empty.
pub proof fn lemma_build_spec_wf(fs: FsModel, path: Seq<char>, deep: bool)
    ensures
        node_wf(build_spec(fs, path, deep)),
        !deep ==> all_files_empty(build_spec(fs, path, deep)),
    decreases fs,
{
    let d = build_spec(fs, path, deep);
    let bc = build_children(fs.dirs, path, deep);
    lemma_build_children_wf(fs.dirs, path, deep);
    lemma_sort_dirs_props(bc);
    assert forall|i: int| 0 <= i < d.subdirs.len() implies {
        let c = #[trigger] d.subdirs[i];
        &&& !denied_name(c.name)
        &&& c.path == join(path, c.name)
        &&& node_wf(c)
        &&& (!deep ==> all_files_empty(c))
    } by {
        let c = d.subdirs[i];
        assert(d.subdirs.contains(c));
        assert(d.subdirs.to_multiset().count(c) > 0);
        assert(bc.to_multiset().count(c) > 0);
        assert(bc.contains(c));
        let j = choose|j: int| 0 <= j < bc.len() && bc[j] == c;
        assert(bc[j] == c);
    }
    if deep {
        let kept = kept_file_names(fs.files);
        lemma_kept_eligible(fs.files);
        lemma_sort_names_props(kept);
        let sn = sort_names(kept);
        assert forall|i: int| 0 <= i < d.files.len() implies eligible_file(
            #[trigger] d.files[i].name,
        ) by {
            assert(d.files[i].name == sn[i]);
            assert(sn.contains(sn[i]));
            assert(sn.to_multiset().count(sn[i]) > 0);
            assert(kept.to_multiset().count(sn[i]) > 0);
            assert(kept.contains(sn[i]));
            let j = choose|j: int| 0 <= j < kept.len() && kept[j] == sn[i];
            assert(kept[j] == sn[i]);
        }
        assert(files_sorted(d.files));
    }
}

proof fn lemma_build_children_elems(dirs: Seq<FsModel>, base: Seq<char>, deep: bool)
    ensures
        forall|t: int|
            0 <= t < build_children(dirs, base, deep).len() ==> exists|j: int|
                0 <= j < dirs.len() && !denied_name(dirs[j].name) && #[trigger] build_children(
                    dirs,
                    base,
                    deep,
                )[t] == build_spec(dirs[j], join(base, dirs[j].name), deep),
        forall|j: int|
            0 <= j < dirs.len() && !denied_name(#[trigger] dirs[j].name) ==> build_children(
                dirs,
                base,
                deep,
            ).contains(build_spec(dirs[j], join(base, dirs[j].name), deep)),
    decreases dirs,
{
    if dirs.len() > 0 {
        lemma_build_children_elems(dirs.drop_first(), base, deep);
        let b = build_children(dirs, base, deep);
        let bt = build_children(dirs.drop_first(), base, deep);
        assert forall|t: int| 0 <= t < b.len() implies exists|j: int|
            0 <= j < dirs.len() && !denied_name(dirs[j].name) && #[trigger] b[t] == build_spec(
                dirs[j],
                join(base, dirs[j].name),
                deep,
            ) by {
            let off: int = if denied_name(dirs[0].name) {
                0
            } else {
                1
            };
            if off == 1 && t == 0 {
                assert(b[0] == build_spec(dirs[0], join(base, dirs[0].name), deep));
            } else {
                assert(b[t] == bt[t - off]);
                let j = choose|j: int|
                    0 <= j < dirs.drop_first().len() && !denied_name(dirs.drop_first()[j].name)
                        && #[trigger] bt[t - off] == build_spec(
                        dirs.drop_first()[j],
                        join(base, dirs.drop_first()[j].name),
                        deep,
                    );
                assert(dirs[j + 1] == dirs.drop_first()[j]);
            }
        }
        assert forall|j: int| 0 <= j < dirs.len() && !denied_name(#[trigger] dirs[j].name) implies b
            .contains(build_spec(dirs[j], join(base, dirs[j].name), deep)) by {
            let off: int = if denied_name(dirs[0].name) {
                0
            } else {
                1
            };
            if j == 0 {
                assert(b[0] == build_spec(dirs[0], join(base, dirs[0].name), deep));
            } else {
                assert(dirs.drop_first()[j - 1] == dirs[j]);
                assert(bt.contains(build_spec(dirs[j], join(base, dirs[j].name), deep)));
                let t = choose|t: int|
                    0 <= t < bt.len() && bt[t] == build_spec(dirs[j], join(base, dirs[j].name), deep);
                assert(b[t + off] == bt[t]);
            }
        }
    }
}

/// The children of a built node are exactly the deep or shallow builds of
/// the snapshot's non-denylisted subdirectories: each child arises from
/// one of them, and each of them appears as a child.  With a deep build
/// this pins that files are populated at every level.
pub proof fn lemma_build_spec_children(fs: FsModel, path: Seq<char>, deep: bool)
    ensures
        forall|i: int|
            0 <= i < build_spec(fs, path, deep).subdirs.len() ==> exists|j: int|
                0 <= j < fs.dirs.len() && !denied_name(fs.dirs[j].name) && #[trigger] build_spec(
                    fs,
                    path,
                    deep,
                ).subdirs[i] == build_spec(fs.dirs[j], join(path, fs.dirs[j].name), deep),
        forall|j: int|
            0 <= j < fs.dirs.len() && !denied_name(#[trigger] fs.dirs[j].name) ==> build_spec(
                fs,
                path,
                deep,
            ).subdirs.contains(build_spec(fs.dirs[j], join(path, fs.dirs[j].name), deep)),
{
    let bc = build_children(fs.dirs, path, deep);
    let sorted = build_spec(fs, path, deep).subdirs;
    lemma_build_children_elems(fs.dirs, path, deep);
    lemma_sort_dirs_props(bc);
    assert forall|i: int| 0 <= i < sorted.len() implies exists|j: int|
        0 <= j < fs.dirs.len() && !denied_name(fs.dirs[j].name) && #[trigger] sorted[i]
            == build_spec(fs.dirs[j], join(path, fs.dirs[j].name), deep) by {
        assert(sorted.contains(sorted[i]));
        assert(sorted.to_multiset().count(sorted[i]) > 0);
        assert(bc.to_multiset().count(sorted[i]) > 0);
        assert(bc.contains(sorted[i]));
        let t = choose|t: int| 0 <= t < bc.len() && bc[t] == sorted[i];
        assert(bc[t] == sorted[i]);
    }
    assert forall|j: int| 0 <= j < fs.dirs.len() && !denied_name(#[trigger] fs.dirs[j].name) implies sorted
        .contains(build_spec(fs.dirs[j], join(path, fs.dirs[j].name), deep)) by {
        let c = build_spec(fs.dirs[j], join(path, fs.dirs[j].name), deep);
        assert(bc.contains(c));
        assert(bc.to_multiset().count(c) > 0);
        assert(sorted.to_multiset().count(c) > 0);
    }
}

impl Directory {
    /// Build a node from a snapshot of the directory at `path`.  With
    /// `collect_files` false only the directory skeleton is produced; with
    /// it true, eligible files are attached at every level.
    pub fn from_snapshot(fs: &FsDir, path: &str, collect_files: bool) -> (d: Directory)
        ensures
            dir_model(d) == build_spec(fs_model(*fs), path@, collect_files),
            node_wf(dir_model(d)),
            !collect_files ==> all_files_empty(dir_model(d)),
        decreases *fs,
    {
        let ghost fsm = fs_model(*fs);
        proof {
            lemma_fss_model_index(fs.dirs@);
            lemma_build_spec_wf(fsm, path@, collect_files);
        }
        let mut kids: Vec<Directory> = Vec::new();
        let n = fs.dirs.len();
        let mut i: usize = 0;
        proof {
            assert(dirs_model(kids@) =~= Seq::<DirModel>::empty());
            assert(fsm.dirs.skip(0) =~= fsm.dirs);
        }
        while i < n
            invariant
                i <= n,
                n == fs.dirs@.len(),
                fsm == fs_model(*fs),
                fsm.dirs.len() == n,
                forall|k: int| 0 <= k < n ==> fsm.dirs[k] == fs_model(fs.dirs@[k]),
                dirs_model(kids@) + build_children(
                    fsm.dirs.skip(i as int),
                    path@,
                    collect_files,
                ) == build_children(fsm.dirs, path@, collect_files),
            decreases n - i,
        {
            let sub = &fs.dirs[i];
            let ghost kids0 = kids@;
            proof {
                assert(fsm.dirs.skip(i as int).drop_first() =~= fsm.dirs.skip(i as int + 1));
                assert(fsm.dirs.skip(i as int)[0] == fsm.dirs[i as int]);
            }
            if !is_hidden_or_common_ignore(sub.name.as_str()) {
                let child_path = join_path(path, sub.name.as_str());
                let child = Directory::from_snapshot(sub, child_path.as_str(), collect_files);
                kids.push(child);
                proof {
                    lemma_dirs_model_push(kids0, child);
                }
            }
            i = i + 1;
        }
        proof {
            assert(fsm.dirs.skip(n as int) =~= Seq::<FsModel>::empty());
            assert(dirs_model(kids@) + Seq::<DirModel>::empty() =~= dirs_model(kids@));
        }
        let sorted_kids = sort_dirs(kids);

        let mut files: Vec<FileInfo> = Vec::new();
        if collect_files {
            let mut names: Vec<String> = Vec::new();
            let m = fs.files.len();
            let mut j: usize = 0;
            proof {
                assert(strs_model(names@) =~= Seq::<Seq<char>>::empty());
                assert(fsm.files.skip(0) =~= fsm.files);
            }
            while j < m
                invariant
                    j <= m,
                    m == fs.files@.len(),
                    fsm == fs_model(*fs),
                    fsm.files.len() == m,
                    forall|k: int| 0 <= k < m ==> fsm.files[k] == fs.files@[k]@,
                    strs_model(names@) + kept_file_names(fsm.files.skip(j as int))
                        == kept_file_names(fsm.files),
                decreases m - j,
            {
                let ghost names0 = names@;
                proof {
                    assert(fsm.files.skip(j as int).drop_first() =~= fsm.files.skip(j as int + 1));
                    assert(fsm.files.skip(j as int)[0] == fsm.files[j as int]);
                }
                let f = &fs.files[j];
                if Directory::is_code_file(f.as_str()) {
                    names.push(f.clone());
                    proof {
                        assert(strs_model(names@) =~= strs_model(names0) + seq![f@]);
                    }
                }
                j = j + 1;
            }
            proof {
                assert(fsm.files.skip(m as int) =~= Seq::<Seq<char>>::empty());
                assert(strs_model(names@) + Seq::<Seq<char>>::empty() =~= strs_model(names@));
            }
            let sorted_names = sort_strings(names);
            let ghost snm = strs_model(sorted_names@);
            let fl = sorted_names.len();
            let mut k: usize = 0;
            proof {
                assert(files_model(files@) =~= file_entries(snm).subrange(0, 0));
            }
            while k < fl
                invariant
                    k <= fl,
                    fl == sorted_names@.len(),
                    snm == strs_model(sorted_names@),
                    files_model(files@) == file_entries(snm).subrange(0, k as int),
                decreases fl - k,
            {
                let ghost files0 = files@;
                let nm = sorted_names[k].clone();
                let fi = FileInfo { name: nm, summary: None };
                let ghost fim = file_model(fi);
                files.push(fi);
                proof {
                    assert(fim == (FileModel { name: snm[k as int], summary: None }));
                    assert(files_model(files0).len() == k as int);
                    assert(files0.len() == k as int);
                    assert(files@ =~= files0.push(fi));
                    assert forall|t: int| 0 <= t < k + 1 implies files_model(files@)[t]
                        == file_entries(snm).subrange(0, k as int + 1)[t] by {
                        if t < k {
                            assert(files_model(files@)[t] == file_model(files0[t]));
                            assert(file_model(files0[t]) == files_model(files0)[t]);
                        } else {
                            assert(files_model(files@)[t] == fim);
                        }
                    }
                    assert(files_model(files@) =~= file_entries(snm).subrange(0, k as int + 1));
                }
                k = k + 1;
            }
            proof {
                assert(file_entries(snm).subrange(0, file_entries(snm).len() as int) =~= file_entries(
                    snm,
                ));
            }
        }
        let d = Directory {
            name: fs.name.clone(),
            subdirs: sorted_kids,
            files,
            path: path.to_owned(),
        };
        proof {
            if !collect_files {
                assert(files_model(d.files@) =~= Seq::<FileModel>::empty());
            }
        }
        d
    }
}

} // verus!
