//! Selecting subtrees for summarization: nodes whose name matches a target
//! (ASCII-case-insensitively) are replaced in place by a fresh deep build of
//! their own path from a snapshot, and every file under them is collected as
//! a `(path, name)` pair; matched subtrees are not searched further, other
//! nodes only recurse into their children.

use vstd::prelude::*;

use crate::scan::build_spec;
use crate::text::ci_equal;
use crate::tree::{
    dir_model, dirs_model, file_model, fs_model, fss_model, join, join_path,
    lemma_dirs_model_index, lemma_fss_model_index, node_wf, strs_model, DirModel, Directory,
    FileModel, FsDir, FsModel,
};
use crate::text::{eq_ignore_case, str_eq};

verus! {

/// The `(full path, name)` pairs of one node's own files.
pub open spec fn file_pairs(path: Seq<char>, files: Seq<FileModel>) -> Seq<(Seq<char>, Seq<char>)> {
    Seq::new(files.len(), |i: int| (join(path, files[i].name), files[i].name))
}

/// Every file under a node, own files first, then each child's in order.
pub open spec fn collect_spec(d: DirModel) -> Seq<(Seq<char>, Seq<char>)>
    decreases d,
{
    file_pairs(d.path, d.files) + collect_children(d.subdirs)
}

pub open spec fn collect_children(s: Seq<DirModel>) -> Seq<(Seq<char>, Seq<char>)>
    decreases s,
{
    if s.len() == 0 {
        Seq::empty()
    } else {
        collect_spec(s[0]) + collect_children(s.drop_first())
    }
}

/// Mathematical image of a collected pair list.
pub open spec fn pairs_model(s: Seq<(String, String)>) -> Seq<(Seq<char>, Seq<char>)> {
    Seq::new(s.len(), |i: int| (s[i].0@, s[i].1@))
}

impl Directory {
    /// Append the `(path, name)` pair of every file under this node.
    pub fn collect_all_files(&self, files: &mut Vec<(String, String)>)
        ensures
            pairs_model(final(files)@) == pairs_model(old(files)@) + collect_spec(
                dir_model(*self),
            ),
        decreases *self,
    {
        let ghost dm = dir_model(*self);
        let ghost base = pairs_model(old(files)@);
        let ghost fp = file_pairs(dm.path, dm.files);
        let m = self.files.len();
        let mut i: usize = 0;
        proof {
            assert(pairs_model(files@) =~= base + fp.subrange(0, 0));
        }
        while i < m
            invariant
                i <= m,
                m == self.files@.len(),
                dm == dir_model(*self),
                fp == file_pairs(dm.path, dm.files),
                fp.len() == m,
                pairs_model(files@) == base + fp.subrange(0, i as int),
            decreases m - i,
        {
            let ghost files0 = files@;
            let fref = &self.files[i];
            let p = join_path(self.path.as_str(), fref.name.as_str());
            let pair = (p, fref.name.clone());
            let ghost pairv = pair;
            let ghost pm = (pair.0@, pair.1@);
            files.push(pair);
            proof {
                assert(pairs_model(files0).len() == base.len() + i);
                assert(files0.len() == base.len() + i);
                assert(files@ =~= files0.push(pairv));
                assert(dm.files[i as int] == file_model(self.files@[i as int]));
                assert(pm == fp[i as int]);
                assert forall|t: int| 0 <= t < base.len() + i + 1 implies pairs_model(files@)[t]
                    == (base + fp.subrange(0, i as int + 1))[t] by {
                    if t < base.len() + i {
                        assert(files@[t] == files0[t]);
                        assert(pairs_model(files@)[t] == pairs_model(files0)[t]);
                        assert(pairs_model(files0)[t] == (base + fp.subrange(0, i as int))[t]);
                    } else {
                        assert(files@[t] == pairv);
                        assert(pairs_model(files@)[t] == pm);
                    }
                }
                assert(pairs_model(files@).len() == base.len() + i + 1);
                assert(pairs_model(files@) =~= base + fp.subrange(0, i as int + 1));
            }
            i = i + 1;
        }
        proof {
            assert(fp.subrange(0, m as int) =~= fp);
        }
        let n = self.subdirs.len();
        let mut j: usize = 0;
        proof {
            lemma_dirs_model_index(self.subdirs@);
            assert(dm.subdirs.skip(0) =~= dm.subdirs);
        }
        while j < n
            invariant
                j <= n,
                n == self.subdirs@.len(),
                dm == dir_model(*self),
                fp == file_pairs(dm.path, dm.files),
                dm.subdirs.len() == n,
                forall|k: int| 0 <= k < n ==> dm.subdirs[k] == dir_model(self.subdirs@[k]),
                pairs_model(files@) + collect_children(dm.subdirs.skip(j as int)) == base + fp
                    + collect_children(dm.subdirs),
            decreases n - j,
        {
            proof {
                assert(dm.subdirs.skip(j as int).drop_first() =~= dm.subdirs.skip(j as int + 1));
                assert(dm.subdirs.skip(j as int)[0] == dm.subdirs[j as int]);
            }
            let sub = &self.subdirs[j];
            let ghost before = pairs_model(files@);
            sub.collect_all_files(files);
            proof {
                assert(pairs_model(files@) =~= before + collect_spec(dm.subdirs[j as int]));
                assert((before + collect_spec(dm.subdirs[j as int])) + collect_children(
                    dm.subdirs.skip(j as int + 1),
                ) =~= before + (collect_spec(dm.subdirs[j as int]) + collect_children(
                    dm.subdirs.skip(j as int + 1),
                )));
            }
            j = j + 1;
        }
        proof {
            assert(dm.subdirs.skip(n as int) =~= Seq::<DirModel>::empty());
            assert(pairs_model(files@) + Seq::<(Seq<char>, Seq<char>)>::empty() =~= pairs_model(
                files@,
            ));
            assert(collect_spec(dm) == fp + collect_children(dm.subdirs));
            assert(base + fp + collect_children(dm.subdirs) =~= base + (fp + collect_children(
                dm.subdirs,
            )));
        }
    }
}

/// A name matches the target set when some target equals it up to ASCII
/// case.
pub open spec fn name_in_targets(targets: Seq<Seq<char>>, name: Seq<char>) -> bool {
    exists|i: int| 0 <= i < targets.len() && ci_equal(#[trigger] targets[i], name)
}

pub fn matches_target(targets: &[String], name: &str) -> (r: bool)
    ensures
        r == name_in_targets(strs_model(targets@), name@),
{
    let n = targets.len();
    let mut i: usize = 0;
    while i < n
        invariant
            i <= n,
            n == targets@.len(),
            forall|k: int| 0 <= k < i ==> !ci_equal(strs_model(targets@)[k], name@),
        decreases n - i,
    {
        if eq_ignore_case(targets[i].as_str(), name) {
            proof {
                assert(strs_model(targets@)[i as int] == targets@[i as int]@);
            }
            return true;
        }
        i = i + 1;
    }
    false
}

/// The snapshot subtree for a child of the given name: the first listing
/// entry carrying that name, or an empty one when the walk found none.
pub open spec fn fs_lookup(dirs: Seq<FsModel>, name: Seq<char>) -> FsModel
    decreases dirs.len(),
{
    if dirs.len() == 0 {
        FsModel { name: name, dirs: Seq::empty(), files: Seq::empty() }
    } else if dirs[0].name == name {
        dirs[0]
    } else {
        fs_lookup(dirs.drop_first(), name)
    }
}

fn find_subdir(fs: &FsDir, name: &str) -> (r: Option<usize>)
    ensures
        match r {
            Some(i) => i < fs.dirs@.len() && fs_model(*fs).dirs[i as int] == fs_lookup(
                fs_model(*fs).dirs,
                name@,
            ),
            None => fs_lookup(fs_model(*fs).dirs, name@) == (FsModel {
                name: name@,
                dirs: Seq::<FsModel>::empty(),
                files: Seq::<Seq<char>>::empty(),
            }),
        },
{
    let ghost fsd = fs_model(*fs).dirs;
    proof {
        lemma_fss_model_index(fs.dirs@);
        assert(fsd.skip(0) =~= fsd);
    }
    let n = fs.dirs.len();
    let mut i: usize = 0;
    while i < n
        invariant
            i <= n,
            n == fs.dirs@.len(),
            fsd == fs_model(*fs).dirs,
            fsd.len() == n,
            forall|k: int| 0 <= k < n ==> fsd[k] == fs_model(fs.dirs@[k]),
            fs_lookup(fsd, name@) == fs_lookup(fsd.skip(i as int), name@),
        decreases n - i,
    {
        proof {
            assert(fsd.skip(i as int).drop_first() =~= fsd.skip(i as int + 1));
            assert(fsd.skip(i as int)[0] == fsd[i as int]);
        }
        if str_eq(fs.dirs[i].name.as_str(), name) {
            return Some(i);
        }
        i = i + 1;
    }
    proof {
        assert(fsd.skip(n as int) =~= Seq::<FsModel>::empty());
    }
    None
}

/// The tree and the collected pairs after selection.  A matched node is
/// replaced by a deep build of its own path and contributes every file
/// under the rebuilt subtree; an unmatched node keeps its own entry and
/// recurses into its children.
pub open spec fn select_spec(d: DirModel, targets: Seq<Seq<char>>, fs: FsModel) -> (
    DirModel,
    Seq<(Seq<char>, Seq<char>)>,
)
    decreases d,
{
    if name_in_targets(targets, d.name) {
        let nd = build_spec(fs, d.path, true);
        (nd, collect_spec(nd))
    } else {
        let r = select_children(d.subdirs, targets, fs.dirs);
        (DirModel { name: d.name, path: d.path, subdirs: r.0, files: d.files }, r.1)
    }
}

pub open spec fn select_children(
    s: Seq<DirModel>,
    targets: Seq<Seq<char>>,
    fsdirs: Seq<FsModel>,
) -> (Seq<DirModel>, Seq<(Seq<char>, Seq<char>)>)
    decreases s,
{
    if s.len() == 0 {
        (Seq::<DirModel>::empty(), Seq::<(Seq<char>, Seq<char>)>::empty())
    } else {
        let head = select_spec(s[0], targets, fs_lookup(fsdirs, s[0].name));
        let rest = select_children(s.drop_first(), targets, fsdirs);
        (seq![head.0] + rest.0, head.1 + rest.1)
    }
}

fn select_owned(d: Directory, targets: &[String], fs: &FsDir) -> (r: (Directory, Vec<(String, String)>))
    ensures
        dir_model(r.0) == select_spec(dir_model(d), strs_model(targets@), fs_model(*fs)).0,
        pairs_model(r.1@) == select_spec(dir_model(d), strs_model(targets@), fs_model(*fs)).1,
    decreases dir_model(d),
{
    let ghost dm = dir_model(d);
    let ghost tm = strs_model(targets@);
    let ghost fsm = fs_model(*fs);
    if matches_target(targets, d.name.as_str()) {
        let nd = Directory::from_snapshot(fs, d.path.as_str(), true);
        let mut out: Vec<(String, String)> = Vec::new();
        proof {
            assert(pairs_model(out@) =~= Seq::<(Seq<char>, Seq<char>)>::empty());
        }
        nd.collect_all_files(&mut out);
        proof {
            assert(pairs_model(out@) =~= Seq::<(Seq<char>, Seq<char>)>::empty() + collect_spec(
                dir_model(nd),
            ));
            assert(Seq::<(Seq<char>, Seq<char>)>::empty() + collect_spec(dir_model(nd))
                =~= collect_spec(dir_model(nd)));
        }
        (nd, out)
    } else {
        let Directory { name, mut subdirs, files, path } = d;
        let ghost dsub0 = subdirs@;
        proof {
            lemma_dirs_model_index(dsub0);
            assert(dsub0.skip(0) =~= dsub0);
            assert(dm.subdirs.skip(0) =~= dm.subdirs);
        }
        let mut newsubs: Vec<Directory> = Vec::new();
        let mut out: Vec<(String, String)> = Vec::new();
        let ghost sm = dm.subdirs;
        let mut k: usize = 0;
        let n = subdirs.len();
        proof {
            assert(dirs_model(newsubs@) =~= Seq::<DirModel>::empty());
            assert(pairs_model(out@) =~= Seq::<(Seq<char>, Seq<char>)>::empty());
        }
        while subdirs.len() > 0
            invariant
                dm == dir_model(d),
                sm == dm.subdirs,
                tm == strs_model(targets@),
                fsm == fs_model(*fs),
                k + subdirs@.len() == n,
                n == dsub0.len(),
                sm.len() == n,
                subdirs@ == dsub0.skip(k as int),
                forall|t: int| 0 <= t < n ==> sm[t] == dir_model(dsub0[t]),
                dirs_model(newsubs@) + select_children(sm.skip(k as int), tm, fsm.dirs).0
                    == select_children(sm, tm, fsm.dirs).0,
                pairs_model(out@) + select_children(sm.skip(k as int), tm, fsm.dirs).1
                    == select_children(sm, tm, fsm.dirs).1,
            decreases subdirs@.len(),
        {
            let ghost prevsub = subdirs@;
            let sub = subdirs.remove(0);
            proof {
                assert(sub == dsub0[k as int]);
                assert(subdirs@ =~= dsub0.skip(k as int + 1));
                assert(dir_model(sub) == sm[k as int]);
                assert(sm.skip(k as int).drop_first() =~= sm.skip(k as int + 1));
                assert(sm.skip(k as int)[0] == sm[k as int]);
            }
            proof {
                let s_ = dm.subdirs;
                let i_ = k as int;
                assert(prevsub.len() > 0);
                assert(k + prevsub.len() == n);
                assert(k < n);
                assert(s_ == sm);
                assert(sm.len() == n);
                assert(0 <= i_ < s_.len());
                assert(decreases_to!(dm => dm.subdirs));
                assert(decreases_to!(s_ => s_[i_]));
                assert(decreases_to!(dm => dir_model(sub)));
            }
            let ghost head = select_spec(sm[k as int], tm, fs_lookup(fsm.dirs, sm[k as int].name));
            let idx = find_subdir(fs, sub.name.as_str());
            let (nsub, mut o) = match idx {
                Some(i) => {
                    proof {
                        lemma_fss_model_index(fs.dirs@);
                        assert(sub.name@ == sm[k as int].name);
                        assert(fs_model(fs.dirs@[i as int]) == fs_lookup(
                            fsm.dirs,
                            sm[k as int].name,
                        ));
                    }
                    select_owned(sub, targets, &fs.dirs[i])
                },
                None => {
                    let empty_snap = FsDir {
                        name: sub.name.clone(),
                        dirs: Vec::new(),
                        files: Vec::new(),
                    };
                    proof {
                        assert(fss_model(empty_snap.dirs@) =~= Seq::<FsModel>::empty());
                        assert(strs_model(empty_snap.files@) =~= Seq::<Seq<char>>::empty());
                        assert(fs_model(empty_snap).name == sm[k as int].name);
                        assert(fs_model(empty_snap).dirs == Seq::<FsModel>::empty());
                        assert(fs_model(empty_snap).files == Seq::<Seq<char>>::empty());
                        assert(fs_model(empty_snap) == fs_lookup(fsm.dirs, sm[k as int].name));
                    }
                    select_owned(sub, targets, &empty_snap)
                },
            };
            proof {
                assert(dir_model(nsub) == head.0);
                assert(pairs_model(o@) == head.1);
            }
            let ghost newsubs0 = newsubs@;
            let ghost out0 = out@;
            let ghost ov = o@;
            newsubs.push(nsub);
            out.append(&mut o);
            proof {
                crate::scan::lemma_dirs_model_push(newsubs0, newsubs@[newsubs@.len() - 1]);
                assert(newsubs@ =~= newsubs0.push(newsubs@[newsubs@.len() - 1]));
                assert(dirs_model(newsubs@) =~= dirs_model(newsubs0) + seq![head.0]);
                assert(out@ =~= out0 + ov);
                assert forall|t: int| 0 <= t < out@.len() implies pairs_model(out@)[t]
                    == (pairs_model(out0) + head.1)[t] by {
                    if t < out0.len() {
                        assert(out@[t] == out0[t]);
                    } else {
                        assert(out@[t] == ov[t - out0.len()]);
                        assert(pairs_model(ov)[t - out0.len()] == head.1[t - out0.len()]);
                    }
                }
                assert(pairs_model(out@) =~= pairs_model(out0) + head.1);
                let rest = select_children(sm.skip(k as int + 1), tm, fsm.dirs);
                assert(select_children(sm.skip(k as int), tm, fsm.dirs).0 =~= seq![head.0]
                    + rest.0);
                assert(select_children(sm.skip(k as int), tm, fsm.dirs).1 =~= head.1 + rest.1);
                assert((dirs_model(newsubs0) + seq![head.0]) + rest.0 =~= dirs_model(newsubs0) + (
                seq![head.0] + rest.0));
                assert((pairs_model(out0) + head.1) + rest.1 =~= pairs_model(out0) + (head.1
                    + rest.1));
            }
            k = k + 1;
        }
        proof {
            assert(sm.skip(n as int) =~= Seq::<DirModel>::empty());
            assert(dirs_model(newsubs@) + Seq::<DirModel>::empty() =~= dirs_model(newsubs@));
            assert(pairs_model(out@) + Seq::<(Seq<char>, Seq<char>)>::empty() =~= pairs_model(
                out@,
            ));
        }
        let nd = Directory { name, subdirs: newsubs, files, path };
        (nd, out)
    }
}

/// Every pair collected under a well-formed node carries the node's path
/// as a prefix of its own.
proof fn lemma_collect_prefix(d: DirModel)
    requires
        node_wf(d),
    ensures
        forall|t: int|
            0 <= t < collect_spec(d).len() ==> d.path.is_prefix_of(
                #[trigger] collect_spec(d)[t].0,
            ),
    decreases d,
{
    let fp = file_pairs(d.path, d.files);
    let cc = collect_children(d.subdirs);
    assert forall|t: int| 0 <= t < collect_spec(d).len() implies d.path.is_prefix_of(
        #[trigger] collect_spec(d)[t].0,
    ) by {
        if t < fp.len() {
            assert(collect_spec(d)[t] == fp[t]);
            assert(fp[t].0 == join(d.path, d.files[t].name));
            assert(join(d.path, d.files[t].name).subrange(0, d.path.len() as int) =~= d.path);
        } else {
            lemma_collect_children_prefix(d.subdirs, d.path);
            assert(collect_spec(d)[t] == cc[t - fp.len()]);
        }
    }
}

proof fn lemma_collect_children_prefix(s: Seq<DirModel>, base: Seq<char>)
    requires
        forall|i: int| 0 <= i < s.len() ==> node_wf(#[trigger] s[i]),
        forall|i: int| 0 <= i < s.len() ==> (#[trigger] s[i]).path == join(base, s[i].name),
    ensures
        forall|t: int|
            0 <= t < collect_children(s).len() ==> base.is_prefix_of(
                #[trigger] collect_children(s)[t].0,
            ),
    decreases s,
{
    if s.len() > 0 {
        lemma_collect_prefix(s[0]);
        assert forall|i: int| 0 <= i < s.drop_first().len() implies node_wf(
            #[trigger] s.drop_first()[i],
        ) && (s.drop_first()[i]).path == join(base, s.drop_first()[i].name) by {
            assert(s.drop_first()[i] == s[i + 1]);
        }
        lemma_collect_children_prefix(s.drop_first(), base);
        let h = collect_spec(s[0]);
        let rest = collect_children(s.drop_first());
        assert forall|t: int| 0 <= t < collect_children(s).len() implies base.is_prefix_of(
            #[trigger] collect_children(s)[t].0,
        ) by {
            if t < h.len() {
                assert(collect_children(s)[t] == h[t]);
                assert(s[0].path.is_prefix_of(h[t].0));
                assert(s[0].path.subrange(0, base.len() as int) =~= base);
                assert(base.is_prefix_of(h[t].0)) by {
                    assert(h[t].0.subrange(0, base.len() as int) =~= s[0].path.subrange(
                        0,
                        base.len() as int,
                    ));
                }
            } else {
                assert(collect_children(s)[t] == rest[t - h.len()]);
            }
        }
    }
}

/// The file path lies under some node of the tree whose name matches the
/// target set.
pub open spec fn under_matched(d: DirModel, targets: Seq<Seq<char>>, fpath: Seq<char>) -> bool
    decreases d,
{
    if name_in_targets(targets, d.name) {
        d.path.is_prefix_of(fpath)
    } else {
        exists|i: int|
            0 <= i < d.subdirs.len() && under_matched(#[trigger] d.subdirs[i], targets, fpath)
    }
}

/// Selection exclusivity: every collected file lies under a node of the
/// original tree whose name matched the targets; no file outside a
/// matched subtree is returned.
pub proof fn lemma_selection_exclusive(d: DirModel, targets: Seq<Seq<char>>, fs: FsModel)
    ensures
        forall|t: int|
            0 <= t < select_spec(d, targets, fs).1.len() ==> under_matched(
                d,
                targets,
                #[trigger] select_spec(d, targets, fs).1[t].0,
            ),
    decreases d,
{
    let out = select_spec(d, targets, fs).1;
    if name_in_targets(targets, d.name) {
        let nd = build_spec(fs, d.path, true);
        crate::scan::lemma_build_spec_wf(fs, d.path, true);
        lemma_collect_prefix(nd);
        assert forall|t: int| 0 <= t < out.len() implies under_matched(d, targets, out[t].0) by {
            assert(out[t] == collect_spec(nd)[t]);
            assert(nd.path == d.path);
            assert(d.path.is_prefix_of(out[t].0));
        }
    } else {
        lemma_select_children_exclusive(d.subdirs, targets, fs.dirs);
        assert forall|t: int| 0 <= t < out.len() implies under_matched(d, targets, out[t].0) by {
            assert(out[t] == select_children(d.subdirs, targets, fs.dirs).1[t]);
            let i = choose|i: int|
                0 <= i < d.subdirs.len() && under_matched(d.subdirs[i], targets, out[t].0);
            assert(under_matched(d.subdirs[i], targets, out[t].0));
        }
    }
}

proof fn lemma_select_children_exclusive(
    s: Seq<DirModel>,
    targets: Seq<Seq<char>>,
    fsdirs: Seq<FsModel>,
)
    ensures
        forall|t: int|
            0 <= t < select_children(s, targets, fsdirs).1.len() ==> exists|i: int|
                0 <= i < s.len() && under_matched(
                    #[trigger] s[i],
                    targets,
                    #[trigger] select_children(s, targets, fsdirs).1[t].0,
                ),
    decreases s,
{
    if s.len() > 0 {
        lemma_selection_exclusive(s[0], targets, fs_lookup(fsdirs, s[0].name));
        lemma_select_children_exclusive(s.drop_first(), targets, fsdirs);
        let h = select_spec(s[0], targets, fs_lookup(fsdirs, s[0].name)).1;
        let rest = select_children(s.drop_first(), targets, fsdirs).1;
        assert forall|t: int| 0 <= t < select_children(s, targets, fsdirs).1.len() implies exists|
            i: int,
        |
            0 <= i < s.len() && under_matched(
                #[trigger] s[i],
                targets,
                #[trigger] select_children(s, targets, fsdirs).1[t].0,
            ) by {
            if t < h.len() {
                assert(select_children(s, targets, fsdirs).1[t] == h[t]);
                assert(under_matched(s[0], targets, h[t].0));
            } else {
                assert(select_children(s, targets, fsdirs).1[t] == rest[t - h.len()]);
                let p = rest[t - h.len()].0;
                let i = choose|i: int|
                    0 <= i < s.drop_first().len() && under_matched(s.drop_first()[i], targets, p);
                assert(s[i + 1] == s.drop_first()[i]);
                assert(under_matched(s[i + 1], targets, p));
            }
        }
    }
}

/// The name the snapshot lookup answers with is the requested one.
proof fn lemma_fs_lookup_name(dirs: Seq<FsModel>, name: Seq<char>)
    ensures
        fs_lookup(dirs, name).name == name,
    decreases dirs.len(),
{
    if dirs.len() > 0 && dirs[0].name != name {
        lemma_fs_lookup_name(dirs.drop_first(), name);
    }
}

/// Selection keeps the tree invariants: the result is well-formed and
/// keeps the node's own name and path.
pub proof fn lemma_select_wf(d: DirModel, targets: Seq<Seq<char>>, fs: FsModel)
    requires
        node_wf(d),
        fs.name == d.name,
    ensures
        node_wf(select_spec(d, targets, fs).0),
        select_spec(d, targets, fs).0.name == d.name,
        select_spec(d, targets, fs).0.path == d.path,
    decreases d,
{
    if name_in_targets(targets, d.name) {
        crate::scan::lemma_build_spec_wf(fs, d.path, true);
    } else {
        lemma_select_children_wf(d.subdirs, targets, fs.dirs);
    }
}

proof fn lemma_select_children_wf(s: Seq<DirModel>, targets: Seq<Seq<char>>, fsdirs: Seq<FsModel>)
    requires
        forall|i: int| 0 <= i < s.len() ==> node_wf(#[trigger] s[i]),
    ensures
        select_children(s, targets, fsdirs).0.len() == s.len(),
        forall|i: int|
            0 <= i < s.len() ==> {
                let c = #[trigger] select_children(s, targets, fsdirs).0[i];
                c.name == s[i].name && c.path == s[i].path && node_wf(c)
            },
    decreases s,
{
    if s.len() > 0 {
        lemma_fs_lookup_name(fsdirs, s[0].name);
        lemma_select_wf(s[0], targets, fs_lookup(fsdirs, s[0].name));
        lemma_select_children_wf(s.drop_first(), targets, fsdirs);
        let h = select_spec(s[0], targets, fs_lookup(fsdirs, s[0].name)).0;
        let rest = select_children(s.drop_first(), targets, fsdirs).0;
        assert forall|i: int| 0 <= i < s.len() implies {
            let c = #[trigger] select_children(s, targets, fsdirs).0[i];
            c.name == s[i].name && c.path == s[i].path && node_wf(c)
        } by {
            if i == 0 {
                assert(select_children(s, targets, fsdirs).0[0] == h);
            } else {
                assert(select_children(s, targets, fsdirs).0[i] == rest[i - 1]);
                assert(s.drop_first()[i - 1] == s[i]);
            }
        }
    }
}

impl Directory {
    /// Replace every node whose name matches a target by a deep build of
    /// its own path out of the snapshot, and return the `(path, name)`
    /// pair of every file under the matched subtrees.
    pub fn collect_files_to_summarize(&mut self, filtered_folders: &[String], fs: &FsDir) -> (out:
        Vec<(String, String)>)
        ensures
            dir_model(*final(self)) == select_spec(
                dir_model(*old(self)),
                strs_model(filtered_folders@),
                fs_model(*fs),
            ).0,
            pairs_model(out@) == select_spec(
                dir_model(*old(self)),
                strs_model(filtered_folders@),
                fs_model(*fs),
            ).1,
    {
        let mut owned = Directory::new(String::new(), String::new());
        core::mem::swap(self, &mut owned);
        let (nd, out) = select_owned(owned, filtered_folders, fs);
        *self = nd;
        out
    }
}

} // verus!
