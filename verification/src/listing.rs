//! The indented, depth-prefixed folder listing that is handed to the
//! classifier: one line per directory in pre-order, each indented two
//! spaces per level, optionally followed by the node's file names one
//! level deeper.

use vstd::prelude::*;

use crate::tree::{
    dir_model, file_model, lemma_dirs_model_index, DirModel, Directory, FileModel,
};

verus! {

/// `n` spaces.
pub open spec fn spaces(n: int) -> Seq<char>
    decreases n,
{
    if n <= 0 {
        Seq::empty()
    } else {
        spaces(n - 1) + seq![' ']
    }
}

proof fn lemma_spaces_step(n: int)
    requires
        n >= 0,
    ensures
        spaces(n + 2) == spaces(n) + seq![' ', ' '],
{
    assert(spaces(n + 2) == spaces(n + 1) + seq![' ']);
    assert(spaces(n + 1) == spaces(n) + seq![' ']);
    assert((spaces(n) + seq![' ']) + seq![' '] =~= spaces(n) + seq![' ', ' ']);
}

/// The height of a node: one more than its tallest child.
pub open spec fn dir_height(d: DirModel) -> nat
    decreases d,
{
    1 + dirs_height(d.subdirs)
}

pub open spec fn dirs_height(s: Seq<DirModel>) -> nat
    decreases s,
{
    if s.len() == 0 {
        0
    } else if dir_height(s[0]) >= dirs_height(s.drop_first()) {
        dir_height(s[0])
    } else {
        dirs_height(s.drop_first())
    }
}

proof fn lemma_dirs_height_bound(s: Seq<DirModel>, i: int)
    requires
        0 <= i < s.len(),
    ensures
        dir_height(s[i]) <= dirs_height(s),
    decreases s,
{
    if i > 0 {
        lemma_dirs_height_bound(s.drop_first(), i - 1);
    }
}

/// One line per file, indented to the given depth.
pub open spec fn file_lines(files: Seq<FileModel>, depth: int) -> Seq<char>
    decreases files.len(),
{
    if files.len() == 0 {
        Seq::empty()
    } else {
        spaces(2 * depth) + files[0].name + seq!['\n'] + file_lines(files.drop_first(), depth)
    }
}

/// The pre-order listing of a node: its own line, its subtrees, and (when
/// files are included) its file lines one level deeper.
pub open spec fn listing_spec(d: DirModel, depth: int, include_files: bool) -> Seq<char>
    decreases d,
{
    spaces(2 * depth) + d.name + seq!['\n'] + listing_children(d.subdirs, depth + 1, include_files)
        + if include_files {
        file_lines(d.files, depth + 1)
    } else {
        Seq::empty()
    }
}

pub open spec fn listing_children(s: Seq<DirModel>, depth: int, include_files: bool) -> Seq<char>
    decreases s,
{
    if s.len() == 0 {
        Seq::empty()
    } else {
        listing_spec(s[0], depth, include_files) + listing_children(
            s.drop_first(),
            depth,
            include_files,
        )
    }
}

fn push_indent(result: &mut String, depth: usize)
    ensures
        final(result)@ == old(result)@ + spaces(2 * depth as int),
{
    let ghost base = result@;
    let mut k: usize = 0;
    proof {
        assert(base + spaces(0) =~= base);
    }
    while k < depth
        invariant
            k <= depth,
            result@ == base + spaces(2 * k as int),
        decreases depth - k,
    {
        result.append("  ");
        proof {
            reveal_strlit("  ");
            assert("  "@ =~= seq![' ', ' ']);
            lemma_spaces_step(2 * k as int);
            assert((base + spaces(2 * k as int)) + seq![' ', ' '] =~= base + (spaces(2 * k as int)
                + seq![' ', ' ']));
        }
        k = k + 1;
    }
}

impl Directory {
    /// Append this node's listing to `result`, indented by `depth`.
    pub fn collect_folders_recursively(
        &self,
        depth: usize,
        result: &mut String,
        include_files: bool,
    )
        requires
            2 * (depth + dir_height(dir_model(*self))) <= usize::MAX,
        ensures
            final(result)@ == old(result)@ + listing_spec(
                dir_model(*self),
                depth as int,
                include_files,
            ),
        decreases dir_model(*self),
    {
        let ghost dm = dir_model(*self);
        let ghost base = result@;
        push_indent(result, depth);
        result.append(self.name.as_str());
        result.append("\n");
        proof {
            reveal_strlit("\n");
            assert("\n"@ =~= seq!['\n']);
            assert((base + spaces(2 * depth as int)) + dm.name + seq!['\n'] =~= base + (spaces(
                2 * depth as int,
            ) + dm.name + seq!['\n']));
        }
        let ghost own = spaces(2 * depth as int) + dm.name + seq!['\n'];
        let n = self.subdirs.len();
        let mut j: usize = 0;
        proof {
            lemma_dirs_model_index(self.subdirs@);
            assert(dm.subdirs.skip(0) =~= dm.subdirs);
        }
        while j < n
            invariant
                j <= n,
                n == self.subdirs@.len(),
                dm == dir_model(*self),
                dm.subdirs.len() == n,
                2 * (depth + dir_height(dm)) <= usize::MAX,
                forall|k: int| 0 <= k < n ==> dm.subdirs[k] == dir_model(self.subdirs@[k]),
                result@ + listing_children(dm.subdirs.skip(j as int), depth as int + 1, include_files)
                    == base + own + listing_children(dm.subdirs, depth as int + 1, include_files),
            decreases n - j,
        {
            proof {
                assert(dm.subdirs.skip(j as int).drop_first() =~= dm.subdirs.skip(j as int + 1));
                assert(dm.subdirs.skip(j as int)[0] == dm.subdirs[j as int]);
                lemma_dirs_height_bound(dm.subdirs, j as int);
                let s_ = dm.subdirs;
                assert(decreases_to!(dm => dm.subdirs));
                assert(decreases_to!(s_ => s_[j as int]));
            }
            let ghost before = result@;
            let sub = &self.subdirs[j];
            // the child's listing fits: its height is below this node's
            sub.collect_folders_recursively(depth + 1, result, include_files);
            proof {
                let h = listing_spec(dm.subdirs[j as int], depth as int + 1, include_files);
                let rest = listing_children(
                    dm.subdirs.skip(j as int + 1),
                    depth as int + 1,
                    include_files,
                );
                assert((before + h) + rest =~= before + (h + rest));
            }
            j = j + 1;
        }
        proof {
            assert(dm.subdirs.skip(n as int) =~= Seq::<DirModel>::empty());
            assert(result@ + Seq::<char>::empty() =~= result@);
        }
        if include_files {
            let m = self.files.len();
            let mut i: usize = 0;
            let ghost fbase = result@;
            proof {
                assert(dm.files.skip(0) =~= dm.files);
            }
            while i < m
                invariant
                    i <= m,
                    m == self.files@.len(),
                    dm == dir_model(*self),
                    dm.files.len() == m,
                    2 * (depth + dir_height(dm)) <= usize::MAX,
                    forall|k: int| 0 <= k < m ==> dm.files[k] == file_model(self.files@[k]),
                    result@ + file_lines(dm.files.skip(i as int), depth as int + 1) == fbase
                        + file_lines(dm.files, depth as int + 1),
                decreases m - i,
            {
                proof {
                    assert(dm.files.skip(i as int).drop_first() =~= dm.files.skip(i as int + 1));
                    assert(dm.files.skip(i as int)[0] == dm.files[i as int]);
                }
                let ghost before = result@;
                push_indent(result, depth + 1);
                result.append(self.files[i].name.as_str());
                result.append("\n");
                proof {
                    reveal_strlit("\n");
                    assert("\n"@ =~= seq!['\n']);
                    let h = spaces(2 * (depth as int + 1)) + dm.files[i as int].name + seq!['\n'];
                    let rest = file_lines(dm.files.skip(i as int + 1), depth as int + 1);
                    assert(((before + spaces(2 * (depth as int + 1))) + dm.files[i as int].name)
                        + seq!['\n'] =~= before + h);
                    assert((before + h) + rest =~= before + (h + rest));
                }
                i = i + 1;
            }
            proof {
                assert(dm.files.skip(m as int) =~= Seq::<FileModel>::empty());
                assert(result@ + Seq::<char>::empty() =~= result@);
            }
        } else {
            proof {
                assert(result@ + Seq::<char>::empty() =~= result@);
            }
        }
    }

    /// The structural folder listing handed to the classifier.
    pub fn collect_folders(&self) -> (r: String)
        requires
            2 * dir_height(dir_model(*self)) <= usize::MAX,
        ensures
            r@ == listing_spec(dir_model(*self), 0, false),
    {
        let mut result = String::new();
        self.collect_folders_recursively(0, &mut result, false);
        proof {
            assert(Seq::<char>::empty() + listing_spec(dir_model(*self), 0, false) =~= listing_spec(
                dir_model(*self),
                0,
                false,
            ));
        }
        result
    }
}

} // verus!
