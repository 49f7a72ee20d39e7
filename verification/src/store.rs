//! The shared state of the serving phase: the live tree and the progress
//! record.  Mutation goes through `record_completion` alone, which
//! increments the completed counter, inserts into the summaries map and
//! applies the summary to the tree; readers take snapshots by reference.
//! Callers serialize access (one writer at a time); nothing here removes
//! or resets state.

use vstd::map::*;
use vstd::prelude::*;

use crate::apply::update_spec;
use crate::text::str_eq;
use crate::tree::{dir_model, DirModel, Directory};

verus! {

/// A path-to-summary map with unique keys, backed by an association list.
pub struct SummaryMap {
    entries: Vec<(String, String)>,
}

/// The map an entry list denotes, later entries overriding earlier ones.
pub open spec fn entries_map(s: Seq<(String, String)>) -> Map<Seq<char>, Seq<char>>
    decreases s.len(),
{
    if s.len() == 0 {
        Map::empty()
    } else {
        entries_map(s.drop_last()).insert(s.last().0@, s.last().1@)
    }
}

impl SummaryMap {
    pub closed spec fn view(&self) -> Map<Seq<char>, Seq<char>> {
        entries_map(self.entries@)
    }

    /// The backing entries carry pairwise distinct keys.
    pub closed spec fn wf(&self) -> bool {
        forall|i: int, j: int|
            0 <= i < j < self.entries@.len() ==> self.entries@[i].0@ != self.entries@[j].0@
    }

    /// How many files have a recorded summary.
    pub closed spec fn spec_len(&self) -> nat {
        self.entries@.len()
    }

    pub fn new() -> (m: SummaryMap)
        ensures
            m@ == Map::<Seq<char>, Seq<char>>::empty(),
            m.wf(),
            m.spec_len() == 0,
    {
        let m = SummaryMap { entries: Vec::new() };
        proof {
            assert(m@ =~= Map::<Seq<char>, Seq<char>>::empty());
        }
        m
    }

    pub fn len(&self) -> (n: usize)
        ensures
            n == self.spec_len(),
    {
        self.entries.len()
    }

    pub fn get(&self, key: &str) -> (r: Option<&String>)
        requires
            self.wf(),
        ensures
            match r {
                Some(v) => self@.contains_key(key@) && v@ == self@[key@],
                None => !self@.contains_key(key@),
            },
    {
        let n = self.entries.len();
        let mut i: usize = 0;
        while i < n
            invariant
                i <= n,
                n == self.entries@.len(),
                self.wf(),
                forall|k: int| 0 <= k < i ==> self.entries@[k].0@ != key@,
            decreases n - i,
        {
            if str_eq(self.entries[i].0.as_str(), key) {
                proof {
                    lemma_entries_map_found(self.entries@, i as int);
                }
                return Some(&self.entries[i].1);
            }
            i = i + 1;
        }
        proof {
            lemma_entries_map_absent(self.entries@, key@);
        }
        None
    }

    /// The recorded `(path, summary)` pairs, for serialization.
    pub fn entries(&self) -> (r: &Vec<(String, String)>)
        requires
            self.wf(),
        ensures
            r@.len() == self.spec_len(),
            forall|i: int|
                0 <= i < r@.len() ==> self@.contains_key(#[trigger] r@[i].0@) && self@[r@[i].0@]
                    == r@[i].1@,
    {
        proof {
            assert forall|i: int| 0 <= i < self.entries@.len() implies self@.contains_key(
                #[trigger] self.entries@[i].0@,
            ) && self@[self.entries@[i].0@] == self.entries@[i].1@ by {
                lemma_entries_map_found(self.entries@, i);
            }
        }
        &self.entries
    }

    /// Record one summary.  A key is inserted exactly once per run, so the
    /// caller hands in a path that is not present yet.
    pub fn insert(&mut self, key: String, value: String)
        requires
            old(self).wf(),
            !old(self)@.contains_key(key@),
        ensures
            final(self).wf(),
            final(self)@ == old(self)@.insert(key@, value@),
            final(self).spec_len() == old(self).spec_len() + 1,
    {
        proof {
            lemma_entries_map_absent_keys(self.entries@, key@);
        }
        let ghost prev = self.entries@;
        self.entries.push((key, value));
        proof {
            assert(self.entries@.drop_last() =~= prev);
        }
    }
}

/// If entry `i` is the only occurrence of its key, the map holds its value.
proof fn lemma_entries_map_found(s: Seq<(String, String)>, i: int)
    requires
        0 <= i < s.len(),
        forall|a: int, b: int| 0 <= a < b < s.len() ==> s[a].0@ != s[b].0@,
    ensures
        entries_map(s).contains_key(s[i].0@),
        entries_map(s)[s[i].0@] == s[i].1@,
    decreases s.len(),
{
    if i < s.len() - 1 {
        assert(s.drop_last()[i] == s[i]);
        lemma_entries_map_found(s.drop_last(), i);
        assert(s[i].0@ != s.last().0@);
    }
}

/// A key no entry carries is not in the map.
proof fn lemma_entries_map_absent(s: Seq<(String, String)>, key: Seq<char>)
    requires
        forall|k: int| 0 <= k < s.len() ==> s[k].0@ != key,
    ensures
        !entries_map(s).contains_key(key),
    decreases s.len(),
{
    if s.len() > 0 {
        lemma_entries_map_absent(s.drop_last(), key);
    }
}

/// Conversely, a key absent from the map is carried by no entry.
proof fn lemma_entries_map_absent_keys(s: Seq<(String, String)>, key: Seq<char>)
    requires
        !entries_map(s).contains_key(key),
    ensures
        forall|k: int| 0 <= k < s.len() ==> s[k].0@ != key,
    decreases s.len(),
{
    if s.len() > 0 {
        lemma_entries_map_absent_keys(s.drop_last(), key);
        assert forall|k: int| 0 <= k < s.len() implies s[k].0@ != key by {
            if k < s.len() - 1 {
                assert(s.drop_last()[k] == s[k]);
            }
        }
    }
}

/// The live progress record: how many files were scheduled, how many have
/// finished, and the summary recorded for each finished file.
pub struct Progress {
    pub total_files: usize,
    pub completed_files: usize,
    pub summaries: SummaryMap,
}

impl Progress {
    /// The counters agree with the map and completion never passes the
    /// total.
    pub open spec fn wf(&self) -> bool {
        &&& self.summaries.wf()
        &&& self.completed_files == self.summaries.spec_len()
        &&& self.completed_files <= self.total_files
    }
}

/// The holder of the tree and the progress record for the serving phase.
pub struct StateStore {
    pub project: Directory,
    pub progress: Progress,
}

impl StateStore {
    /// Take ownership of the tree once scheduling has fixed the number of
    /// files to summarize.
    pub fn new_for_run(project: Directory, total_files: usize) -> (s: StateStore)
        ensures
            dir_model(s.project) == dir_model(project),
            s.progress.total_files == total_files,
            s.progress.completed_files == 0,
            s.progress.summaries@ == Map::<Seq<char>, Seq<char>>::empty(),
            s.progress.wf(),
    {
        StateStore {
            project,
            progress: Progress {
                total_files,
                completed_files: 0,
                summaries: SummaryMap::new(),
            },
        }
    }

    pub fn read_tree_snapshot(&self) -> (r: &Directory)
        ensures
            r == self.project,
    {
        &self.project
    }

    pub fn read_progress_snapshot(&self) -> (r: &Progress)
        ensures
            r == self.progress,
    {
        &self.progress
    }

    /// Record one finished file: bump the completed counter, insert the
    /// summary under the file's path, and set it on the tree's entry.
    pub fn record_completion(&mut self, file_path: String, summary: String)
        requires
            old(self).progress.wf(),
            old(self).progress.completed_files < old(self).progress.total_files,
            !old(self).progress.summaries@.contains_key(file_path@),
        ensures
            final(self).progress.wf(),
            final(self).progress.total_files == old(self).progress.total_files,
            final(self).progress.completed_files == old(self).progress.completed_files + 1,
            final(self).progress.summaries@ == old(self).progress.summaries@.insert(
                file_path@,
                summary@,
            ),
            dir_model(final(self).project) == update_spec(
                dir_model(old(self).project),
                file_path@,
                summary@,
            ),
    {
        self.progress.completed_files = self.progress.completed_files + 1;
        self.progress.summaries.insert(file_path.clone(), summary.clone());
        self.project.update_file_summary(file_path.as_str(), summary);
    }
}

/// The map after inserting every outcome in order.
pub open spec fn insert_all(
    m: Map<Seq<char>, Seq<char>>,
    s: Seq<(Seq<char>, Seq<char>)>,
) -> Map<Seq<char>, Seq<char>>
    decreases s.len(),
{
    if s.len() == 0 {
        m
    } else {
        insert_all(m.insert(s[0].0, s[0].1), s.drop_first())
    }
}

/// The tree after applying every outcome in order.
pub open spec fn update_all(d: DirModel, s: Seq<(Seq<char>, Seq<char>)>) -> DirModel
    decreases s.len(),
{
    if s.len() == 0 {
        d
    } else {
        update_all(update_spec(d, s[0].0, s[0].1), s.drop_first())
    }
}

/// No two outcomes name the same file.
pub open spec fn distinct_keys(s: Seq<(Seq<char>, Seq<char>)>) -> bool {
    forall|i: int, j: int| 0 <= i < j < s.len() ==> s[i].0 != s[j].0
}

/// Some outcome names this key.
pub open spec fn has_key(s: Seq<(Seq<char>, Seq<char>)>, k: Seq<char>) -> bool {
    exists|i: int| 0 <= i < s.len() && s[i].0 == k
}

impl StateStore {
    /// Record every outcome of a finished run, one completion at a time.
    /// Concurrent schedulers serialize their `record_completion` calls, so
    /// their combined effect is this sequential composition in some order.
    pub fn record_all(&mut self, outcomes: Vec<(String, String)>)
        requires
            old(self).progress.wf(),
            old(self).progress.completed_files + outcomes@.len() <= old(
                self,
            ).progress.total_files,
            distinct_keys(crate::select::pairs_model(outcomes@)),
            forall|i: int|
                0 <= i < outcomes@.len() ==> !old(self).progress.summaries@.contains_key(
                    crate::select::pairs_model(outcomes@)[i].0,
                ),
        ensures
            final(self).progress.wf(),
            final(self).progress.total_files == old(self).progress.total_files,
            final(self).progress.completed_files == old(self).progress.completed_files
                + outcomes@.len(),
            final(self).progress.summaries@ == insert_all(
                old(self).progress.summaries@,
                crate::select::pairs_model(outcomes@),
            ),
            dir_model(final(self).project) == update_all(
                dir_model(old(self).project),
                crate::select::pairs_model(outcomes@),
            ),
    {
        let ghost om = crate::select::pairs_model(outcomes@);
        let ghost m0 = old(self).progress.summaries@;
        let ghost d0 = dir_model(old(self).project);
        let ghost total = old(self).progress.total_files;
        let ghost done0 = old(self).progress.completed_files;
        let n = outcomes.len();
        let mut rest = outcomes;
        let mut k: usize = 0;
        proof {
            assert(om.skip(0) =~= om);
        }
        while rest.len() > 0
            invariant
                k + rest@.len() == n,
                om.len() == n,
                om == crate::select::pairs_model(outcomes@),
                distinct_keys(om),
                forall|t: int| k <= t < n ==> om[t] == (rest@[t - k].0@, rest@[t - k].1@),
                forall|t: int|
                    k <= t < n ==> !self.progress.summaries@.contains_key(om[t].0),
                self.progress.wf(),
                self.progress.total_files == total,
                self.progress.completed_files == done0 + k,
                done0 + n <= total,
                insert_all(m0, om) == insert_all(self.progress.summaries@, om.skip(k as int)),
                update_all(d0, om) == update_all(dir_model(self.project), om.skip(k as int)),
            decreases rest@.len(),
        {
            let ghost prevrest = rest@;
            let ghost prevmap = self.progress.summaries@;
            let ghost prevtree = dir_model(self.project);
            let (p, s) = rest.remove(0);
            proof {
                assert((p, s) == prevrest[0]);
                assert(rest@ =~= prevrest.drop_first());
                assert(om[k as int] == (p@, s@));
                assert(om.skip(k as int).drop_first() =~= om.skip(k as int + 1));
                assert(om.skip(k as int)[0] == om[k as int]);
            }
            self.record_completion(p, s);
            proof {
                assert forall|t: int| k + 1 <= t < n implies !self.progress.summaries@.contains_key(
                    om[t].0,
                ) by {
                    assert(om[t].0 != om[k as int].0);
                }
            }
            k = k + 1;
        }
        proof {
            assert(om.skip(n as int) =~= Seq::<(Seq<char>, Seq<char>)>::empty());
        }
    }
}

proof fn lemma_entries_map_dom(s: Seq<(String, String)>)
    requires
        forall|i: int, j: int| 0 <= i < j < s.len() ==> s[i].0@ != s[j].0@,
    ensures
        entries_map(s).dom().finite(),
        entries_map(s).dom().len() == s.len(),
    decreases s.len(),
{
    if s.len() == 0 {
        assert(entries_map(s).dom() =~= Set::<Seq<char>>::empty());
    } else {
        lemma_entries_map_dom(s.drop_last());
        assert forall|k: int| 0 <= k < s.drop_last().len() implies s.drop_last()[k].0@
            != s.last().0@ by {
            assert(s.drop_last()[k] == s[k]);
        }
        lemma_entries_map_absent(s.drop_last(), s.last().0@);
        assert(entries_map(s).dom() =~= entries_map(s.drop_last()).dom().insert(s.last().0@));
    }
}

impl SummaryMap {
    /// A well-formed map holds exactly as many keys as entries.
    pub proof fn lemma_len_is_dom_len(&self)
        requires
            self.wf(),
        ensures
            self@.dom().finite(),
            self@.dom().len() == self.spec_len(),
    {
        lemma_entries_map_dom(self.entries@);
    }
}

/// At quiescence the counters and the map agree: as many summaries are
/// recorded as files were scheduled.
pub proof fn lemma_progress_closure(p: &Progress)
    requires
        p.wf(),
        p.completed_files == p.total_files,
    ensures
        p.summaries@.dom().finite(),
        p.summaries@.dom().len() == p.total_files,
        p.completed_files == p.total_files,
{
    p.summaries.lemma_len_is_dom_len();
}

/// Inserting outcomes with fresh, pairwise distinct keys grows the map by
/// exactly their number, records each key's own value, and leaves every
/// other key's value unchanged.
pub proof fn lemma_insert_all(m: Map<Seq<char>, Seq<char>>, s: Seq<(Seq<char>, Seq<char>)>)
    requires
        m.dom().finite(),
        distinct_keys(s),
        forall|i: int| 0 <= i < s.len() ==> !m.contains_key(#[trigger] s[i].0),
    ensures
        insert_all(m, s).dom().finite(),
        insert_all(m, s).dom().len() == m.dom().len() + s.len(),
        forall|i: int|
            0 <= i < s.len() ==> insert_all(m, s).contains_key(#[trigger] s[i].0) && insert_all(
                m,
                s,
            )[s[i].0] == s[i].1,
        forall|k: Seq<char>|
            #[trigger] insert_all(m, s).contains_key(k) <==> m.contains_key(k) || has_key(s, k),
        forall|k: Seq<char>|
            m.contains_key(k) && !has_key(s, k) ==> #[trigger] insert_all(m, s)[k] == m[k],
    decreases s.len(),
{
    if s.len() > 0 {
        let m1 = m.insert(s[0].0, s[0].1);
        let st = s.drop_first();
        assert forall|i: int| 0 <= i < st.len() implies !m1.contains_key(#[trigger] st[i].0) by {
            assert(st[i] == s[i + 1]);
            assert(s[i + 1].0 != s[0].0);
        }
        lemma_insert_all(m1, st);
        assert(m1.dom() =~= m.dom().insert(s[0].0));
        assert forall|i: int| 0 <= i < s.len() implies insert_all(m, s).contains_key(
            #[trigger] s[i].0,
        ) && insert_all(m, s)[s[i].0] == s[i].1 by {
            if i == 0 {
                assert(m1.contains_key(s[0].0) && m1[s[0].0] == s[0].1);
                assert(!has_key(st, s[0].0));
            } else {
                assert(st[i - 1] == s[i]);
            }
        }
        assert forall|k: Seq<char>| #[trigger] insert_all(m, s).contains_key(k) <==> m.contains_key(
            k,
        ) || has_key(s, k) by {
            if has_key(s, k) {
                let i = choose|i: int| 0 <= i < s.len() && s[i].0 == k;
                if i > 0 {
                    assert(st[i - 1] == s[i]);
                    assert(has_key(st, k));
                }
            }
            if has_key(st, k) {
                let i = choose|i: int| 0 <= i < st.len() && st[i].0 == k;
                assert(s[i + 1] == st[i]);
                assert(has_key(s, k));
            }
        }
        assert forall|k: Seq<char>| m.contains_key(k) && !has_key(s, k) implies #[trigger] insert_all(
            m,
            s,
        )[k] == m[k] by {
            assert(s[0].0 != k);
            if has_key(st, k) {
                let i = choose|i: int| 0 <= i < st.len() && st[i].0 == k;
                assert(s[i + 1] == st[i]);
            }
            assert(!has_key(st, k));
            assert(m1.contains_key(k) && m1[k] == m[k]);
        }
    }
}

} // verus!
