//! Changeset revision store: a ledger of tasks (named lines of history)
//! and changesets (immutable snapshots chained by parent pointers), and
//! the submit operation that merges a changeset's file listing over the
//! previous tree and records the result.
//!
//! Row ids are assigned by the ledger in insertion order, starting at 1,
//! so the latest changeset of a task is its last row for that task.

use vstd::prelude::*;

verus! {

use crate::error::VelesError;
use crate::objects::{object_id, store_after_put, Object, ObjectStore};
use crate::text::bytes_to_string;
use crate::tree::{
    lemma_tree_text_roundtrip, lines_view, lines_wf, merge_spec, parse_tree_lines,
    parse_tree_spec, tree_lines_to_text, tree_text, upsert_line, TreeLine,
};
use vstd::utf8::{decode_utf8, encode_utf8, valid_utf8};

broadcast use
    vstd::utf8::encode_utf8_valid_utf8,
    vstd::utf8::encode_utf8_decode_utf8,
    vstd::utf8::decode_utf8_encode_utf8,
;

/// A named line of history.
#[derive(Debug)]
pub struct Task {
    pub task_id: i32,
    pub name: String,
}

impl Clone for Task {
    fn clone(&self) -> (r: Task)
        ensures
            r == *self,
    {
        Task { task_id: self.task_id, name: self.name.clone() }
    }
}

/// One immutable snapshot in a task's history.
#[derive(Debug)]
pub struct Changeset {
    pub changeset_id: i32,
    pub previous_changeset: i32,
    pub task_id: i32,
    pub user: String,
    pub description: String,
    pub tree_hash: String,
}

impl Clone for Changeset {
    fn clone(&self) -> (r: Changeset)
        ensures
            r == *self,
    {
        Changeset {
            changeset_id: self.changeset_id,
            previous_changeset: self.previous_changeset,
            task_id: self.task_id,
            user: self.user.clone(),
            description: self.description.clone(),
            tree_hash: self.tree_hash.clone(),
        }
    }
}

/// A changeset as the listing view shows it.
#[derive(Debug)]
pub struct VelesChange {
    pub id: u32,
    pub user: String,
    pub description: String,
}

/// One file-to-hash change handed to submit.
#[derive(Debug)]
pub struct FileChange {
    pub path: String,
    pub hash: String,
}

/// The `(hash, path)` pairs of a change list.
pub open spec fn changes_view(s: Seq<FileChange>) -> Seq<(Seq<char>, Seq<char>)> {
    Seq::new(s.len(), |i: int| (s[i].hash@, s[i].path@))
}

/// The first task with this name, or `-1`.
pub open spec fn find_task_idx(tasks: Seq<Task>, name: Seq<char>) -> int
    decreases tasks.len(),
{
    if tasks.len() == 0 {
        -1
    } else if tasks.first().name@ == name {
        0
    } else {
        let r = find_task_idx(tasks.drop_first(), name);
        if r < 0 {
            -1
        } else {
            r + 1
        }
    }
}

/// What `find_task_idx` returns: the first task of that name, or `-1`.
pub proof fn lemma_find_task_idx_spec(tasks: Seq<Task>, name: Seq<char>)
    ensures
        find_task_idx(tasks, name) < 0 ==> forall|j: int|
            0 <= j < tasks.len() ==> tasks[j].name@ != name,
        find_task_idx(tasks, name) >= 0 ==> 0 <= find_task_idx(tasks, name) < tasks.len()
            && tasks[find_task_idx(tasks, name)].name@ == name,
    decreases tasks.len(),
{
    if tasks.len() > 0 && tasks.first().name@ != name {
        lemma_find_task_idx_spec(tasks.drop_first(), name);
        if find_task_idx(tasks.drop_first(), name) < 0 {
            assert forall|j: int| 0 <= j < tasks.len() implies tasks[j].name@ != name by {
                if j > 0 {
                    assert(tasks.drop_first()[j - 1].name@ != name);
                }
            }
        }
    }
}

/// The row of the task's newest changeset, or `-1` when it has none.
pub open spec fn latest_idx(cs: Seq<Changeset>, tid: i32) -> int
    decreases cs.len(),
{
    if cs.len() == 0 {
        -1
    } else if cs.last().task_id == tid {
        cs.len() - 1
    } else {
        latest_idx(cs.drop_last(), tid)
    }
}

/// The id of the task's newest changeset, or 0 when it has none.
pub open spec fn latest_id(cs: Seq<Changeset>, tid: i32) -> int {
    if latest_idx(cs, tid) < 0 {
        0
    } else {
        cs[latest_idx(cs, tid)].changeset_id as int
    }
}

/// What `latest_idx` returns: the last row of the task, or `-1`.
pub proof fn lemma_latest_idx_spec(cs: Seq<Changeset>, tid: i32)
    ensures
        latest_idx(cs, tid) < 0 ==> forall|j: int| 0 <= j < cs.len() ==> cs[j].task_id != tid,
        latest_idx(cs, tid) >= 0 ==> 0 <= latest_idx(cs, tid) < cs.len() && cs[latest_idx(
            cs,
            tid,
        )].task_id == tid && forall|j: int| latest_idx(cs, tid) < j < cs.len() ==> cs[j].task_id
            != tid,
    decreases cs.len(),
{
    if cs.len() > 0 && cs.last().task_id != tid {
        lemma_latest_idx_spec(cs.drop_last(), tid);
        let li = latest_idx(cs, tid);
        if li < 0 {
            assert forall|j: int| 0 <= j < cs.len() implies cs[j].task_id != tid by {
                if j < cs.len() - 1 {
                    assert(cs.drop_last()[j] == cs[j]);
                    assert(cs.drop_last()[j].task_id != tid);
                } else {
                    assert(cs[j] == cs.last());
                }
            }
        } else {
            assert(cs.drop_last()[li] == cs[li]);
            assert forall|j: int| li < j < cs.len() implies cs[j].task_id != tid by {
                if j < cs.len() - 1 {
                    assert(cs.drop_last()[j] == cs[j]);
                    assert(cs.drop_last()[j].task_id != tid);
                } else {
                    assert(cs[j] == cs.last());
                }
            }
        }
    }
}

/// A row of the task with no later row of it is the latest row.
pub proof fn lemma_latest_idx_unique(cs: Seq<Changeset>, tid: i32, i: int)
    requires
        0 <= i < cs.len(),
        cs[i].task_id == tid,
        forall|j: int| i < j < cs.len() ==> cs[j].task_id != tid,
    ensures
        latest_idx(cs, tid) == i,
    decreases cs.len(),
{
    if i < cs.len() - 1 {
        assert(cs.drop_last()[i].task_id == tid);
        lemma_latest_idx_unique(cs.drop_last(), tid, i);
    }
}

/// Rows that rebuild into a ledger: ids are the row positions counted
/// from 1, task names never repeat, and every changeset references a
/// task row.
pub open spec fn rows_valid(tasks: Seq<Task>, changesets: Seq<Changeset>) -> bool {
    &&& forall|i: int| 0 <= i < tasks.len() ==> (#[trigger] tasks[i]).task_id as int == i + 1
    &&& forall|i: int, j: int| 0 <= i < j < tasks.len() ==> tasks[i].name@ != tasks[j].name@
    &&& forall|i: int|
        0 <= i < changesets.len() ==> (#[trigger] changesets[i]).changeset_id as int == i + 1
    &&& forall|i: int|
        0 <= i < changesets.len() ==> 1 <= (#[trigger] changesets[i]).task_id as int
            <= tasks.len()
}

/// The ledger: task rows and changeset rows, ids in insertion order.
pub struct VelesDAO {
    tasks: Vec<Task>,
    changesets: Vec<Changeset>,
}

impl VelesDAO {
    /// The task rows, in insertion order.
    pub closed spec fn task_rows(&self) -> Seq<Task> {
        self.tasks@
    }

    /// The changeset rows, in insertion order.
    pub closed spec fn changeset_rows(&self) -> Seq<Changeset> {
        self.changesets@
    }

    /// Ledger invariant: ids are the row positions counted from 1, task
    /// names never repeat, and every changeset references a task row.
    pub closed spec fn wf(&self) -> bool {
        &&& forall|i: int|
            0 <= i < self.tasks@.len() ==> (#[trigger] self.tasks@[i]).task_id as int == i + 1
        &&& forall|i: int, j: int|
            0 <= i < j < self.tasks@.len() ==> self.tasks@[i].name@ != self.tasks@[j].name@
        &&& forall|i: int|
            0 <= i < self.changesets@.len() ==> (#[trigger] self.changesets@[i]).changeset_id
                as int == i + 1
        &&& forall|i: int|
            0 <= i < self.changesets@.len() ==> 1 <= (#[trigger] self.changesets@[i]).task_id
                as int <= self.tasks@.len()
    }

    /// An empty ledger.
    pub fn new() -> (r: Result<VelesDAO, VelesError>)
        ensures
            r is Ok,
            r matches Ok(d) ==> d.wf() && d.task_rows().len() == 0 && d.changeset_rows().len()
                == 0,
    {
        Ok(VelesDAO { tasks: Vec::new(), changesets: Vec::new() })
    }

    /// Rebuilds a ledger from stored rows, checking every invariant:
    /// ids must be the row positions counted from 1, task names must
    /// not repeat, and every changeset must reference a task row. Rows
    /// that break an invariant are a ledger error.
    pub fn with_rows(tasks: Vec<Task>, changesets: Vec<Changeset>) -> (r: Result<
        VelesDAO,
        VelesError,
    >)
        ensures
            r is Ok <==> rows_valid(tasks@, changesets@),
            r matches Ok(d) ==> d.wf() && d.task_rows() == tasks@ && d.changeset_rows()
                == changesets@,
            r matches Err(e) ==> e == VelesError::DBError,
    {
        let n: usize = tasks.len();
        let mut i: usize = 0;
        while i < n
            invariant
                n == tasks@.len(),
                i <= n,
                forall|a: int|
                    0 <= a < i ==> (#[trigger] tasks@[a]).task_id as int == a + 1,
                forall|a: int, b: int| 0 <= a < b < i ==> tasks@[a].name@ != tasks@[b].name@,
            decreases n - i,
        {
            if tasks[i].task_id < 0 || tasks[i].task_id as usize != i + 1 {
                proof {
                    assert(tasks@[i as int].task_id as int != i + 1);
                }
                return Err(VelesError::DBError);
            }
            let mut j: usize = 0;
            while j < i
                invariant
                    j <= i < n,
                    n == tasks@.len(),
                    forall|b: int| 0 <= b < j ==> tasks@[b].name@ != tasks@[i as int].name@,
                decreases i - j,
            {
                if tasks[j].name.eq(&tasks[i].name) {
                    proof {
                        assert(tasks@[j as int].name@ == tasks@[i as int].name@);
                    }
                    return Err(VelesError::DBError);
                }
                j = j + 1;
            }
            i = i + 1;
        }
        let m: usize = changesets.len();
        let mut k: usize = 0;
        while k < m
            invariant
                m == changesets@.len(),
                n == tasks@.len(),
                k <= m,
                forall|a: int|
                    0 <= a < k ==> (#[trigger] changesets@[a]).changeset_id as int == a + 1,
                forall|a: int|
                    0 <= a < k ==> 1 <= (#[trigger] changesets@[a]).task_id as int <= n,
            decreases m - k,
        {
            if changesets[k].changeset_id < 0 || changesets[k].changeset_id as usize != k + 1 {
                proof {
                    assert(changesets@[k as int].changeset_id as int != k + 1);
                }
                return Err(VelesError::DBError);
            }
            if changesets[k].task_id < 1 || changesets[k].task_id as usize > n {
                proof {
                    assert(!(1 <= changesets@[k as int].task_id as int <= n));
                }
                return Err(VelesError::DBError);
            }
            k = k + 1;
        }
        Ok(VelesDAO { tasks, changesets })
    }

    /// Inserts a task by unique name; a second insert of the same name
    /// changes nothing.
    pub fn insert_task(&mut self, name: &str) -> (r: Result<(), VelesError>)
        requires
            old(self).wf(),
            old(self).task_rows().len() < i32::MAX as int,
        ensures
            r is Ok,
            final(self).wf(),
            final(self).changeset_rows() == old(self).changeset_rows(),
            find_task_idx(old(self).task_rows(), name@) >= 0 ==> *final(self) == *old(self),
            find_task_idx(old(self).task_rows(), name@) < 0 ==> {
                &&& final(self).task_rows().len() == old(self).task_rows().len() + 1
                &&& final(self).task_rows().take(old(self).task_rows().len() as int) == old(
                    self,
                ).task_rows()
                &&& final(self).task_rows().last().name@ == name@
                &&& final(self).task_rows().last().task_id as int == old(self).task_rows().len()
                    + 1
            },
    {
        let name_owned: String = name.to_owned();
        proof {
            lemma_find_task_idx_spec(self.tasks@, name@);
        }
        let n: usize = self.tasks.len();
        let mut i: usize = 0;
        while i < n
            invariant
                n == self.tasks@.len(),
                i <= n,
                name_owned@ == name@,
                *self == *old(self),
                old(self).wf(),
                forall|j: int| 0 <= j < i ==> self.tasks@[j].name@ != name@,
            decreases n - i,
        {
            if self.tasks[i].name.eq(&name_owned) {
                proof {
                    lemma_find_task_idx_spec(self.tasks@, name@);
                }
                return Ok(());
            }
            i = i + 1;
        }
        let ghost t0 = self.tasks@;
        let tid: i32 = (n as i32) + 1;
        self.tasks.push(Task { task_id: tid, name: name_owned });
        proof {
            lemma_find_task_idx_spec(t0, name@);
            assert(self.tasks@.take(t0.len() as int) =~= t0);
            assert forall|a: int, b: int|
                0 <= a < b < self.tasks@.len() implies self.tasks@[a].name@
                != self.tasks@[b].name@ by {
                if b < t0.len() {
                    assert(self.tasks@[a] == t0[a] && self.tasks@[b] == t0[b]);
                } else {
                    assert(self.tasks@[a] == t0[a]);
                }
            }
        }
        Ok(())
    }

    /// Looks a task up by name. Succeeds exactly when the name exists.
    pub fn get_task(&self, name: &str) -> (r: Result<Task, VelesError>)
        requires
            self.wf(),
        ensures
            r is Ok <==> find_task_idx(self.task_rows(), name@) >= 0,
            r matches Ok(t) ==> t == self.task_rows()[find_task_idx(self.task_rows(), name@)]
                && t.name@ == name@,
            r matches Err(e) ==> e == VelesError::NotFound,
    {
        let name_owned: String = name.to_owned();
        let n: usize = self.tasks.len();
        let mut i: usize = 0;
        while i < n
            invariant
                n == self.tasks@.len(),
                i <= n,
                name_owned@ == name@,
                self.wf(),
                forall|j: int| 0 <= j < i ==> self.tasks@[j].name@ != name@,
            decreases n - i,
        {
            if self.tasks[i].name.eq(&name_owned) {
                proof {
                    lemma_find_task_idx_first(self.tasks@, name@, i as int);
                }
                return Ok(self.tasks[i].clone());
            }
            i = i + 1;
        }
        proof {
            lemma_find_task_idx_spec(self.tasks@, name@);
        }
        Err(VelesError::NotFound)
    }

    /// Returns the newest changeset of the task, or none when the task
    /// has no changesets yet, which is not an error.
    pub fn get_latest_changeset(&self, task_id: i32) -> (r: Result<
        Option<Changeset>,
        VelesError,
    >)
        requires
            self.wf(),
        ensures
            r is Ok,
            r matches Ok(o) ==> {
                &&& latest_idx(self.changeset_rows(), task_id) < 0 ==> o is None
                &&& latest_idx(self.changeset_rows(), task_id) >= 0 ==> (o matches Some(c) && c
                    == self.changeset_rows()[latest_idx(self.changeset_rows(), task_id)])
            },
    {
        let mut i: usize = self.changesets.len();
        while i > 0
            invariant
                i <= self.changesets@.len(),
                forall|j: int| i <= j < self.changesets@.len() ==> self.changesets@[j].task_id
                    != task_id,
            decreases i,
        {
            i = i - 1;
            if self.changesets[i].task_id == task_id {
                proof {
                    lemma_latest_idx_unique(self.changesets@, task_id, i as int);
                }
                return Ok(Some(self.changesets[i].clone()));
            }
        }
        proof {
            lemma_latest_idx_spec(self.changesets@, task_id);
        }
        Ok(None)
    }

    /// Records a changeset: the ledger assigns the next row id. Fails
    /// with a ledger error exactly when the referenced task is missing.
    pub fn insert_changeset(&mut self, changeset: &Changeset) -> (r: Result<i64, VelesError>)
        requires
            old(self).wf(),
            old(self).changeset_rows().len() < i32::MAX as int,
        ensures
            r is Ok <==> 1 <= changeset.task_id as int <= old(self).task_rows().len(),
            r matches Ok(id) ==> {
                &&& id == old(self).changeset_rows().len() + 1
                &&& final(self).wf()
                &&& final(self).task_rows() == old(self).task_rows()
                &&& final(self).changeset_rows().len() == old(self).changeset_rows().len() + 1
                &&& final(self).changeset_rows().take(old(self).changeset_rows().len() as int)
                    == old(self).changeset_rows()
                &&& ({
                    let c = final(self).changeset_rows().last();
                    &&& c.changeset_id as int == id
                    &&& c.previous_changeset == changeset.previous_changeset
                    &&& c.task_id == changeset.task_id
                    &&& c.user@ == changeset.user@
                    &&& c.description@ == changeset.description@
                    &&& c.tree_hash@ == changeset.tree_hash@
                })
            },
            r matches Err(e) ==> e == VelesError::DBError && *final(self) == *old(self),
    {
        let n: usize = self.tasks.len();
        if changeset.task_id < 1 || changeset.task_id as usize > n {
            return Err(VelesError::DBError);
        }
        let m: usize = self.changesets.len();
        let ghost c0 = self.changesets@;
        let row = Changeset {
            changeset_id: (m as i32) + 1,
            previous_changeset: changeset.previous_changeset,
            task_id: changeset.task_id,
            user: changeset.user.clone(),
            description: changeset.description.clone(),
            tree_hash: changeset.tree_hash.clone(),
        };
        self.changesets.push(row);
        proof {
            assert(self.changesets@.take(c0.len() as int) =~= c0);
        }
        Ok((m as i64) + 1)
    }

    /// Lists every changeset in insertion order: id, author and
    /// description, with tree hash and lineage omitted.
    pub fn get_changesets(&self) -> (r: Result<Vec<VelesChange>, VelesError>)
        requires
            self.wf(),
        ensures
            r is Ok,
            r matches Ok(v) ==> v@.len() == self.changeset_rows().len() && forall|i: int|
                0 <= i < v@.len() ==> {
                    &&& (#[trigger] v@[i]).id as int == self.changeset_rows()[i].changeset_id
                        as int
                    &&& v@[i].user@ == self.changeset_rows()[i].user@
                    &&& v@[i].description@ == self.changeset_rows()[i].description@
                },
    {
        let n: usize = self.changesets.len();
        let mut out: Vec<VelesChange> = Vec::new();
        let mut i: usize = 0;
        while i < n
            invariant
                n == self.changesets@.len(),
                i <= n,
                self.wf(),
                out@.len() == i,
                forall|j: int|
                    0 <= j < i ==> {
                        &&& (#[trigger] out@[j]).id as int == self.changesets@[j].changeset_id
                            as int
                        &&& out@[j].user@ == self.changesets@[j].user@
                        &&& out@[j].description@ == self.changesets@[j].description@
                    },
            decreases n - i,
        {
            let c = &self.changesets[i];
            out.push(
                VelesChange {
                    id: c.changeset_id as u32,
                    user: c.user.clone(),
                    description: c.description.clone(),
                },
            );
            i = i + 1;
        }
        Ok(out)
    }
}

/// The first matching task is the one `find_task_idx` names.
proof fn lemma_find_task_idx_first(tasks: Seq<Task>, name: Seq<char>, i: int)
    requires
        0 <= i < tasks.len(),
        tasks[i].name@ == name,
        forall|j: int| 0 <= j < i ==> tasks[j].name@ != name,
    ensures
        find_task_idx(tasks, name) == i,
    decreases tasks.len(),
{
    if i > 0 {
        assert forall|j: int| 0 <= j < i - 1 implies tasks.drop_first()[j].name@ != name by {
            assert(tasks[j + 1].name@ != name);
        }
        assert(tasks.drop_first()[i - 1].name@ == name);
        lemma_find_task_idx_first(tasks.drop_first(), name, i - 1);
    }
}

/// Changeset chaining: a changeset recorded on top of another one for
/// the same task points back at it: its parent pointer is exactly the
/// id the ledger assigned to its predecessor.
pub proof fn lemma_changeset_chaining(cs0: Seq<Changeset>, c1: Changeset, c2: Changeset, tid: i32)
    requires
        c1.task_id == tid,
        c1.changeset_id as int == cs0.len() + 1,
        c2.previous_changeset as int == latest_id(cs0.push(c1), tid),
    ensures
        c2.previous_changeset == c1.changeset_id,
{
    assert(cs0.push(c1).last() == c1);
    assert(latest_idx(cs0.push(c1), tid) == cs0.len());
}

/// A tree object a submit stored reads back as exactly the listing the
/// submit merged: decoding its bytes and parsing the text restores the
/// listing. This is what lets a later submit build on an earlier one.
pub proof fn lemma_tree_object_readback(merged: Seq<(Seq<char>, Seq<char>)>)
    requires
        lines_wf(merged),
    ensures
        parse_tree_spec(decode_utf8(encode_utf8(tree_text(merged)))) == Some(merged),
{
    lemma_tree_text_roundtrip(merged);
}

/// The base file listing a submit starts from: empty when the task has
/// no changeset yet, else the parsed tree object of the latest one.
/// Nothing when that object is missing or does not parse.
pub open spec fn base_lines_of(
    store_v: Map<Seq<char>, Seq<u8>>,
    cs: Seq<Changeset>,
    tid: i32,
) -> Option<Seq<(Seq<char>, Seq<char>)>> {
    let li = latest_idx(cs, tid);
    if li < 0 {
        Some(Seq::empty())
    } else {
        let h = cs[li].tree_hash@;
        if store_v.contains_key(h) && valid_utf8(store_v[h]) {
            parse_tree_spec(decode_utf8(store_v[h]))
        } else {
            None
        }
    }
}

/// The revision store: the ledger plus the submit logic over it.
pub struct VelesRepo {
    dao: VelesDAO,
}

impl VelesRepo {
    /// The ledger's task rows.
    pub closed spec fn task_rows(&self) -> Seq<Task> {
        self.dao.task_rows()
    }

    /// The ledger's changeset rows.
    pub closed spec fn changeset_rows(&self) -> Seq<Changeset> {
        self.dao.changeset_rows()
    }

    /// The ledger invariant holds.
    pub closed spec fn wf(&self) -> bool {
        self.dao.wf()
    }

    /// A fresh revision store whose ledger holds exactly the guaranteed
    /// task named `main` and no changesets.
    pub fn new() -> (r: Result<VelesRepo, VelesError>)
        ensures
            r is Ok,
            r matches Ok(repo) ==> {
                &&& repo.wf()
                &&& repo.task_rows().len() == 1
                &&& repo.task_rows()[0].name@ == "main"@
                &&& repo.task_rows()[0].task_id == 1
                &&& repo.changeset_rows().len() == 0
            },
    {
        let mut dao = match VelesDAO::new() {
            Result::Ok(d) => d,
            Result::Err(e) => {
                return Err(e);
            },
        };
        // Guarantee the main task always exists.
        let res = dao.insert_task("main");
        proof {
            assert(res is Ok);
        }
        Ok(VelesRepo { dao })
    }

    /// A revision store over an existing ledger, guaranteeing the
    /// `main` task exists: the task rows are kept as they are, with one
    /// `main` row appended only when none was there.
    pub fn open(dao: VelesDAO) -> (r: Result<VelesRepo, VelesError>)
        requires
            dao.wf(),
            dao.task_rows().len() < i32::MAX as int,
        ensures
            r is Ok,
            r matches Ok(repo) ==> repo.wf() && find_task_idx(repo.task_rows(), "main"@) >= 0
                && repo.changeset_rows() == dao.changeset_rows(),
            r matches Ok(repo) ==> (find_task_idx(dao.task_rows(), "main"@) >= 0
                ==> repo.task_rows() == dao.task_rows()),
            r matches Ok(repo) ==> (find_task_idx(dao.task_rows(), "main"@) < 0 ==> {
                &&& repo.task_rows().len() == dao.task_rows().len() + 1
                &&& repo.task_rows().take(dao.task_rows().len() as int) == dao.task_rows()
                &&& repo.task_rows().last().name@ == "main"@
            }),
    {
        let mut dao = dao;
        let res = dao.insert_task("main");
        proof {
            assert(res is Ok);
            lemma_find_task_idx_spec(dao.task_rows(), "main"@);
            if find_task_idx(dao.task_rows(), "main"@) < 0 {
                assert(dao.task_rows().last().name@ == "main"@);
            }
        }
        Ok(VelesRepo { dao })
    }

    /// Creates a task by unique name; creating it again changes nothing.
    pub fn create_task(&mut self, name: &str) -> (r: Result<(), VelesError>)
        requires
            old(self).wf(),
            old(self).task_rows().len() < i32::MAX as int,
        ensures
            r is Ok,
            final(self).wf(),
            final(self).changeset_rows() == old(self).changeset_rows(),
            find_task_idx(old(self).task_rows(), name@) >= 0 ==> *final(self) == *old(self),
            find_task_idx(old(self).task_rows(), name@) < 0 ==> {
                &&& final(self).task_rows().len() == old(self).task_rows().len() + 1
                &&& final(self).task_rows().take(old(self).task_rows().len() as int) == old(
                    self,
                ).task_rows()
                &&& final(self).task_rows().last().name@ == name@
            },
    {
        self.dao.insert_task(name)
    }

    /// Lists every changeset in insertion order.
    pub fn changesets(&self) -> (r: Result<Vec<VelesChange>, VelesError>)
        requires
            self.wf(),
        ensures
            r is Ok,
            r matches Ok(v) ==> v@.len() == self.changeset_rows().len() && forall|i: int|
                0 <= i < v@.len() ==> {
                    &&& (#[trigger] v@[i]).id as int == self.changeset_rows()[i].changeset_id
                        as int
                    &&& v@[i].user@ == self.changeset_rows()[i].user@
                    &&& v@[i].description@ == self.changeset_rows()[i].description@
                },
    {
        self.dao.get_changesets()
    }

    /// A fresh object writer.
    pub fn new_object(&self) -> (r: Result<Object, VelesError>)
        ensures
            r is Ok,
            r matches Ok(o) ==> o@.len() == 0,
    {
        Object::new()
    }

    /// The newest changeset of the `main` task, or none when it has no
    /// changesets yet. An error when the `main` task is missing.
    pub fn latest_changeset(&self) -> (r: Result<Option<Changeset>, VelesError>)
        requires
            self.wf(),
        ensures
            r is Ok <==> find_task_idx(self.task_rows(), "main"@) >= 0,
            r matches Ok(o) ==> ({
                let tid = self.task_rows()[find_task_idx(self.task_rows(), "main"@)].task_id;
                &&& latest_idx(self.changeset_rows(), tid) < 0 ==> o is None
                &&& latest_idx(self.changeset_rows(), tid) >= 0 ==> (o matches Some(c) && c
                    == self.changeset_rows()[latest_idx(self.changeset_rows(), tid)])
            }),
            r matches Err(e) ==> e == VelesError::NotFound,
    {
        let task = match self.dao.get_task("main") {
            Result::Ok(t) => t,
            Result::Err(_) => {
                return Err(VelesError::NotFound);
            },
        };
        self.dao.get_latest_changeset(task.task_id)
    }

    /// Submits a changeset to the `main` task: loads the latest tree of
    /// the task, overlays the changes (later entries win per path),
    /// stores the merged listing as a new tree object, and records a
    /// changeset row pointing at its predecessor. Returns the new row
    /// id. Fails only when the `main` task is missing, or when the
    /// previous tree object is missing or malformed.
    pub fn submit(
        &mut self,
        store: &mut ObjectStore,
        owner: &str,
        description: &str,
        changes: &Vec<FileChange>,
    ) -> (r: Result<i64, VelesError>)
        requires
            old(self).wf(),
            old(store).wf(),
            old(self).changeset_rows().len() < i32::MAX as int,
            lines_wf(changes_view(changes@)),
        ensures
            r is Ok <==> (find_task_idx(old(self).task_rows(), "main"@) >= 0 && ({
                let tid = old(self).task_rows()[find_task_idx(old(self).task_rows(), "main"@)]
                    .task_id;
                base_lines_of(old(store)@, old(self).changeset_rows(), tid) is Some
            })),
            r matches Ok(id) ==> ({
                let tid = old(self).task_rows()[find_task_idx(old(self).task_rows(), "main"@)]
                    .task_id;
                let base = base_lines_of(old(store)@, old(self).changeset_rows(), tid)->Some_0;
                let merged = merge_spec(base, changes_view(changes@));
                let content = encode_utf8(tree_text(merged));
                &&& id == old(self).changeset_rows().len() + 1
                &&& final(self).wf()
                &&& final(store).wf()
                &&& final(self).task_rows() == old(self).task_rows()
                &&& final(self).changeset_rows().len() == old(self).changeset_rows().len() + 1
                &&& final(self).changeset_rows().take(
                    old(self).changeset_rows().len() as int,
                ) == old(self).changeset_rows()
                &&& ({
                    let c = final(self).changeset_rows().last();
                    &&& c.changeset_id as int == id
                    &&& c.previous_changeset as int == latest_id(
                        old(self).changeset_rows(),
                        tid,
                    )
                    &&& c.task_id == tid
                    &&& c.user@ == owner@
                    &&& c.description@ == description@
                    &&& c.tree_hash@ == object_id(content)
                })
                &&& final(store)@ == store_after_put(old(store)@, content)
            }),
            r matches Err(e) ==> *final(self) == *old(self) && *final(store) == *old(store) && (e
                == VelesError::NotFound || e == VelesError::SerializationError),
    {
        // Get the contextual information we need.
        let task = match self.dao.get_task("main") {
            Result::Ok(t) => t,
            Result::Err(_) => {
                return Err(VelesError::NotFound);
            },
        };
        let ghost tid = task.task_id;
        let latest = match self.dao.get_latest_changeset(task.task_id) {
            Result::Ok(o) => o,
            Result::Err(_) => {
                return Err(VelesError::NotFound);
            },
        };
        proof {
            lemma_latest_idx_spec(self.dao.changeset_rows(), tid);
        }
        // Read in the tree data if it exists.
        let mut merged: Vec<TreeLine> = match latest {
            Option::Some(ref latest_cs) => {
                let bytes = match store.get_object(latest_cs.tree_hash.as_str()) {
                    Result::Ok(b) => b,
                    Result::Err(_) => {
                        return Err(VelesError::NotFound);
                    },
                };
                let text = match bytes_to_string(bytes) {
                    Option::Some(t) => t,
                    Option::None => {
                        return Err(VelesError::SerializationError);
                    },
                };
                match parse_tree_lines(text.as_str()) {
                    Result::Ok(lines) => lines,
                    Result::Err(e) => {
                        return Err(e);
                    },
                }
            },
            Option::None => Vec::new(),
        };
        let ghost base = base_lines_of(store@, self.dao.changeset_rows(), tid)->Some_0;
        proof {
            assert(lines_view(merged@) =~= base);
        }
        // Now overlay the changeset data, later entries winning.
        let n: usize = changes.len();
        let mut i: usize = 0;
        while i < n
            invariant
                n == changes@.len(),
                i <= n,
                lines_view(merged@) == merge_spec(base, changes_view(changes@).take(i as int)),
            decreases n - i,
        {
            upsert_line(&mut merged, changes[i].hash.clone(), changes[i].path.clone());
            proof {
                let cv = changes_view(changes@);
                assert(cv.take(i + 1).drop_last() =~= cv.take(i as int));
                assert(cv.take(i + 1).last() == cv[i as int]);
            }
            i = i + 1;
        }
        proof {
            assert(changes_view(changes@).take(n as int) =~= changes_view(changes@));
        }
        // Create the tree object.
        let tree_contents: String = tree_lines_to_text(&merged);
        let tree_hash: String = store.put_object(tree_contents.as_str().as_bytes());
        // Finally build the new changeset and record it.
        let previous_changeset: i32 = match latest {
            Option::Some(ref latest_cs) => latest_cs.changeset_id,
            Option::None => 0,
        };
        let row = Changeset {
            changeset_id: -1,
            previous_changeset,
            task_id: task.task_id,
            user: owner.to_owned(),
            description: description.to_owned(),
            tree_hash,
        };
        proof {
            let tidx = find_task_idx(old(self).task_rows(), "main"@);
            lemma_find_task_idx_spec(old(self).task_rows(), "main"@);
            assert(task.task_id as int == tidx + 1);
            assert(1 <= row.task_id as int <= self.dao.task_rows().len());
        }
        let res = self.dao.insert_changeset(&row);
        proof {
            assert(res is Ok);
        }
        res
    }
}

} // verus!
