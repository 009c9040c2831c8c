//! Client-side working-copy state: the per-file index, user
//! configuration, and the client operations over them.
//!
//! File reading and writing stay with the caller; these types hold the
//! state and the rules, so every transition is checked.

use vstd::prelude::*;

verus! {

use crate::error::VelesError;
use crate::revision::{VelesChange, VelesRepo};

/// The tracking state of one working-copy file.
#[derive(Clone, Copy, Debug, PartialEq, Eq, Structural)]
pub enum IndexState {
    Untracked,
    Versioned,
    Added,
}

/// User configuration.
pub struct User {
    pub name: Option<String>,
}

/// The whole configuration file.
pub struct VelesConfig {
    pub user: User,
}

impl Default for VelesConfig {
    /// The configuration before any was saved: no user name.
    fn default() -> (r: VelesConfig)
        ensures
            r.user.name is None,
    {
        VelesConfig { user: User { name: None } }
    }
}

/// What a walk finds out about one file when held against the index.
#[derive(Clone, Copy, Debug, PartialEq, Eq, Structural)]
pub enum FileProbe {
    New,
    Modified,
    Unchanged,
}

/// One indexed file: its path, its timestamps, its tracking state.
pub struct VelesIndexMeta {
    pub path: String,
    pub created: u64,
    pub modified: u64,
    pub state: IndexState,
}

/// The working-copy index: every known file with its state.
pub struct VelesIndex {
    pub timestamp: u64,
    pub entries: Vec<VelesIndexMeta>,
}

impl VelesIndex {
    /// An empty index stamped with the time it was made.
    pub fn new(timestamp: u64) -> (r: VelesIndex)
        ensures
            r.timestamp == timestamp,
            r.entries@.len() == 0,
    {
        VelesIndex { timestamp, entries: Vec::new() }
    }

    /// Notes a walked file: a path never seen before joins the index as
    /// untracked; a known path leaves the index unchanged.
    pub fn refresh(&mut self, path: String, created: u64, modified: u64)
        ensures
            (exists|i: int|
                0 <= i < old(self).entries@.len() && (#[trigger] old(self).entries@[i]).path@
                    == path@) ==> *final(self) == *old(self),
            !(exists|i: int|
                0 <= i < old(self).entries@.len() && (#[trigger] old(self).entries@[i]).path@
                    == path@) ==> {
                &&& final(self).timestamp == old(self).timestamp
                &&& final(self).entries@.len() == old(self).entries@.len() + 1
                &&& final(self).entries@.take(old(self).entries@.len() as int) == old(
                    self,
                ).entries@
                &&& final(self).entries@.last().path@ == path@
                &&& final(self).entries@.last().created == created
                &&& final(self).entries@.last().modified == modified
                &&& final(self).entries@.last().state == IndexState::Untracked
            },
    {
        let n: usize = self.entries.len();
        let mut i: usize = 0;
        while i < n
            invariant
                n == self.entries@.len(),
                i <= n,
                *self == *old(self),
                forall|j: int| 0 <= j < i ==> (#[trigger] self.entries@[j]).path@ != path@,
            decreases n - i,
        {
            if self.entries[i].path.eq(&path) {
                return ;
            }
            i = i + 1;
        }
        let ghost e0 = self.entries@;
        self.entries.push(
            VelesIndexMeta { path, created, modified, state: IndexState::Untracked },
        );
        proof {
            assert(self.entries@.take(e0.len() as int) =~= e0);
        }
    }

    /// Forgets every pending add: each entry's state goes back to
    /// untracked, nothing else changes.
    pub fn reset(&mut self)
        ensures
            final(self).timestamp == old(self).timestamp,
            final(self).entries@.len() == old(self).entries@.len(),
            forall|i: int|
                0 <= i < old(self).entries@.len() ==> {
                    &&& (#[trigger] final(self).entries@[i]).path == old(self).entries@[i].path
                    &&& final(self).entries@[i].created == old(self).entries@[i].created
                    &&& final(self).entries@[i].modified == old(self).entries@[i].modified
                    &&& final(self).entries@[i].state == IndexState::Untracked
                },
    {
        let n: usize = self.entries.len();
        let mut i: usize = 0;
        while i < n
            invariant
                n == self.entries@.len(),
                self.timestamp == old(self).timestamp,
                i <= n,
                forall|j: int|
                    i <= j < n ==> (#[trigger] self.entries@[j]) == old(self).entries@[j],
                forall|j: int|
                    0 <= j < i ==> {
                        &&& (#[trigger] self.entries@[j]).path == old(self).entries@[j].path
                        &&& self.entries@[j].created == old(self).entries@[j].created
                        &&& self.entries@[j].modified == old(self).entries@[j].modified
                        &&& self.entries@[j].state == IndexState::Untracked
                    },
            decreases n - i,
        {
            self.entries[i].state = IndexState::Untracked;
            i = i + 1;
        }
    }

    /// Compares a walked file against the index: never seen, seen with
    /// another modification time, or unchanged.
    pub fn probe(&self, path: &String, modified: u64) -> (r: FileProbe)
        ensures
            first_meta(self.entries@, path@) < 0 ==> r == FileProbe::New,
            first_meta(self.entries@, path@) >= 0 ==> r == (if self.entries@[first_meta(
                self.entries@,
                path@,
            )].modified == modified {
                FileProbe::Unchanged
            } else {
                FileProbe::Modified
            }),
    {
        let n: usize = self.entries.len();
        let mut i: usize = 0;
        while i < n
            invariant
                n == self.entries@.len(),
                i <= n,
                forall|j: int| 0 <= j < i ==> (#[trigger] self.entries@[j]).path@ != path@,
            decreases n - i,
        {
            if self.entries[i].path.eq(path) {
                proof {
                    lemma_first_meta_at(self.entries@, path@, i as int);
                }
                if self.entries[i].modified == modified {
                    return FileProbe::Unchanged;
                } else {
                    return FileProbe::Modified;
                }
            }
            i = i + 1;
        }
        proof {
            lemma_first_meta_spec(self.entries@, path@);
            if first_meta(self.entries@, path@) >= 0 {
                assert(self.entries@[first_meta(self.entries@, path@)].path@ == path@);
            }
        }
        FileProbe::New
    }

    /// The paths whose entries are marked as added, in index order.
    pub fn added_paths(&self) -> (r: Vec<String>)
        ensures
            paths_of(r@) == added_of(self.entries@),
    {
        let n: usize = self.entries.len();
        let mut out: Vec<String> = Vec::new();
        proof {
            assert(self.entries@.take(0) =~= Seq::<VelesIndexMeta>::empty());
            assert(paths_of(out@) =~= added_of(self.entries@.take(0)));
        }
        let mut i: usize = 0;
        while i < n
            invariant
                n == self.entries@.len(),
                i <= n,
                paths_of(out@) == added_of(self.entries@.take(i as int)),
            decreases n - i,
        {
            proof {
                assert(self.entries@.take(i + 1).drop_last() =~= self.entries@.take(i as int));
                assert(self.entries@.take(i + 1).last() == self.entries@[i as int]);
            }
            match self.entries[i].state {
                IndexState::Added => {
                    out.push(self.entries[i].path.clone());
                    proof {
                        assert(paths_of(out@) =~= added_of(self.entries@.take(i + 1)));
                    }
                },
                _ => {
                    proof {
                        assert(paths_of(out@) =~= added_of(self.entries@.take(i + 1)));
                    }
                },
            }
            i = i + 1;
        }
        proof {
            assert(self.entries@.take(n as int) =~= self.entries@);
        }
        out
    }
}

/// The character sequences of a list of paths.
pub open spec fn paths_of(s: Seq<String>) -> Seq<Seq<char>> {
    Seq::new(s.len(), |i: int| s[i]@)
}

/// The paths of the entries marked as added, in order.
pub open spec fn added_of(entries: Seq<VelesIndexMeta>) -> Seq<Seq<char>>
    decreases entries.len(),
{
    if entries.len() == 0 {
        Seq::empty()
    } else {
        added_of(entries.drop_last()) + if entries.last().state == IndexState::Added {
            seq![entries.last().path@]
        } else {
            Seq::empty()
        }
    }
}

/// One line of the change listing: a file and its tracking state.
pub struct ChangeListEntry {
    pub state: IndexState,
    pub path: String,
}

/// The `(path, state)` pairs of a change listing.
pub open spec fn change_list_view(s: Seq<ChangeListEntry>) -> Seq<(Seq<char>, IndexState)> {
    Seq::new(s.len(), |i: int| (s[i].path@, s[i].state))
}

/// The listing the walked paths produce: each walked path that the
/// index knows, with its state, in walk order.
pub open spec fn changes_spec(
    entries: Seq<VelesIndexMeta>,
    paths: Seq<String>,
) -> Seq<(Seq<char>, IndexState)>
    decreases paths.len(),
{
    if paths.len() == 0 {
        Seq::empty()
    } else {
        changes_spec(entries, paths.drop_last()) + ({
            let f = first_meta(entries, paths.last()@);
            if f >= 0 {
                seq![(paths.last()@, entries[f].state)]
            } else {
                Seq::empty()
            }
        })
    }
}

/// The first index entry for a path, or `-1`.
pub open spec fn first_meta(entries: Seq<VelesIndexMeta>, path: Seq<char>) -> int
    decreases entries.len(),
{
    if entries.len() == 0 {
        -1
    } else if entries.first().path@ == path {
        0
    } else {
        let r = first_meta(entries.drop_first(), path);
        if r < 0 {
            -1
        } else {
            r + 1
        }
    }
}

/// What `first_meta` returns: the first entry for the path, or `-1`.
proof fn lemma_first_meta_spec(entries: Seq<VelesIndexMeta>, path: Seq<char>)
    ensures
        first_meta(entries, path) < 0 ==> forall|j: int|
            0 <= j < entries.len() ==> entries[j].path@ != path,
        first_meta(entries, path) >= 0 ==> 0 <= first_meta(entries, path) < entries.len()
            && entries[first_meta(entries, path)].path@ == path,
    decreases entries.len(),
{
    if entries.len() > 0 && entries.first().path@ != path {
        lemma_first_meta_spec(entries.drop_first(), path);
        if first_meta(entries.drop_first(), path) < 0 {
            assert forall|j: int| 0 <= j < entries.len() implies entries[j].path@ != path by {
                if j > 0 {
                    assert(entries.drop_first()[j - 1].path@ != path);
                }
            }
        }
    }
}

/// An entry for the path with no earlier one is the first.
proof fn lemma_first_meta_at(entries: Seq<VelesIndexMeta>, path: Seq<char>, i: int)
    requires
        0 <= i < entries.len(),
        entries[i].path@ == path,
        forall|j: int| 0 <= j < i ==> entries[j].path@ != path,
    ensures
        first_meta(entries, path) == i,
    decreases entries.len(),
{
    if i > 0 {
        assert forall|j: int| 0 <= j < i - 1 implies entries.drop_first()[j].path@ != path by {
            assert(entries[j + 1].path@ != path);
        }
        assert(entries.drop_first()[i - 1].path@ == path);
        lemma_first_meta_at(entries.drop_first(), path, i - 1);
    }
}

/// A message of the transport protocol.
pub struct VelesMessage {
    pub command: VelesCommand,
}

/// The commands a transport can carry.
pub enum VelesCommand {
    SubmitStart { owner: String, description: String },
    FileWrite { data: Vec<u8> },
    SubmitFinalize,
}

/// The client: configuration plus the operations of the working copy.
pub struct VelesClient {
    config: VelesConfig,
}

impl VelesClient {
    /// The client's configuration.
    pub closed spec fn cfg(&self) -> VelesConfig {
        self.config
    }

    /// A client over an existing store directory; opening one where no
    /// store was initialized is an error.
    pub fn new(initialized: bool, config: VelesConfig) -> (r: Result<VelesClient, VelesError>)
        ensures
            r is Ok <==> initialized,
            r matches Ok(c) ==> c.cfg() == config,
            r matches Err(e) ==> e == VelesError::NotInitialized,
    {
        if !initialized {
            return Err(VelesError::NotInitialized);
        }
        Ok(VelesClient { config })
    }

    /// Reads the configuration, setting the user name first when one is
    /// given.
    pub fn config(&mut self, username: Option<String>) -> (r: &VelesConfig)
        ensures
            username is Some ==> final(self).cfg().user.name == username,
            username is None ==> *final(self) == *old(self),
            *r == final(self).cfg(),
    {
        if username.is_some() {
            self.config.user.name = username;
        }
        &self.config
    }

    /// Marks a file as added in the index. A file that does not exist
    /// is an error; a file the index does not know changes nothing.
    pub fn add(&self, index: &mut VelesIndex, file_exists: bool, file: &String) -> (r: Result<
        (),
        VelesError,
    >)
        ensures
            r is Ok <==> file_exists,
            r matches Err(e) ==> e == VelesError::NotFound && *final(index) == *old(index),
            r is Ok ==> {
                &&& final(index).timestamp == old(index).timestamp
                &&& final(index).entries@.len() == old(index).entries@.len()
                &&& forall|i: int|
                    0 <= i < old(index).entries@.len() ==> {
                        &&& (#[trigger] final(index).entries@[i]).path == old(
                            index,
                        ).entries@[i].path
                        &&& final(index).entries@[i].created == old(index).entries@[i].created
                        &&& final(index).entries@[i].modified == old(index).entries@[i].modified
                        &&& final(index).entries@[i].state == (if old(index).entries@[i].path@
                            == file@ {
                            IndexState::Added
                        } else {
                            old(index).entries@[i].state
                        })
                    }
            },
    {
        if !file_exists {
            return Err(VelesError::NotFound);
        }
        let n: usize = index.entries.len();
        let mut i: usize = 0;
        while i < n
            invariant
                n == index.entries@.len(),
                i <= n,
                index.timestamp == old(index).timestamp,
                forall|j: int|
                    i <= j < n ==> (#[trigger] index.entries@[j]) == old(index).entries@[j],
                forall|j: int|
                    0 <= j < i ==> {
                        &&& (#[trigger] index.entries@[j]).path == old(index).entries@[j].path
                        &&& index.entries@[j].created == old(index).entries@[j].created
                        &&& index.entries@[j].modified == old(index).entries@[j].modified
                        &&& index.entries@[j].state == (if old(index).entries@[j].path@ == file@ {
                            IndexState::Added
                        } else {
                            old(index).entries@[j].state
                        })
                    },
            decreases n - i,
        {
            if index.entries[i].path.eq(file) {
                index.entries[i].state = IndexState::Added;
            }
            i = i + 1;
        }
        Ok(())
    }

    /// Lists each walked path the index knows, with its state, in walk
    /// order.
    pub fn changes(&self, index: &VelesIndex, paths: &Vec<String>) -> (r: Vec<ChangeListEntry>)
        ensures
            change_list_view(r@) == changes_spec(index.entries@, paths@),
    {
        let n: usize = paths.len();
        let mut out: Vec<ChangeListEntry> = Vec::new();
        proof {
            assert(paths@.take(0) =~= Seq::<String>::empty());
            assert(change_list_view(out@) =~= changes_spec(index.entries@, paths@.take(0)));
        }
        let mut i: usize = 0;
        while i < n
            invariant
                n == paths@.len(),
                i <= n,
                change_list_view(out@) == changes_spec(index.entries@, paths@.take(i as int)),
            decreases n - i,
        {
            proof {
                assert(paths@.take(i + 1).drop_last() =~= paths@.take(i as int));
                assert(paths@.take(i + 1).last() == paths@[i as int]);
                lemma_first_meta_spec(index.entries@, paths@[i as int]@);
            }
            let m: usize = index.entries.len();
            let mut j: usize = 0;
            let mut found: bool = false;
            while j < m && !found
                invariant
                    m == index.entries@.len(),
                    j <= m,
                    0 <= i < paths@.len(),
                    !found ==> forall|k: int|
                        0 <= k < j ==> (#[trigger] index.entries@[k]).path@ != paths@[i as int]@,
                    found ==> j < m && index.entries@[j as int].path@ == paths@[i as int]@
                        && forall|k: int|
                        0 <= k < j ==> (#[trigger] index.entries@[k]).path@ != paths@[i as int]@,
                decreases m - j + (if found { 0int } else { 1int }),
            {
                if index.entries[j].path.eq(&paths[i]) {
                    found = true;
                } else {
                    j = j + 1;
                }
            }
            if found {
                proof {
                    lemma_first_meta_at(index.entries@, paths@[i as int]@, j as int);
                }
                out.push(
                    ChangeListEntry { state: index.entries[j].state, path: paths[i].clone() },
                );
                proof {
                    assert(change_list_view(out@) =~= changes_spec(
                        index.entries@,
                        paths@.take(i + 1),
                    ));
                }
            } else {
                proof {
                    lemma_first_meta_spec(index.entries@, paths@[i as int]@);
                    if first_meta(index.entries@, paths@[i as int]@) >= 0 {
                        assert(index.entries@[first_meta(index.entries@, paths@[i as int]@)].path@
                            == paths@[i as int]@);
                    }
                    assert(change_list_view(out@) =~= changes_spec(
                        index.entries@,
                        paths@.take(i + 1),
                    ));
                }
            }
            i = i + 1;
        }
        proof {
            assert(paths@.take(n as int) =~= paths@);
        }
        out
    }

    /// Synchronizes with the (local, no-op) transport.
    pub fn sync(&self) -> (r: Result<(), VelesError>)
        ensures
            r is Ok,
    {
        Ok(())
    }

    /// Lists every changeset of the repository in insertion order.
    pub fn changesets(&self, repo: &VelesRepo) -> (r: Result<Vec<VelesChange>, VelesError>)
        requires
            repo.wf(),
        ensures
            r is Ok,
            r matches Ok(v) ==> v@.len() == repo.changeset_rows().len() && forall|i: int|
                0 <= i < v@.len() ==> {
                    &&& (#[trigger] v@[i]).id as int == repo.changeset_rows()[i].changeset_id
                        as int
                    &&& v@[i].user@ == repo.changeset_rows()[i].user@
                    &&& v@[i].description@ == repo.changeset_rows()[i].description@
                },
    {
        repo.changesets()
    }
}

} // verus!
