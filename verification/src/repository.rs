//! The repository: content-addressed objects, a staging area that maps each
//! file's path to the hash of its staged content, and the list of commits.
use vstd::prelude::*;
use vstd::slice::slice_to_vec;
use std::path::PathBuf;
use chrono::Utc;
use crate::str_map::{has_key, insert_entry, StrMap};
use crate::paths::{components, join_components, relative_path};
use crate::text::{starts_with_text, str_starts_with};
use crate::utils::{calculate_hash_bytes, content_hash, generate_commit_id, is_uuid_v4_text};

verus! {

#[verifier::external_type_specification]
#[verifier::external_body]
pub struct ExPathBuf(PathBuf);

/// A moment as seconds and nanoseconds since the Unix epoch, in UTC.
#[derive(Clone, Copy, Debug, PartialEq, Eq, Structural)]
pub struct Timestamp {
    pub secs: i64,
    pub nanos: u32,
}

/// Calls `Utc::now` of the `chrono` crate and reads the moment with
/// `timestamp` and `timestamp_subsec_nanos`. Claimed: the seconds are not
/// negative and the nanoseconds stay below one second (`Utc::now` builds the
/// moment from the time since the Unix epoch, and panics before that).
/// Which moment comes back rests on the clock and is not stated.
#[verifier::external_body]
fn current_timestamp() -> (t: Timestamp)
    ensures
        t.secs >= 0,
        t.nanos < 1_000_000_000,
{
    let now = Utc::now();
    Timestamp { secs: now.timestamp(), nanos: now.timestamp_subsec_nanos() }
}

/// A recorded snapshot of the staging area.
pub struct Commit {
    pub id: String,
    pub message: String,
    pub timestamp: Timestamp,
    /// Path of each file to the hash of its content.
    pub files: StrMap<String>,
}

/// A repository rooted at `working_dir`.
pub struct Repository {
    pub commits: Vec<Commit>,
    /// Path of each staged file to the hash of its staged content.
    pub staging: StrMap<String>,
    pub working_dir: PathBuf,
    /// Content of each stored object by its hash.
    pub objects: StrMap<Vec<u8>>,
}

/// A repository as the earlier format stored it, without objects.
pub struct OldRepository {
    pub commits: Vec<Commit>,
    pub staging: StrMap<String>,
    pub working_dir: PathBuf,
}

/// What a repository operation can refuse.
#[derive(Clone, Copy, Debug, PartialEq, Eq, Structural)]
pub enum RepoError {
    NothingToCommit,
    OutsideRepository,
    ObjectNotFound,
    CommitNotFound,
    FirstCommitNotFound,
    SecondCommitNotFound,
    NoCommits,
    InvalidDiffUsage,
}

impl RepoError {
    /// The message that reports the error.
    pub fn message(&self) -> (m: String)
        ensures
            m@ == match self {
                RepoError::NothingToCommit => "Nothing to commit"@,
                RepoError::OutsideRepository => "File is outside repository"@,
                RepoError::ObjectNotFound => "Object not found in repository"@,
                RepoError::CommitNotFound => "Commit not found"@,
                RepoError::FirstCommitNotFound => "First commit not found"@,
                RepoError::SecondCommitNotFound => "Second commit not found"@,
                RepoError::NoCommits => "No commits found in repository"@,
                RepoError::InvalidDiffUsage => "Invalid diff command usage"@,
            },
    {
        match self {
            RepoError::NothingToCommit => String::from_str("Nothing to commit"),
            RepoError::OutsideRepository => String::from_str("File is outside repository"),
            RepoError::ObjectNotFound => String::from_str("Object not found in repository"),
            RepoError::CommitNotFound => String::from_str("Commit not found"),
            RepoError::FirstCommitNotFound => String::from_str("First commit not found"),
            RepoError::SecondCommitNotFound => String::from_str("Second commit not found"),
            RepoError::NoCommits => String::from_str("No commits found in repository"),
            RepoError::InvalidDiffUsage => String::from_str("Invalid diff command usage"),
        }
    }
}

/// Where staging a file at `path` puts it: its path relative to `working_dir`
/// with components joined by `separator`, or `None` where it does not lie
/// under `working_dir`.
pub open spec fn staged_path(path: Seq<String>, working_dir: Seq<String>, separator: char) -> Option<Seq<char>> {
    if components(working_dir).is_prefix_of(components(path)) {
        Some(join_components(components(path).skip(working_dir.len() as int), separator))
    } else {
        None
    }
}

/// A staging area can be committed: it holds at least one file.
pub open spec fn can_commit(staging: Seq<(Seq<char>, Seq<char>)>) -> bool {
    staging.len() > 0
}

/// The staging area that committing `staging` leaves: empty, since the
/// commit takes every staged file.
pub open spec fn staging_after_commit(staging: Seq<(Seq<char>, Seq<char>)>) -> Seq<(Seq<char>, Seq<char>)> {
    Seq::empty()
}

/// The commit at `i` has an identifier that starts with `prefix`.
pub open spec fn id_matches(commits: Seq<Commit>, prefix: Seq<char>, i: int) -> bool {
    starts_with_text(commits[i].id@, prefix)
}

/// Some commit has an identifier that starts with `prefix`.
pub open spec fn any_match(commits: Seq<Commit>, prefix: Seq<char>) -> bool {
    exists|i: int| 0 <= i < commits.len() && #[trigger] id_matches(commits, prefix, i)
}

/// `i` is the first commit whose identifier starts with `prefix`.
pub open spec fn is_first_match(commits: Seq<Commit>, prefix: Seq<char>, i: int) -> bool {
    &&& 0 <= i < commits.len()
    &&& id_matches(commits, prefix, i)
    &&& forall|j: int| 0 <= j < i ==> !#[trigger] id_matches(commits, prefix, j)
}

/// A file that rebuilding the object store reads, if it is there: the file
/// at `path` was recorded with content hash `hash`; with `only_if_missing`
/// it is read only while no object is stored under that hash.
pub struct ObjectRequest {
    pub path: String,
    pub hash: String,
    pub only_if_missing: bool,
}

/// An object request by its texts.
pub open spec fn request_view(r: ObjectRequest) -> (Seq<char>, Seq<char>, bool) {
    (r.path@, r.hash@, r.only_if_missing)
}

/// The requests for `files`, in the order of their entries.
pub open spec fn file_requests(files: Seq<(Seq<char>, Seq<char>)>, only_if_missing: bool) -> Seq<
    (Seq<char>, Seq<char>, bool),
> {
    Seq::new(files.len(), |i: int| (files[i].0, files[i].1, only_if_missing))
}

/// The requests for the files of all `commits`, commit after commit.
pub open spec fn commits_requests(commits: Seq<Commit>) -> Seq<(Seq<char>, Seq<char>, bool)>
    decreases commits.len(),
{
    if commits.len() == 0 {
        Seq::empty()
    } else {
        commits_requests(commits.drop_last()) + file_requests(commits.last().files@, true)
    }
}

/// The requests that rebuilding the object store makes: the staged files
/// first, each read whenever it is there, then the files of every commit,
/// each read only while its hash has no object.
pub open spec fn rebuild_plan(staging: Seq<(Seq<char>, Seq<char>)>, commits: Seq<Commit>) -> Seq<
    (Seq<char>, Seq<char>, bool),
> {
    file_requests(staging, false) + commits_requests(commits)
}

/// Requests by their texts.
pub open spec fn requests_view(reqs: Seq<ObjectRequest>) -> Seq<(Seq<char>, Seq<char>, bool)> {
    Seq::new(reqs.len(), |i: int| request_view(reqs[i]))
}

/// A content that rebuilding read for a request, by its bytes.
pub open spec fn found_view(found: Option<Vec<u8>>) -> Option<Seq<u8>> {
    match found {
        Some(c) => Some(c@),
        None => None,
    }
}

/// The object store after rebuilding meets request `req`, with `found` the
/// content read for it (`None` where nothing was read): the content is
/// stored under the request's hash, unless the request is read only while its
/// hash is missing and the hash is already stored.
pub open spec fn after_rebuild_step(
    objects: Seq<(Seq<char>, Seq<u8>)>,
    req: (Seq<char>, Seq<char>, bool),
    found: Option<Seq<u8>>,
) -> Seq<(Seq<char>, Seq<u8>)> {
    match found {
        Some(c) => if !req.2 || !has_key(objects, req.1) {
            insert_entry(objects, req.1, c)
        } else {
            objects
        },
        None => objects,
    }
}

/// The object store that rebuilding leaves: starting from no objects, each
/// request of `plan` in order, with `found[i]` the content read for request `i`.
pub open spec fn rebuilt_objects(plan: Seq<(Seq<char>, Seq<char>, bool)>, found: Seq<Option<Seq<u8>>>) -> Seq<
    (Seq<char>, Seq<u8>),
>
    decreases plan.len(),
{
    if plan.len() == 0 {
        Seq::empty()
    } else {
        after_rebuild_step(rebuilt_objects(plan.drop_last(), found), plan.last(), found[plan.len() - 1])
    }
}

impl Repository {
    /// An empty repository rooted at `working_dir`.
    pub fn new(working_dir: PathBuf) -> (r: Repository)
        ensures
            r.commits@.len() == 0,
            r.staging@.len() == 0,
            r.objects@.len() == 0,
            r.working_dir == working_dir,
    {
        Repository { commits: Vec::new(), staging: StrMap::new(), working_dir, objects: StrMap::new() }
    }

    /// The repository that a repository of the earlier format becomes, at
    /// `working_dir`: its commits and staging area, and no objects yet.
    pub fn from_old(old: OldRepository, working_dir: PathBuf) -> (r: Repository)
        ensures
            r.commits == old.commits,
            r.staging == old.staging,
            r.objects@.len() == 0,
            r.working_dir == working_dir,
    {
        Repository {
            commits: old.commits,
            staging: old.staging,
            working_dir,
            objects: StrMap::new(),
        }
    }

    /// Stores `content` as an object under its hash, and returns the hash.
    pub fn store_object(&mut self, content: Vec<u8>) -> (hash: String)
        ensures
            hash@ == content_hash(content@),
            final(self).objects@ == insert_entry(old(self).objects@, hash@, content@),
            final(self).commits == old(self).commits,
            final(self).staging == old(self).staging,
            final(self).working_dir == old(self).working_dir,
    {
        let hash = calculate_hash_bytes(content.as_slice());
        self.objects.insert(hash.clone(), content);
        hash
    }

    /// Stages a file: stores its `content` as an object, then, where its
    /// canonical `path` lies under the canonical `working_dir`, records the
    /// relative path (components joined by `separator`, the platform's path
    /// separator) in the staging area with the content's hash. A file
    /// elsewhere is refused, and its object stays stored.
    pub fn stage_file(
        &mut self,
        content: Vec<u8>,
        working_dir: &[String],
        path: &[String],
        separator: char,
    ) -> (r: Result<(), RepoError>)
        ensures
            final(self).objects@ == insert_entry(old(self).objects@, content_hash(content@), content@),
            final(self).commits == old(self).commits,
            final(self).working_dir == old(self).working_dir,
            match staged_path(path@, working_dir@, separator) {
                Some(rel) => r is Ok && final(self).staging@ == insert_entry(
                    old(self).staging@,
                    rel,
                    content_hash(content@),
                ),
                None => r == Err::<(), RepoError>(RepoError::OutsideRepository) && final(self).staging
                    == old(self).staging,
            },
    {
        let hash = self.store_object(content);
        match relative_path(path, working_dir, separator) {
            Some(rel) => {
                self.staging.insert(rel, hash);
                Ok(())
            },
            None => Err(RepoError::OutsideRepository),
        }
    }

    /// Records the staging area as a new commit with `message`, a fresh
    /// identifier and the current time, and empties the staging area.
    /// An empty staging area is refused, and nothing changes.
    pub fn commit(&mut self, message: &str) -> (r: Result<(), RepoError>)
        ensures
            r is Ok <==> can_commit(old(self).staging@),
            r is Err ==> r == Err::<(), RepoError>(RepoError::NothingToCommit) && *final(self) == *old(self),
            r is Ok ==> {
                let c = final(self).commits@.last();
                &&& final(self).commits@.len() == old(self).commits@.len() + 1
                &&& final(self).commits@.drop_last() == old(self).commits@
                &&& is_uuid_v4_text(c.id@)
                &&& c.message@ == message@
                &&& c.timestamp.secs >= 0
                &&& c.timestamp.nanos < 1_000_000_000
                &&& c.files@ == old(self).staging@
                &&& final(self).staging@ == staging_after_commit(old(self).staging@)
                &&& final(self).objects == old(self).objects
                &&& final(self).working_dir == old(self).working_dir
            },
    {
        if self.staging.is_empty() {
            return Err(RepoError::NothingToCommit);
        }
        let mut files = StrMap::new();
        std::mem::swap(&mut files, &mut self.staging);
        let commit = Commit {
            id: generate_commit_id(),
            message: String::from_str(message),
            timestamp: current_timestamp(),
            files,
        };
        self.commits.push(commit);
        proof {
            assert(self.commits@.drop_last() =~= old(self).commits@);
        }
        Ok(())
    }

    /// The position of the first commit whose identifier starts with `commit_id`.
    pub fn find_commit(&self, commit_id: &str) -> (r: Option<usize>)
        ensures
            r is Some <==> any_match(self.commits@, commit_id@),
            r matches Some(i) ==> is_first_match(self.commits@, commit_id@, i as int),
    {
        let n = self.commits.len();
        let mut i: usize = 0;
        while i < n
            invariant
                n == self.commits@.len(),
                i <= n,
                forall|j: int| 0 <= j < i ==> !#[trigger] id_matches(self.commits@, commit_id@, j),
            decreases n - i,
        {
            if str_starts_with(self.commits[i].id.as_str(), commit_id) {
                assert(id_matches(self.commits@, commit_id@, i as int));
                return Some(i);
            }
            i = i + 1;
        }
        None
    }

    /// The first commit whose identifier starts with `commit_id`.
    pub fn get_commit(&self, commit_id: &str) -> (r: Option<&Commit>)
        ensures
            r is Some <==> any_match(self.commits@, commit_id@),
            r matches Some(c) ==> exists|i: int|
                is_first_match(self.commits@, commit_id@, i) && *c == #[trigger] self.commits@[i],
    {
        match self.find_commit(commit_id) {
            Some(i) => Some(&self.commits[i]),
            None => None,
        }
    }

    /// The most recent commit; a repository without commits is refused.
    pub fn last_commit(&self) -> (r: Result<&Commit, RepoError>)
        ensures
            self.commits@.len() == 0 ==> r == Err::<&Commit, RepoError>(RepoError::NoCommits),
            self.commits@.len() > 0 ==> r == Ok::<&Commit, RepoError>(&self.commits@.last()),
    {
        if self.commits.len() == 0 {
            Err(RepoError::NoCommits)
        } else {
            Ok(&self.commits[self.commits.len() - 1])
        }
    }

    /// A copy of the object stored under `hash`.
    pub fn get_object(&self, hash: &str) -> (r: Result<Vec<u8>, RepoError>)
        ensures
            r is Ok <==> self.objects.as_map().contains_key(hash@),
            r matches Ok(v) ==> v@ == self.objects.as_map()[hash@],
            r is Err ==> r == Err::<Vec<u8>, RepoError>(RepoError::ObjectNotFound),
    {
        match self.objects.get(hash) {
            Some(content) => Ok(slice_to_vec(content.as_slice())),
            None => Err(RepoError::ObjectNotFound),
        }
    }

    /// Removes every object.
    pub fn clear_objects(&mut self)
        ensures
            final(self).objects@.len() == 0,
            final(self).commits == old(self).commits,
            final(self).staging == old(self).staging,
            final(self).working_dir == old(self).working_dir,
    {
        self.objects.clear();
    }

    /// Appends to `reqs` one request for each entry of `files`.
    fn push_file_requests(reqs: &mut Vec<ObjectRequest>, files: &StrMap<String>, only_if_missing: bool)
        ensures
            requests_view(final(reqs)@) == requests_view(old(reqs)@) + file_requests(files@, only_if_missing),
    {
        let ghost before = requests_view(reqs@);
        assert(before.len() == reqs@.len());
        let n = files.len();
        let mut k: usize = 0;
        while k < n
            invariant
                n == files@.len(),
                k <= n,
                reqs@.len() == before.len() + k,
                requests_view(reqs@) =~= before + file_requests(files@.take(k as int), only_if_missing),
            decreases n - k,
        {
            let (path, hash) = files.entry(k);
            let ghost prev = reqs@;
            reqs.push(ObjectRequest { path: path.clone(), hash: hash.clone(), only_if_missing });
            assert(reqs@ == prev.push(reqs@.last()));
            assert(requests_view(reqs@)[reqs@.len() - 1] == (files@[k as int].0, files@[k as int].1, only_if_missing));
            assert forall|j: int| 0 <= j < prev.len() implies requests_view(reqs@)[j] == requests_view(prev)[j] by {
                assert(reqs@[j] == prev[j]);
            }
            let ghost old_part = file_requests(files@.take(k as int), only_if_missing);
            let ghost new_part = file_requests(files@.take(k + 1), only_if_missing);
            assert forall|j: int| 0 <= j < k implies old_part[j] == new_part[j] by {
                assert(files@.take(k as int)[j] == files@[j]);
                assert(files@.take(k + 1)[j] == files@[j]);
            }
            assert(new_part[k as int] == (files@[k as int].0, files@[k as int].1, only_if_missing));
            assert(requests_view(prev) == before + old_part);
            assert forall|j: int| 0 <= j < reqs@.len() implies requests_view(reqs@)[j] == (before + new_part)[j] by {
                if j < before.len() {
                    assert(requests_view(prev)[j] == (before + old_part)[j]);
                } else if j < prev.len() {
                    assert(requests_view(prev)[j] == (before + old_part)[j]);
                    assert(old_part[j - before.len()] == new_part[j - before.len()]);
                }
            }
            assert(requests_view(reqs@) =~= before + new_part);
            k = k + 1;
        }
        assert(files@.take(n as int) =~= files@);
    }

    /// The files that rebuilding the object store reads, in order.
    pub fn rebuild_requests(&self) -> (reqs: Vec<ObjectRequest>)
        ensures
            requests_view(reqs@) == rebuild_plan(self.staging@, self.commits@),
    {
        let mut reqs: Vec<ObjectRequest> = Vec::new();
        assert(requests_view(reqs@) =~= Seq::empty());
        Self::push_file_requests(&mut reqs, &self.staging, false);
        let ghost staged = requests_view(reqs@);
        let nc = self.commits.len();
        let mut c: usize = 0;
        while c < nc
            invariant
                nc == self.commits@.len(),
                c <= nc,
                staged == file_requests(self.staging@, false),
                requests_view(reqs@) =~= staged + commits_requests(self.commits@.take(c as int)),
            decreases nc - c,
        {
            Self::push_file_requests(&mut reqs, &self.commits[c].files, true);
            assert(self.commits@.take(c + 1).drop_last() =~= self.commits@.take(c as int));
            c = c + 1;
        }
        assert(self.commits@.take(nc as int) =~= self.commits@);
        reqs
    }

    /// One step of rebuilding the object store: `found` is the content read
    /// for `req`, if any; it is stored under the request's hash where the
    /// request still needs it.
    pub fn rebuild_step(&mut self, req: &ObjectRequest, found: Option<Vec<u8>>)
        ensures
            final(self).objects@ == after_rebuild_step(old(self).objects@, request_view(*req), found_view(found)),
            final(self).commits == old(self).commits,
            final(self).staging == old(self).staging,
            final(self).working_dir == old(self).working_dir,
    {
        match found {
            Some(content) => {
                if self.needs_object(req) {
                    self.objects.insert(req.hash.clone(), content);
                }
            },
            None => {},
        }
    }

    /// Whether rebuilding the object store reads the file of `req` now.
    pub fn needs_object(&self, req: &ObjectRequest) -> (b: bool)
        ensures
            b == (!req.only_if_missing || !self.objects.as_map().contains_key(req.hash@)),
    {
        !req.only_if_missing || !self.objects.contains_key(req.hash.as_str())
    }
}

} // verus!
