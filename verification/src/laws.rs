//! Properties of the library that span its operations.
use vstd::prelude::*;
use vstd::utf8::*;
use crate::str_map::{distinct_keys, entries_map, has_key, insert_entry, key_index, lemma_entries_map_index, lemma_insert_entry};
use crate::paths::{components, join_components};
use crate::repository::{after_rebuild_step, commits_requests, file_requests, rebuild_plan, rebuilt_objects, any_match, can_commit, staging_after_commit, id_matches, is_first_match, staged_path, Commit};
use crate::commands::{untracked, additions, change_against, changes_against, commit_changes, working_file_change, ChangeKind};
use crate::utils::{content_hash, hex_digit, hex_lower, is_hex_lower_char, is_uuid_v4_text, sha256_digest};

verus! {

/// Once a content is stored (by `store_object` or `stage_file`), the object
/// store gives it back under its hash (`get_object`), and every other object
/// stays as it was.
pub proof fn law_stored_object_is_readable(objects: Seq<(Seq<char>, Seq<u8>)>, content: Seq<u8>)
    requires
        distinct_keys(objects),
    ensures
        entries_map(insert_entry(objects, content_hash(content), content)).contains_key(content_hash(content)),
        entries_map(insert_entry(objects, content_hash(content), content))[content_hash(content)] == content,
        forall|k: Seq<char>|
            k != content_hash(content) ==> (#[trigger] entries_map(
                insert_entry(objects, content_hash(content), content),
            ).contains_key(k) == entries_map(objects).contains_key(k) && entries_map(
                insert_entry(objects, content_hash(content), content),
            )[k] == entries_map(objects)[k]),
{
    lemma_insert_entry(objects, content_hash(content), content);
}

/// A staged file is recorded under its path with the hash under which its
/// content is stored; a commit takes these records over as they are, so
/// checking the commit out (`get_object` of each recorded hash) writes that
/// content back.
pub proof fn law_staged_content_is_restorable(
    staging: Seq<(Seq<char>, Seq<char>)>,
    objects: Seq<(Seq<char>, Seq<u8>)>,
    path: Seq<char>,
    content: Seq<u8>,
)
    requires
        distinct_keys(staging),
        distinct_keys(objects),
    ensures
        ({
            let recorded = entries_map(insert_entry(staging, path, content_hash(content)));
            let stored = entries_map(insert_entry(objects, content_hash(content), content));
            &&& recorded.contains_key(path)
            &&& stored.contains_key(recorded[path])
            &&& stored[recorded[path]] == content
        }),
{
    lemma_insert_entry(staging, path, content_hash(content));
    lemma_insert_entry(objects, content_hash(content), content);
}

/// Staging a path again records only its latest hash, in the place where the
/// path was first staged; staging the same content twice is staging it once.
pub proof fn law_restaging_keeps_latest(staging: Seq<(Seq<char>, Seq<char>)>, path: Seq<char>, h1: Seq<char>, h2: Seq<char>)
    requires
        distinct_keys(staging),
    ensures
        insert_entry(insert_entry(staging, path, h1), path, h2) == insert_entry(staging, path, h2),
{
    let s1 = insert_entry(staging, path, h1);
    lemma_insert_entry(staging, path, h1);
    if has_key(staging, path) {
        let i = key_index(staging, path);
        assert(staging[i].0 == path);
        lemma_entries_map_index(staging, i);
        assert(s1[i].0 == path);
        lemma_entries_map_index(s1, i);
        assert(s1.update(i, (path, h2)) =~= staging.update(i, (path, h2)));
    } else {
        let i = staging.len() as int;
        assert(s1[i].0 == path);
        lemma_entries_map_index(s1, i);
        assert(s1.update(i, (path, h2)) =~= staging.push((path, h2)));
    }
}

/// A file whose canonical path lies under the canonical working directory is
/// staged under the rest of its path, joined by the path separator.
pub proof fn law_staged_path_is_relative(working_dir: Seq<String>, rest: Seq<String>, separator: char)
    ensures
        staged_path(working_dir + rest, working_dir, separator) == Some(join_components(components(rest), separator)),
{
    let p = components(working_dir + rest);
    let b = components(working_dir);
    assert(b =~= p.subrange(0, b.len() as int));
    assert(p.skip(working_dir.len() as int) =~= components(rest));
}

/// A commit right after a successful commit is refused: a commit leaves the
/// staging area as `staging_after_commit` says (`Repository::commit`), and
/// that staging area cannot be committed.
pub proof fn law_commit_twice_is_refused(staging: Seq<(Seq<char>, Seq<char>)>)
    requires
        can_commit(staging),
    ensures
        !can_commit(staging_after_commit(staging)),
{
}

/// A commit's full identifier always finds a commit, and never one after it.
pub proof fn law_full_id_finds_commit(commits: Seq<Commit>, i: int)
    requires
        0 <= i < commits.len(),
    ensures
        any_match(commits, commits[i].id@),
        forall|j: int| is_first_match(commits, commits[i].id@, j) ==> j <= i,
{
    let id = commits[i].id@;
    assert(encode_utf8(id) =~= encode_utf8(id).subrange(0, encode_utf8(id).len() as int));
    assert(id_matches(commits, id, i));
}

/// Identifiers that `generate_commit_id` makes have the 8-byte short form
/// that the tool shows (`short_id` accepts them).
pub proof fn law_generated_ids_have_short_form(id: Seq<char>)
    requires
        is_uuid_v4_text(id),
    ensures
        is_char_boundary(encode_utf8(id), 8),
{
    assert(is_ascii_chars(id)) by {
        assert forall|i: int| 0 <= i < id.len() implies '\0' <= #[trigger] id[i] <= '\u{7f}' by {
            if i == 8 || i == 13 || i == 18 || i == 23 {
            } else {
                assert(0 <= i < 36);
            }
        }
    }
    is_ascii_chars_encode_utf8(id);
    encode_utf8_valid_utf8(id);
    let b = encode_utf8(id);
    assert(b[8] == id[8] as u8);
    let x: u8 = b[8];
    assert(x == 0x2d_u8 ==> !is_continuation_byte(x)) by (bit_vector);
    is_char_boundary_iff_not_is_continuation_byte(b, 8);
}

/// A file whose content is what the commit recorded shows no change.
pub proof fn law_unchanged_file_shows_no_change(content: Seq<u8>)
    ensures
        working_file_change(content_hash(content), Some(content)) is None,
{
}

proof fn lemma_changes_against_contains(first: Seq<(Seq<char>, Seq<char>)>, second: Map<Seq<char>, Seq<char>>, c: (ChangeKind, Seq<char>))
    ensures
        changes_against(first, second).contains(c) <==> exists|i: int|
            0 <= i < first.len() && change_against(#[trigger] first[i], second) == Some(c),
    decreases first.len(),
{
    if first.len() > 0 {
        let rest = first.drop_last();
        lemma_changes_against_contains(rest, second, c);
        let prev = changes_against(rest, second);
        if exists|i: int| 0 <= i < first.len() && change_against(#[trigger] first[i], second) == Some(c) {
            let i = choose|i: int| 0 <= i < first.len() && change_against(#[trigger] first[i], second) == Some(c);
            if i < rest.len() {
                assert(rest[i] == first[i]);
                let k = choose|k: int| 0 <= k < prev.len() && prev[k] == c;
                match change_against(first.last(), second) {
                    Some(d) => assert(prev.push(d)[k] == c),
                    None => {},
                }
            } else {
                match change_against(first.last(), second) {
                    Some(d) => assert(prev.push(d)[prev.len() as int] == c),
                    None => {},
                }
            }
        }
        if changes_against(first, second).contains(c) {
            let all = changes_against(first, second);
            let k = choose|k: int| 0 <= k < all.len() && all[k] == c;
            if k < prev.len() {
                match change_against(first.last(), second) {
                    Some(d) => assert(prev.push(d)[k] == prev[k]),
                    None => {},
                }
                assert(prev.contains(c));
                let i = choose|i: int| 0 <= i < rest.len() && change_against(#[trigger] rest[i], second) == Some(c);
                assert(first[i] == rest[i]);
            } else {
                assert(change_against(first[first.len() - 1], second) == Some(c));
            }
        }
    }
}

proof fn lemma_additions_contains(first: Seq<(Seq<char>, Seq<char>)>, second: Seq<(Seq<char>, Seq<char>)>, c: (ChangeKind, Seq<char>))
    ensures
        additions(first, second).contains(c) <==> (c.0 == ChangeKind::Added && has_key(second, c.1) && !has_key(first, c.1)),
    decreases second.len(),
{
    if second.len() > 0 {
        let rest = second.drop_last();
        lemma_additions_contains(first, rest, c);
        let prev = additions(first, rest);
        let all = additions(first, second);
        if all.contains(c) {
            let k = choose|k: int| 0 <= k < all.len() && all[k] == c;
            if k < prev.len() {
                if !has_key(first, second.last().0) {
                    assert(prev.push((ChangeKind::Added, second.last().0))[k] == prev[k]);
                }
                assert(prev.contains(c));
                let i = choose|i: int| 0 <= i < rest.len() && #[trigger] rest[i].0 == c.1;
                assert(second[i] == rest[i]);
            } else {
                assert(second[second.len() - 1].0 == c.1);
            }
        }
        if c.0 == ChangeKind::Added && has_key(second, c.1) && !has_key(first, c.1) {
            let i = choose|i: int| 0 <= i < second.len() && #[trigger] second[i].0 == c.1;
            if i < rest.len() {
                assert(rest[i] == second[i]);
                assert(has_key(rest, c.1));
                let k = choose|k: int| 0 <= k < prev.len() && prev[k] == c;
                if !has_key(first, second.last().0) {
                    assert(prev.push((ChangeKind::Added, second.last().0))[k] == c);
                }
            } else {
                assert(all[all.len() - 1] == c);
            }
        }
    }
}

/// Comparing two commits reports a path as modified exactly when both record
/// it with different hashes, as deleted exactly when only the first records
/// it, and as added exactly when only the second records it.
pub proof fn law_commit_changes_are_the_differences(
    first: Seq<(Seq<char>, Seq<char>)>,
    second: Seq<(Seq<char>, Seq<char>)>,
    path: Seq<char>,
)
    requires
        distinct_keys(first),
        distinct_keys(second),
    ensures
        commit_changes(first, second).contains((ChangeKind::Modified, path)) <==> (entries_map(first).contains_key(path)
            && entries_map(second).contains_key(path) && entries_map(first)[path] != entries_map(second)[path]),
        commit_changes(first, second).contains((ChangeKind::Deleted, path)) <==> (entries_map(first).contains_key(path)
            && !entries_map(second).contains_key(path)),
        commit_changes(first, second).contains((ChangeKind::Added, path)) <==> (!entries_map(first).contains_key(path)
            && entries_map(second).contains_key(path)),
{
    let m2 = entries_map(second);
    let ca = changes_against(first, m2);
    let ad = additions(first, second);
    let all = commit_changes(first, second);
    assert forall|c: (ChangeKind, Seq<char>)| all.contains(c) <==> ca.contains(c) || ad.contains(c) by {
        if all.contains(c) {
            let k = choose|k: int| 0 <= k < all.len() && all[k] == c;
            if k < ca.len() {
                assert(ca[k] == c);
            } else {
                assert(ad[k - ca.len()] == c);
            }
        }
        if ca.contains(c) {
            let k = choose|k: int| 0 <= k < ca.len() && ca[k] == c;
            assert(all[k] == c);
        }
        if ad.contains(c) {
            let k = choose|k: int| 0 <= k < ad.len() && ad[k] == c;
            assert(all[k + ca.len()] == c);
        }
    }
    let kinds = seq![ChangeKind::Modified, ChangeKind::Deleted, ChangeKind::Added];
    assert forall|t: int| 0 <= t < 3 implies {
        let c = (#[trigger] kinds[t], path);
        ca.contains(c) <==> exists|i: int| 0 <= i < first.len() && change_against(#[trigger] first[i], m2) == Some(c)
    } by {
        lemma_changes_against_contains(first, m2, (kinds[t], path));
    }
    lemma_additions_contains(first, second, (ChangeKind::Modified, path));
    lemma_additions_contains(first, second, (ChangeKind::Deleted, path));
    lemma_additions_contains(first, second, (ChangeKind::Added, path));
    assert(kinds[0] == ChangeKind::Modified && kinds[1] == ChangeKind::Deleted && kinds[2] == ChangeKind::Added);
    if entries_map(first).contains_key(path) {
        let i = key_index(first, path);
        lemma_entries_map_index(first, i);
        assert(first[i].0 == path);
    }
    assert forall|i: int| 0 <= i < first.len() && #[trigger] first[i].0 == path implies entries_map(first)[path]
        == first[i].1 by {
        lemma_entries_map_index(first, i);
    }
}

proof fn lemma_changes_against_self(first: Seq<(Seq<char>, Seq<char>)>, second: Map<Seq<char>, Seq<char>>)
    requires
        forall|i: int| 0 <= i < first.len() ==> second.contains_key(#[trigger] first[i].0) && second[first[i].0] == first[i].1,
    ensures
        changes_against(first, second) == Seq::<(ChangeKind, Seq<char>)>::empty(),
    decreases first.len(),
{
    if first.len() > 0 {
        let rest = first.drop_last();
        assert forall|i: int| 0 <= i < rest.len() implies second.contains_key(#[trigger] rest[i].0) && second[rest[i].0]
            == rest[i].1 by {
            assert(rest[i] == first[i]);
        }
        lemma_changes_against_self(rest, second);
        assert(second.contains_key(first[first.len() - 1].0));
    }
}

proof fn lemma_additions_self(first: Seq<(Seq<char>, Seq<char>)>, second: Seq<(Seq<char>, Seq<char>)>)
    requires
        forall|i: int| 0 <= i < second.len() ==> has_key(first, #[trigger] second[i].0),
    ensures
        additions(first, second) == Seq::<(ChangeKind, Seq<char>)>::empty(),
    decreases second.len(),
{
    if second.len() > 0 {
        let rest = second.drop_last();
        assert forall|i: int| 0 <= i < rest.len() implies has_key(first, #[trigger] rest[i].0) by {
            assert(rest[i] == second[i]);
        }
        lemma_additions_self(first, rest);
        assert(has_key(first, second[second.len() - 1].0));
    }
}

/// Comparing a commit with itself reports nothing.
pub proof fn law_commit_compared_with_itself(files: Seq<(Seq<char>, Seq<char>)>)
    requires
        distinct_keys(files),
    ensures
        commit_changes(files, files) == Seq::<(ChangeKind, Seq<char>)>::empty(),
{
    assert forall|i: int| 0 <= i < files.len() implies entries_map(files).contains_key(#[trigger] files[i].0)
        && entries_map(files)[files[i].0] == files[i].1 by {
        lemma_entries_map_index(files, i);
    }
    lemma_changes_against_self(files, entries_map(files));
    assert forall|i: int| 0 <= i < files.len() implies has_key(files, #[trigger] files[i].0) by {
        assert(files[i].0 == files[i].0);
    }
    lemma_additions_self(files, files);
    assert(commit_changes(files, files) =~= Seq::<(ChangeKind, Seq<char>)>::empty());
}

/// What the object store holds after the first `n` requests of `plan` (see
/// `law_rebuild_outcome`).
pub open spec fn rebuild_holds(
    plan: Seq<(Seq<char>, Seq<char>, bool)>,
    found: Seq<Option<Seq<u8>>>,
    nf: int,
    n: int,
    objects: Seq<(Seq<char>, Seq<u8>)>,
) -> bool {
    &&& distinct_keys(objects)
    &&& forall|h: Seq<char>|
        #[trigger] has_key(objects, h) <==> exists|i: int| 0 <= i < n && plan[i].1 == h && #[trigger] found[i] is Some
    &&& forall|i: int|
        0 <= i < n && i < nf && (#[trigger] found[i]) is Some && (forall|j: int|
            i < j < n && j < nf && plan[j].1 == plan[i].1 ==> #[trigger] found[j] is None) ==> entries_map(objects)[plan[i].1]
            == found[i].unwrap()
    &&& forall|i: int|
        nf <= i < n && (#[trigger] found[i]) is Some && (forall|j: int|
            0 <= j < i && plan[j].1 == plan[i].1 ==> #[trigger] found[j] is None) ==> entries_map(objects)[plan[i].1]
            == found[i].unwrap()
}

proof fn lemma_rebuild_prefix(plan: Seq<(Seq<char>, Seq<char>, bool)>, found: Seq<Option<Seq<u8>>>, nf: int, n: int)
    requires
        found.len() == plan.len(),
        0 <= nf <= plan.len(),
        0 <= n <= plan.len(),
        forall|i: int| 0 <= i < plan.len() ==> (#[trigger] plan[i].2 <==> i >= nf),
    ensures
        rebuild_holds(plan, found, nf, n, rebuilt_objects(plan.take(n), found)),
    decreases n,
{
    if n == 0 {
        assert(plan.take(0) =~= Seq::<(Seq<char>, Seq<char>, bool)>::empty());
        assert(rebuilt_objects(plan.take(0), found) == Seq::<(Seq<char>, Seq<u8>)>::empty());
    } else {
        let k = n - 1;
        lemma_rebuild_prefix(plan, found, nf, k);
        let prev = rebuilt_objects(plan.take(k), found);
        assert(plan.take(n).drop_last() =~= plan.take(k));
        assert(plan.take(n).last() == plan[k]);
        let req = plan[k];
        let h = req.1;
        let next = rebuilt_objects(plan.take(n), found);
        assert(next == after_rebuild_step(prev, req, found[k]));
        let inserted = found[k] is Some && (!req.2 || !has_key(prev, h));
        if inserted {
            lemma_insert_entry(prev, h, found[k].unwrap());
            assert(next == insert_entry(prev, h, found[k].unwrap()));
        } else {
            assert(next == prev);
        }
        let pm = entries_map(prev);
        let nm = entries_map(next);
        // domain
        assert forall|g: Seq<char>|
            #[trigger] has_key(next, g) <==> exists|i: int| 0 <= i < n && plan[i].1 == g && #[trigger] found[i] is Some by {
            if has_key(next, g) {
                if inserted && g == h {
                    assert(plan[k].1 == g && found[k] is Some);
                } else {
                    assert(nm.contains_key(g));
                    assert(pm.contains_key(g));
                    assert(has_key(prev, g));
                    let i = choose|i: int| 0 <= i < k && plan[i].1 == g && #[trigger] found[i] is Some;
                    assert(0 <= i < n && plan[i].1 == g && found[i] is Some);
                }
            }
            if exists|i: int| 0 <= i < n && plan[i].1 == g && #[trigger] found[i] is Some {
                let i = choose|i: int| 0 <= i < n && plan[i].1 == g && #[trigger] found[i] is Some;
                if i < k {
                    assert(has_key(prev, g));
                    assert(pm.contains_key(g));
                    assert(nm.contains_key(g));
                } else {
                    assert(i == k);
                    if inserted {
                        assert(nm.contains_key(g));
                    } else {
                        assert(has_key(prev, h));
                    }
                }
            }
        }
        // forced requests
        assert forall|i: int|
            0 <= i < n && i < nf && (#[trigger] found[i]) is Some && (forall|j: int|
                i < j < n && j < nf && plan[j].1 == plan[i].1 ==> #[trigger] found[j] is None) implies nm[plan[i].1]
            == found[i].unwrap() by {
            if i == k {
                assert(!req.2);
                assert(inserted);
            } else {
                assert(forall|j: int| i < j < k && j < nf && plan[j].1 == plan[i].1 ==> #[trigger] found[j] is None);
                assert(pm[plan[i].1] == found[i].unwrap());
                if inserted && plan[i].1 == h {
                    if k < nf {
                        assert(found[k] is None);
                    } else {
                        assert(has_key(prev, h)) by {
                            assert(0 <= i < k && plan[i].1 == h && found[i] is Some);
                        }
                        assert(req.2);
                    }
                }
            }
        }
        // requests read only while missing
        assert forall|i: int|
            nf <= i < n && (#[trigger] found[i]) is Some && (forall|j: int|
                0 <= j < i && plan[j].1 == plan[i].1 ==> #[trigger] found[j] is None) implies nm[plan[i].1]
            == found[i].unwrap() by {
            if i == k {
                assert(!has_key(prev, h)) by {
                    if has_key(prev, h) {
                        let j = choose|j: int| 0 <= j < k && plan[j].1 == h && #[trigger] found[j] is Some;
                        assert(found[j] is None);
                    }
                }
                assert(inserted);
            } else {
                assert(pm[plan[i].1] == found[i].unwrap());
                if inserted && plan[i].1 == h {
                    assert(has_key(prev, h)) by {
                        assert(0 <= i < k && plan[i].1 == h && found[i] is Some);
                    }
                    assert(k >= nf);
                    assert(req.2);
                }
            }
        }
    }
}

proof fn lemma_commits_requests_read_if_missing(commits: Seq<Commit>)
    ensures
        forall|i: int| 0 <= i < commits_requests(commits).len() ==> #[trigger] commits_requests(commits)[i].2,
    decreases commits.len(),
{
    if commits.len() > 0 {
        lemma_commits_requests_read_if_missing(commits.drop_last());
        let a = commits_requests(commits.drop_last());
        let b = file_requests(commits.last().files@, true);
        assert forall|i: int| 0 <= i < (a + b).len() implies #[trigger] (a + b)[i].2 by {
            if i < a.len() {
                assert(a[i].2);
            } else {
                assert(b[i - a.len()].2);
            }
        }
    }
}

/// Rebuilding the object store, each request of `rebuild_plan` in order with
/// `found[i]` the content read for request `i` (`rebuild_step` after
/// `clear_objects`), stores an object under a hash exactly when some request
/// with that hash had its content read; a staged file's content is kept under
/// its hash unless a later staged file with the same hash was read; a
/// committed file's content is kept under its hash when no earlier request
/// with that hash was read.
pub proof fn law_rebuild_outcome(
    staging: Seq<(Seq<char>, Seq<char>)>,
    commits: Seq<Commit>,
    found: Seq<Option<Seq<u8>>>,
)
    requires
        found.len() == rebuild_plan(staging, commits).len(),
    ensures
        rebuild_holds(
            rebuild_plan(staging, commits),
            found,
            staging.len() as int,
            rebuild_plan(staging, commits).len() as int,
            rebuilt_objects(rebuild_plan(staging, commits), found),
        ),
{
    let plan = rebuild_plan(staging, commits);
    let nf = staging.len() as int;
    lemma_commits_requests_read_if_missing(commits);
    let a = file_requests(staging, false);
    let b = commits_requests(commits);
    assert forall|i: int| 0 <= i < plan.len() implies (#[trigger] plan[i].2 <==> i >= nf) by {
        if i < nf {
            assert(plan[i] == a[i]);
        } else {
            assert(plan[i] == b[i - nf]);
        }
    }
    lemma_rebuild_prefix(plan, found, nf, plan.len() as int);
    assert(plan.take(plan.len() as int) =~= plan);
}

proof fn lemma_hex_digit_injective(a: int, b: int)
    requires
        0 <= a < 16,
        0 <= b < 16,
        hex_digit(a) == hex_digit(b),
    ensures
        a == b,
{
    assert(hex_digit(a) as int == if a < 10 { a + 48 } else { a + 87 });
    assert(hex_digit(b) as int == if b < 10 { b + 48 } else { b + 87 });
}

proof fn lemma_hex_lower_len(a: Seq<u8>)
    ensures
        hex_lower(a).len() == 2 * a.len(),
    decreases a.len(),
{
    if a.len() > 0 {
        lemma_hex_lower_len(a.drop_last());
    }
}

proof fn lemma_hex_lower_injective(a: Seq<u8>, b: Seq<u8>)
    requires
        hex_lower(a) == hex_lower(b),
    ensures
        a == b,
    decreases a.len(),
{
    lemma_hex_lower_len(a);
    lemma_hex_lower_len(b);
    if a.len() > 0 {
        let ha = hex_lower(a.drop_last());
        let hb = hex_lower(b.drop_last());
        lemma_hex_lower_len(a.drop_last());
        lemma_hex_lower_len(b.drop_last());
        let h = hex_lower(a);
        assert(ha =~= h.subrange(0, ha.len() as int));
        assert(hb =~= h.subrange(0, hb.len() as int));
        lemma_hex_lower_injective(a.drop_last(), b.drop_last());
        let x = a.last() as int;
        let y = b.last() as int;
        assert(h[ha.len() as int] == hex_digit(x / 16));
        assert(hex_lower(b)[hb.len() as int] == hex_digit(y / 16));
        assert(h[ha.len() as int + 1] == hex_digit(x % 16));
        assert(hex_lower(b)[hb.len() as int + 1] == hex_digit(y % 16));
        lemma_hex_digit_injective(x / 16, y / 16);
        lemma_hex_digit_injective(x % 16, y % 16);
        assert(x == y);
        assert(a =~= a.drop_last().push(a.last()));
        assert(b =~= b.drop_last().push(b.last()));
    }
}

/// Two contents get the same hash only when they have the same SHA-256
/// digest: the hash is the digest of the whole content, spelled out, and
/// loses nothing of it.
pub proof fn law_equal_hashes_mean_equal_digests(c1: Seq<u8>, c2: Seq<u8>)
    requires
        content_hash(c1) == content_hash(c2),
    ensures
        sha256_digest(c1) == sha256_digest(c2),
{
    lemma_hex_lower_injective(sha256_digest(c1), sha256_digest(c2));
}

/// No two of `cs` are about the same path.
pub open spec fn paths_distinct(cs: Seq<(ChangeKind, Seq<char>)>) -> bool {
    forall|i: int, j: int| 0 <= i < cs.len() && 0 <= j < cs.len() && i != j ==> #[trigger] cs[i].1 != #[trigger] cs[j].1
}

proof fn lemma_changes_against_paths(first: Seq<(Seq<char>, Seq<char>)>, second: Map<Seq<char>, Seq<char>>)
    requires
        distinct_keys(first),
    ensures
        paths_distinct(changes_against(first, second)),
        forall|k: int|
            0 <= k < changes_against(first, second).len() ==> has_key(first, #[trigger] changes_against(first, second)[k].1),
    decreases first.len(),
{
    if first.len() > 0 {
        let rest = first.drop_last();
        assert(distinct_keys(rest)) by {
            assert forall|i: int, j: int| 0 <= i < rest.len() && 0 <= j < rest.len() && i != j implies #[trigger] rest[i].0
                != #[trigger] rest[j].0 by {
                assert(rest[i] == first[i] && rest[j] == first[j]);
            }
        }
        lemma_changes_against_paths(rest, second);
        let prev = changes_against(rest, second);
        let all = changes_against(first, second);
        let last = first.last();
        assert forall|k: int| 0 <= k < prev.len() implies has_key(first, #[trigger] prev[k].1) by {
            assert(has_key(rest, prev[k].1));
            let i = choose|i: int| 0 <= i < rest.len() && #[trigger] rest[i].0 == prev[k].1;
            assert(first[i] == rest[i]);
        }
        assert forall|k: int| 0 <= k < prev.len() implies #[trigger] prev[k].1 != last.0 by {
            assert(has_key(rest, prev[k].1));
            let i = choose|i: int| 0 <= i < rest.len() && #[trigger] rest[i].0 == prev[k].1;
            assert(first[i] == rest[i]);
            assert(first[first.len() - 1] == last);
        }
        match change_against(last, second) {
            Some(c) => {
                assert(all == prev.push(c));
                assert(c.1 == last.0);
                assert(has_key(first, last.0)) by {
                    assert(first[first.len() - 1].0 == last.0);
                }
                assert forall|i: int, j: int| 0 <= i < all.len() && 0 <= j < all.len() && i != j implies #[trigger] all[i].1
                    != #[trigger] all[j].1 by {
                    if i < prev.len() && j < prev.len() {
                        assert(all[i] == prev[i] && all[j] == prev[j]);
                    } else if i < prev.len() {
                        assert(all[i] == prev[i]);
                    } else {
                        assert(all[j] == prev[j]);
                    }
                }
                assert forall|k: int| 0 <= k < all.len() implies has_key(first, #[trigger] all[k].1) by {
                    if k < prev.len() {
                        assert(all[k] == prev[k]);
                    }
                }
            },
            None => {},
        }
    }
}

proof fn lemma_additions_paths(first: Seq<(Seq<char>, Seq<char>)>, second: Seq<(Seq<char>, Seq<char>)>)
    requires
        distinct_keys(second),
    ensures
        paths_distinct(additions(first, second)),
        forall|k: int|
            0 <= k < additions(first, second).len() ==> has_key(second, #[trigger] additions(first, second)[k].1) && !has_key(
                first,
                additions(first, second)[k].1,
            ),
    decreases second.len(),
{
    if second.len() > 0 {
        let rest = second.drop_last();
        assert(distinct_keys(rest)) by {
            assert forall|i: int, j: int| 0 <= i < rest.len() && 0 <= j < rest.len() && i != j implies #[trigger] rest[i].0
                != #[trigger] rest[j].0 by {
                assert(rest[i] == second[i] && rest[j] == second[j]);
            }
        }
        lemma_additions_paths(first, rest);
        let prev = additions(first, rest);
        let all = additions(first, second);
        let last = second.last();
        assert forall|k: int| 0 <= k < prev.len() implies has_key(second, #[trigger] prev[k].1) && prev[k].1 != last.0 by {
            assert(has_key(rest, prev[k].1));
            let i = choose|i: int| 0 <= i < rest.len() && #[trigger] rest[i].0 == prev[k].1;
            assert(second[i] == rest[i]);
            assert(second[second.len() - 1] == last);
        }
        if !has_key(first, last.0) {
            let c = (ChangeKind::Added, last.0);
            assert(all == prev.push(c));
            assert(has_key(second, last.0)) by {
                assert(second[second.len() - 1].0 == last.0);
            }
            assert forall|i: int, j: int| 0 <= i < all.len() && 0 <= j < all.len() && i != j implies #[trigger] all[i].1
                != #[trigger] all[j].1 by {
                if i < prev.len() && j < prev.len() {
                    assert(all[i] == prev[i] && all[j] == prev[j]);
                } else if i < prev.len() {
                    assert(all[i] == prev[i]);
                } else {
                    assert(all[j] == prev[j]);
                }
            }
            assert forall|k: int| 0 <= k < all.len() implies has_key(second, #[trigger] all[k].1) && !has_key(
                first,
                all[k].1,
            ) by {
                if k < prev.len() {
                    assert(all[k] == prev[k]);
                }
            }
        }
    }
}

/// Comparing two commits reports each path at most once.
pub proof fn law_commit_changes_report_each_path_once(
    first: Seq<(Seq<char>, Seq<char>)>,
    second: Seq<(Seq<char>, Seq<char>)>,
)
    requires
        distinct_keys(first),
        distinct_keys(second),
    ensures
        paths_distinct(commit_changes(first, second)),
{
    let ca = changes_against(first, entries_map(second));
    let ad = additions(first, second);
    let all = commit_changes(first, second);
    lemma_changes_against_paths(first, entries_map(second));
    lemma_additions_paths(first, second);
    assert forall|i: int, j: int| 0 <= i < all.len() && 0 <= j < all.len() && i != j implies #[trigger] all[i].1
        != #[trigger] all[j].1 by {
        if i < ca.len() && j < ca.len() {
            assert(all[i] == ca[i] && all[j] == ca[j]);
        } else if i < ca.len() {
            assert(all[i] == ca[i] && all[j] == ad[j - ca.len()]);
            assert(has_key(first, ca[i].1));
        } else if j < ca.len() {
            assert(all[j] == ca[j] && all[i] == ad[i - ca.len()]);
            assert(has_key(first, ca[j].1));
        } else {
            assert(all[i] == ad[i - ca.len()] && all[j] == ad[j - ca.len()]);
        }
    }
}

/// A working tree path is reported as a new file exactly when it is among
/// the walked paths and the commit records no file under that exact path.
pub proof fn law_untracked_are_exactly_unrecorded(
    files: Seq<(Seq<char>, Seq<char>)>,
    paths: Seq<Seq<char>>,
    p: Seq<char>,
)
    ensures
        untracked(files, paths).contains(p) <==> (paths.contains(p) && !entries_map(files).contains_key(p)),
    decreases paths.len(),
{
    if paths.len() > 0 {
        let rest = paths.drop_last();
        law_untracked_are_exactly_unrecorded(files, rest, p);
        let prev = untracked(files, rest);
        let all = untracked(files, paths);
        let last = paths.last();
        if !has_key(files, last) {
            assert(all == prev.push(last));
        }
        if all.contains(p) {
            let k = choose|k: int| 0 <= k < all.len() && all[k] == p;
            if k < prev.len() {
                if !has_key(files, last) {
                    assert(prev.push(last)[k] == prev[k]);
                }
                assert(prev.contains(p));
                let i = choose|i: int| 0 <= i < rest.len() && rest[i] == p;
                assert(paths[i] == rest[i]);
            } else {
                assert(paths[paths.len() - 1] == p);
            }
        }
        if paths.contains(p) && !entries_map(files).contains_key(p) {
            let i = choose|i: int| 0 <= i < paths.len() && paths[i] == p;
            if i < rest.len() {
                assert(rest[i] == paths[i]);
                assert(rest.contains(p));
                let k = choose|k: int| 0 <= k < prev.len() && prev[k] == p;
                if !has_key(files, last) {
                    assert(prev.push(last)[k] == p);
                }
                assert(all[k] == p);
            } else {
                assert(last == p);
                assert(all[all.len() - 1] == p);
            }
        }
    }
}

/// Joining is compatible with splitting a path in two: the components of
/// `a` followed by those of `b` join to `a` joined, the separator, then `b`
/// joined; every component boundary gets exactly one separator.
pub proof fn law_join_of_concatenation(a: Seq<Seq<char>>, b: Seq<Seq<char>>, sep: char)
    requires
        a.len() > 0,
        b.len() > 0,
    ensures
        join_components(a + b, sep) == join_components(a, sep) + seq![sep] + join_components(b, sep),
    decreases b.len(),
{
    assert((a + b).drop_last() =~= a + b.drop_last());
    assert((a + b).last() == b.last());
    if b.len() == 1 {
        assert(b.drop_last().len() == 0);
        assert(a + b.drop_last() =~= a);
        assert(join_components(b, sep) == b[0]);
    } else {
        law_join_of_concatenation(a, b.drop_last(), sep);
        assert(join_components(a + b, sep) =~= join_components(a, sep) + seq![sep] + join_components(b, sep));
    }
}

/// Once a file has been staged, the staging area can be committed; so can
/// every staging area that holds a file.
pub proof fn law_staged_file_can_be_committed(staging: Seq<(Seq<char>, Seq<char>)>, path: Seq<char>, hash: Seq<char>)
    ensures
        can_commit(insert_entry(staging, path, hash)),
        staging.len() > 0 ==> can_commit(staging),
{
    if has_key(staging, path) {
        let i = choose|i: int| 0 <= i < staging.len() && #[trigger] staging[i].0 == path;
        assert(staging.len() > 0);
    }
}

/// A path of one component reads as that component, and no components read
/// as the empty text.
pub proof fn law_join_of_one_component(x: Seq<char>, sep: char)
    ensures
        join_components(seq![x], sep) == x,
        join_components(Seq::<Seq<char>>::empty(), sep) == Seq::<char>::empty(),
{
}

proof fn lemma_hex_lower_chars(a: Seq<u8>)
    ensures
        forall|i: int| 0 <= i < hex_lower(a).len() ==> is_hex_lower_char(#[trigger] hex_lower(a)[i]),
    decreases a.len(),
{
    lemma_hex_lower_len(a);
    if a.len() > 0 {
        lemma_hex_lower_chars(a.drop_last());
        lemma_hex_lower_len(a.drop_last());
        let x = a.last() as int;
        let h = hex_lower(a);
        let p = hex_lower(a.drop_last());
        assert forall|i: int| 0 <= i < h.len() implies is_hex_lower_char(#[trigger] h[i]) by {
            if i < p.len() {
                assert(h[i] == p[i]);
            } else {
                let d = if i == p.len() { x / 16 } else { x % 16 };
                assert(h[i] == hex_digit(d));
                assert(hex_digit(d) as int == if d < 10 { d + 48 } else { d + 87 });
            }
        }
    }
}

/// A content's hash spells each byte of its SHA-256 digest as two lowercase
/// hexadecimal digits.
pub proof fn law_content_hash_is_lowercase_hex(c: Seq<u8>)
    ensures
        content_hash(c).len() == 2 * sha256_digest(c).len(),
        forall|i: int| 0 <= i < content_hash(c).len() ==> is_hex_lower_char(#[trigger] content_hash(c)[i]),
{
    lemma_hex_lower_len(sha256_digest(c));
    lemma_hex_lower_chars(sha256_digest(c));
}

} // verus!
