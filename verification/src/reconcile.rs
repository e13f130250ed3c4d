//! Change reconciliation: turning the raw per-file status flags of a
//! version-control snapshot into three deduplicated sets of affected
//! font families (new, updated, removed).
//!
//! Files are grouped by their containing directory: all files of one font
//! family share a directory, so the directory is the logical key under
//! which changes are reported.

use vstd::prelude::*;

use crate::text::contains_str;
use crate::text::dir_of;
use crate::text::spec_dir_of;

verus! {

/// The per-file status flags reported by the version-control collaborator:
/// whether the file is new, modified or deleted, in the index and in the
/// working tree.
#[derive(Clone, Copy, PartialEq, Eq, Structural)]
pub struct StatusFlags {
    pub index_new: bool,
    pub worktree_new: bool,
    pub index_modified: bool,
    pub worktree_modified: bool,
    pub index_deleted: bool,
    pub worktree_deleted: bool,
}

/// One record of a status snapshot: the post-change path of a file and its
/// status flags.
#[derive(Clone)]
pub struct StatusEntry {
    pub path: String,
    pub flags: StatusFlags,
}

/// The bucket an entry is filed under, by first-match priority:
/// new flags win over modified flags, which win over deleted flags.
pub enum Class {
    AsNew,
    AsUpdated,
    AsRemoved,
    AsUnchanged,
}

/// Classification of a flag set into exactly one bucket.
pub open spec fn spec_classify(f: StatusFlags) -> Class {
    if f.index_new || f.worktree_new {
        Class::AsNew
    } else if f.index_modified || f.worktree_modified {
        Class::AsUpdated
    } else if f.index_deleted || f.worktree_deleted {
        Class::AsRemoved
    } else {
        Class::AsUnchanged
    }
}

/// The normalized key of an entry: the containing directory of its path.
pub open spec fn spec_key(e: StatusEntry) -> Seq<char> {
    spec_dir_of(e.path@)
}

/// The deduplicated keys of the entries classified `c`, in order of first
/// appearance.
pub open spec fn spec_bucket(entries: Seq<StatusEntry>, c: Class) -> Seq<Seq<char>>
    decreases entries.len(),
{
    if entries.len() == 0 {
        Seq::empty()
    } else {
        let pre = spec_bucket(entries.drop_last(), c);
        let k = spec_key(entries.last());
        if spec_classify(entries.last().flags) == c && !pre.contains(k) {
            pre.push(k)
        } else {
            pre
        }
    }
}

/// The keys of `s` that do not occur in `t`, in the order of `s`.
pub open spec fn spec_diff(s: Seq<Seq<char>>, t: Seq<Seq<char>>) -> Seq<Seq<char>>
    decreases s.len(),
{
    if s.len() == 0 {
        Seq::empty()
    } else {
        let pre = spec_diff(s.drop_last(), t);
        if t.contains(s.last()) {
            pre
        } else {
            pre.push(s.last())
        }
    }
}

/// The keys of `s` that occur in `t` but not in `u`, in the order of `s`:
/// the keys the conflict pass moves from the new bucket into the updated
/// bucket.
pub open spec fn spec_moved(
    s: Seq<Seq<char>>,
    t: Seq<Seq<char>>,
    u: Seq<Seq<char>>,
) -> Seq<Seq<char>>
    decreases s.len(),
{
    if s.len() == 0 {
        Seq::empty()
    } else {
        let pre = spec_moved(s.drop_last(), t, u);
        if t.contains(s.last()) && !u.contains(s.last()) {
            pre.push(s.last())
        } else {
            pre
        }
    }
}

/// The final new set: keys filed as new whose family was not also filed as
/// removed (those are treated as modifications instead).
pub open spec fn spec_new(entries: Seq<StatusEntry>) -> Seq<Seq<char>> {
    spec_diff(spec_bucket(entries, Class::AsNew), spec_bucket(entries, Class::AsRemoved))
}

/// The final updated set: keys filed as updated, followed by the keys that
/// appeared both as new and as removed within the same snapshot.
pub open spec fn spec_updated(entries: Seq<StatusEntry>) -> Seq<Seq<char>> {
    spec_bucket(entries, Class::AsUpdated) + spec_moved(
        spec_bucket(entries, Class::AsNew),
        spec_bucket(entries, Class::AsRemoved),
        spec_bucket(entries, Class::AsUpdated),
    )
}

/// The final removed set: keys filed as removed that no update supersedes.
pub open spec fn spec_removed(entries: Seq<StatusEntry>) -> Seq<Seq<char>> {
    spec_diff(spec_bucket(entries, Class::AsRemoved), spec_updated(entries))
}

/// The three reconciled path collections, each holding normalized keys
/// (containing directories) in order of first appearance.
pub struct ChangeSet {
    pub new: Vec<String>,
    pub updated: Vec<String>,
    pub removed: Vec<String>,
}

/// No key occurs twice in the sequence.
pub open spec fn no_dup(s: Seq<Seq<char>>) -> bool {
    forall|i: int, j: int| 0 <= i < j < s.len() ==> s[i] != s[j]
}

/// Whether some entry is classified `c` and has the key `k`.
pub open spec fn has_classified(entries: Seq<StatusEntry>, c: Class, k: Seq<char>) -> bool {
    exists|i: int|
        0 <= i < entries.len() && spec_classify(entries[i].flags) == c && spec_key(entries[i]) == k
}

/// A bucket holds no duplicate keys, and holds exactly the keys of the
/// entries classified into it.
pub proof fn lemma_bucket_props(entries: Seq<StatusEntry>, c: Class)
    ensures
        no_dup(spec_bucket(entries, c)),
        forall|k: Seq<char>|
            #[trigger] spec_bucket(entries, c).contains(k) <==> has_classified(entries, c, k),
    decreases entries.len(),
{
    if entries.len() == 0 {
        assert forall|k: Seq<char>| #[trigger]
            spec_bucket(entries, c).contains(k) <==> has_classified(entries, c, k) by {
            assert(!spec_bucket(entries, c).contains(k));
            assert(!has_classified(entries, c, k));
        }
    } else {
        let pre = entries.drop_last();
        lemma_bucket_props(pre, c);
        let b = spec_bucket(entries, c);
        let bp = spec_bucket(pre, c);
        let last = entries.last();
        assert forall|k: Seq<char>| #[trigger] b.contains(k) implies has_classified(
            entries,
            c,
            k,
        ) by {
            if bp.contains(k) {
                let i = choose|i: int|
                    0 <= i < pre.len() && spec_classify(pre[i].flags) == c && spec_key(pre[i])
                        == k;
                assert(entries[i] == pre[i]);
            } else {
                let j = choose|j: int| 0 <= j < b.len() && b[j] == k;
                assert(b == bp.push(spec_key(last)));
                assert(k == spec_key(last));
                assert(entries[entries.len() - 1] == last);
            }
        }
        assert forall|k: Seq<char>| has_classified(entries, c, k) implies #[trigger] b.contains(
            k,
        ) by {
            let i = choose|i: int|
                0 <= i < entries.len() && spec_classify(entries[i].flags) == c && spec_key(
                    entries[i],
                ) == k;
            if i < entries.len() - 1 {
                assert(pre[i] == entries[i]);
                assert(has_classified(pre, c, k));
                assert(bp.contains(k));
                if spec_classify(last.flags) == c && !bp.contains(spec_key(last)) {
                    let j = choose|j: int| 0 <= j < bp.len() && bp[j] == k;
                    assert(b[j] == k);
                } else {
                    assert(b == bp);
                }
            } else {
                assert(entries[i] == last);
                if bp.contains(k) {
                    let j = choose|j: int| 0 <= j < bp.len() && bp[j] == k;
                    assert(b[j] == k);
                } else {
                    assert(b == bp.push(k));
                    assert(b[b.len() - 1] == k);
                }
            }
        }
        assert forall|i: int, j: int| 0 <= i < j < b.len() implies b[i] != b[j] by {
            if j < bp.len() {
                assert(b[i] == bp[i] && b[j] == bp[j]);
            } else if b.len() > bp.len() {
                assert(b == bp.push(spec_key(last)));
                assert(!bp.contains(spec_key(last)));
                assert(b[i] == bp[i]);
                if b[i] == b[j] {
                    assert(bp.contains(spec_key(last)));
                }
            }
        }
    }
}

/// The difference keeps exactly the keys of `s` outside `t`, without
/// introducing duplicates.
pub proof fn lemma_diff_props(s: Seq<Seq<char>>, t: Seq<Seq<char>>)
    requires
        no_dup(s),
    ensures
        no_dup(spec_diff(s, t)),
        forall|k: Seq<char>|
            #[trigger] spec_diff(s, t).contains(k) <==> s.contains(k) && !t.contains(k),
    decreases s.len(),
{
    if s.len() == 0 {
        assert forall|k: Seq<char>| #[trigger]
            spec_diff(s, t).contains(k) <==> s.contains(k) && !t.contains(k) by {
            assert(!spec_diff(s, t).contains(k));
            assert(!s.contains(k));
        }
    } else {
        let sp = s.drop_last();
        assert(no_dup(sp)) by {
            assert(forall|i: int, j: int|
                0 <= i < j < sp.len() ==> s[i] == sp[i] && s[j] == sp[j]);
        }
        lemma_diff_props(sp, t);
        let d = spec_diff(s, t);
        let dp = spec_diff(sp, t);
        assert forall|k: Seq<char>| #[trigger] d.contains(k) implies s.contains(k) && !t.contains(
            k,
        ) by {
            if dp.contains(k) {
                assert(sp.contains(k));
                let i = choose|i: int| 0 <= i < sp.len() && sp[i] == k;
                assert(s[i] == k);
            } else {
                let j = choose|j: int| 0 <= j < d.len() && d[j] == k;
                assert(d == dp.push(s.last()));
                assert(k == s.last());
                assert(s[s.len() - 1] == k);
            }
        }
        assert forall|k: Seq<char>| s.contains(k) && !t.contains(k) implies #[trigger] d.contains(
            k,
        ) by {
            let i = choose|i: int| 0 <= i < s.len() && s[i] == k;
            if i < s.len() - 1 {
                assert(sp[i] == k);
                assert(sp.contains(k));
                assert(dp.contains(k));
                let j = choose|j: int| 0 <= j < dp.len() && dp[j] == k;
                if !t.contains(s.last()) {
                    assert(d == dp.push(s.last()));
                    assert(d[j] == k);
                } else {
                    assert(d == dp);
                }
            } else {
                assert(s.last() == k);
                assert(d == dp.push(k));
                assert(d[d.len() - 1] == k);
            }
        }
        assert forall|i: int, j: int| 0 <= i < j < d.len() implies d[i] != d[j] by {
            if j < dp.len() {
                assert(d[i] == dp[i] && d[j] == dp[j]);
            } else if d.len() > dp.len() {
                assert(d == dp.push(s.last()));
                assert(d[i] == dp[i]);
                if d[i] == d[j] {
                    assert(dp.contains(s.last()));
                    assert(sp.contains(s.last()));
                    let m = choose|m: int| 0 <= m < sp.len() && sp[m] == s.last();
                    assert(s[m] == s[s.len() - 1]);
                }
            }
        }
    }
}

/// The moved keys are exactly those of `s` that occur in `t` but not in
/// `u`, without duplicates.
pub proof fn lemma_moved_props(s: Seq<Seq<char>>, t: Seq<Seq<char>>, u: Seq<Seq<char>>)
    requires
        no_dup(s),
    ensures
        no_dup(spec_moved(s, t, u)),
        forall|k: Seq<char>|
            #[trigger] spec_moved(s, t, u).contains(k) <==> s.contains(k) && t.contains(k)
                && !u.contains(k),
    decreases s.len(),
{
    if s.len() == 0 {
        assert forall|k: Seq<char>| #[trigger]
            spec_moved(s, t, u).contains(k) <==> s.contains(k) && t.contains(k) && !u.contains(
                k,
            ) by {
            assert(!spec_moved(s, t, u).contains(k));
            assert(!s.contains(k));
        }
    } else {
        let sp = s.drop_last();
        assert(no_dup(sp)) by {
            assert(forall|i: int, j: int|
                0 <= i < j < sp.len() ==> s[i] == sp[i] && s[j] == sp[j]);
        }
        lemma_moved_props(sp, t, u);
        let d = spec_moved(s, t, u);
        let dp = spec_moved(sp, t, u);
        assert forall|k: Seq<char>| #[trigger] d.contains(k) implies s.contains(k) && t.contains(k)
            && !u.contains(k) by {
            if dp.contains(k) {
                assert(sp.contains(k));
                let i = choose|i: int| 0 <= i < sp.len() && sp[i] == k;
                assert(s[i] == k);
            } else {
                let j = choose|j: int| 0 <= j < d.len() && d[j] == k;
                assert(d == dp.push(s.last()));
                assert(k == s.last());
                assert(s[s.len() - 1] == k);
            }
        }
        assert forall|k: Seq<char>| s.contains(k) && t.contains(k) && !u.contains(k) implies #[trigger] d.contains(
            k,
        ) by {
            let i = choose|i: int| 0 <= i < s.len() && s[i] == k;
            if i < s.len() - 1 {
                assert(sp[i] == k);
                assert(sp.contains(k));
                assert(dp.contains(k));
                let j = choose|j: int| 0 <= j < dp.len() && dp[j] == k;
                if t.contains(s.last()) && !u.contains(s.last()) {
                    assert(d == dp.push(s.last()));
                    assert(d[j] == k);
                } else {
                    assert(d == dp);
                }
            } else {
                assert(s.last() == k);
                assert(d == dp.push(k));
                assert(d[d.len() - 1] == k);
            }
        }
        assert forall|i: int, j: int| 0 <= i < j < d.len() implies d[i] != d[j] by {
            if j < dp.len() {
                assert(d[i] == dp[i] && d[j] == dp[j]);
            } else if d.len() > dp.len() {
                assert(d == dp.push(s.last()));
                assert(d[i] == dp[i]);
                if d[i] == d[j] {
                    assert(dp.contains(s.last()));
                    assert(sp.contains(s.last()));
                    let m = choose|m: int| 0 <= m < sp.len() && sp[m] == s.last();
                    assert(s[m] == s[s.len() - 1]);
                }
            }
        }
    }
}

impl StatusFlags {
    /// A flag set with nothing raised.
    pub fn none() -> (r: StatusFlags)
        ensures
            r == (StatusFlags {
                index_new: false,
                worktree_new: false,
                index_modified: false,
                worktree_modified: false,
                index_deleted: false,
                worktree_deleted: false,
            }),
    {
        StatusFlags {
            index_new: false,
            worktree_new: false,
            index_modified: false,
            worktree_modified: false,
            index_deleted: false,
            worktree_deleted: false,
        }
    }
}

/// Reconciles a status snapshot into the three change sets.
///
/// Every entry is classified into at most one bucket (new wins over
/// updated, updated over removed), keyed by its containing directory and
/// deduplicated. A key filed both as new and as removed is treated as a
/// modification: it moves to the updated set. An updated key supersedes a
/// stale removal of the same key.
pub fn reconcile(entries: &Vec<StatusEntry>) -> (r: ChangeSet)
    ensures
        r.new.deep_view() == spec_new(entries@),
        r.updated.deep_view() == spec_updated(entries@),
        r.removed.deep_view() == spec_removed(entries@),
        no_dup(r.new.deep_view()),
        no_dup(r.updated.deep_view()),
        no_dup(r.removed.deep_view()),
{
    let mut new: Vec<String> = Vec::new();
    let mut updated: Vec<String> = Vec::new();
    let mut removed: Vec<String> = Vec::new();

    let n = entries.len();
    let mut i: usize = 0;
    proof {
        assert(entries@.take(0int) =~= Seq::<StatusEntry>::empty());
        assert(new.deep_view() =~= spec_bucket(entries@.take(0int), Class::AsNew));
        assert(updated.deep_view() =~= spec_bucket(entries@.take(0int), Class::AsUpdated));
        assert(removed.deep_view() =~= spec_bucket(entries@.take(0int), Class::AsRemoved));
    }
    while i < n
        invariant
            0 <= i <= n,
            n == entries@.len(),
            new.deep_view() == spec_bucket(entries@.take(i as int), Class::AsNew),
            updated.deep_view() == spec_bucket(entries@.take(i as int), Class::AsUpdated),
            removed.deep_view() == spec_bucket(entries@.take(i as int), Class::AsRemoved),
        decreases n - i,
    {
        let ghost pre = entries@.take(i as int);
        let ghost cur = entries@.take(i + 1);
        proof {
            assert(cur.drop_last() =~= pre);
            assert(cur.last() == entries@[i as int]);
        }
        let e = &entries[i];
        let key = dir_of(e.path.as_str());
        proof {
            assert(key@ == spec_key(entries@[i as int]));
        }
        if e.flags.index_new || e.flags.worktree_new {
            if !contains_str(&new, &key) {
                new.push(key);
                proof {
                    assert(new.deep_view() =~= spec_bucket(cur, Class::AsNew));
                }
            }
            proof {
                assert(updated.deep_view() =~= spec_bucket(cur, Class::AsUpdated));
                assert(removed.deep_view() =~= spec_bucket(cur, Class::AsRemoved));
            }
        } else if e.flags.index_modified || e.flags.worktree_modified {
            if !contains_str(&updated, &key) {
                updated.push(key);
                proof {
                    assert(updated.deep_view() =~= spec_bucket(cur, Class::AsUpdated));
                }
            }
            proof {
                assert(new.deep_view() =~= spec_bucket(cur, Class::AsNew));
                assert(removed.deep_view() =~= spec_bucket(cur, Class::AsRemoved));
            }
        } else if e.flags.index_deleted || e.flags.worktree_deleted {
            if !contains_str(&removed, &key) {
                removed.push(key);
                proof {
                    assert(removed.deep_view() =~= spec_bucket(cur, Class::AsRemoved));
                }
            }
            proof {
                assert(new.deep_view() =~= spec_bucket(cur, Class::AsNew));
                assert(updated.deep_view() =~= spec_bucket(cur, Class::AsUpdated));
            }
        } else {
            proof {
                assert(new.deep_view() =~= spec_bucket(cur, Class::AsNew));
                assert(updated.deep_view() =~= spec_bucket(cur, Class::AsUpdated));
                assert(removed.deep_view() =~= spec_bucket(cur, Class::AsRemoved));
            }
        }
        i += 1;
    }
    proof {
        assert(entries@.take(n as int) =~= entries@);
    }

    let ghost bucket_new = spec_bucket(entries@, Class::AsNew);
    let ghost bucket_updated = spec_bucket(entries@, Class::AsUpdated);
    let ghost bucket_removed = spec_bucket(entries@, Class::AsRemoved);
    proof {
        lemma_bucket_props(entries@, Class::AsNew);
        lemma_bucket_props(entries@, Class::AsUpdated);
        lemma_bucket_props(entries@, Class::AsRemoved);
    }

    // Conflict pass: a key both new and removed becomes an update.
    let mut kept: Vec<String> = Vec::new();
    let mut i: usize = 0;
    proof {
        assert(bucket_new.take(0int) =~= Seq::<Seq<char>>::empty());
        assert(kept.deep_view() =~= spec_diff(bucket_new.take(0int), bucket_removed));
        assert(spec_moved(bucket_new.take(0int), bucket_removed, bucket_updated)
            =~= Seq::<Seq<char>>::empty());
        assert(updated.deep_view() =~= bucket_updated + spec_moved(
            bucket_new.take(0int),
            bucket_removed,
            bucket_updated,
        ));
    }
    while i < new.len()
        invariant
            0 <= i <= new.len(),
            new.deep_view() == bucket_new,
            removed.deep_view() == bucket_removed,
            no_dup(bucket_new),
            kept.deep_view() == spec_diff(bucket_new.take(i as int), bucket_removed),
            updated.deep_view() == bucket_updated + spec_moved(
                bucket_new.take(i as int),
                bucket_removed,
                bucket_updated,
            ),
        decreases new.len() - i,
    {
        let ghost prefix = bucket_new.take(i as int);
        let ghost cur = bucket_new.take(i + 1);
        proof {
            assert(cur.drop_last() =~= prefix);
            assert(cur.last() == bucket_new[i as int]);
            assert(new.deep_view()[i as int] == new@[i as int]@);
        }
        let key = &new[i];
        if contains_str(&removed, key) {
            proof {
                // The key is not among the already moved keys: the new
                // bucket has no duplicates, so it cannot occur in its own
                // prefix.
                assert(no_dup(prefix)) by {
                    assert(forall|a: int, b: int|
                        0 <= a < b < prefix.len() ==> bucket_new[a] == prefix[a] && bucket_new[b]
                            == prefix[b]);
                }
                lemma_moved_props(prefix, bucket_removed, bucket_updated);
                assert(!prefix.contains(key@)) by {
                    if prefix.contains(key@) {
                        let j = choose|j: int| 0 <= j < prefix.len() && prefix[j] == key@;
                        assert(bucket_new[j] == bucket_new[i as int]);
                    }
                }
                lemma_concat_contains(
                    bucket_updated,
                    spec_moved(prefix, bucket_removed, bucket_updated),
                    key@,
                );
            }
            if !contains_str(&updated, key) {
                let moved_key = key.clone();
                updated.push(moved_key);
                proof {
                    assert(bucket_removed.contains(key@));
                    assert(!bucket_updated.contains(key@));
                    assert(spec_moved(cur, bucket_removed, bucket_updated) =~= spec_moved(
                        prefix,
                        bucket_removed,
                        bucket_updated,
                    ).push(key@));
                    assert(updated.deep_view() =~= (bucket_updated + spec_moved(
                        prefix,
                        bucket_removed,
                        bucket_updated,
                    )).push(key@));
                    assert(updated.deep_view() =~= bucket_updated + spec_moved(
                        cur,
                        bucket_removed,
                        bucket_updated,
                    ));
                }
            } else {
                proof {
                    assert(spec_moved(cur, bucket_removed, bucket_updated) =~= spec_moved(
                        prefix,
                        bucket_removed,
                        bucket_updated,
                    ));
                }
            }
            proof {
                assert(kept.deep_view() =~= spec_diff(cur, bucket_removed));
            }
        } else {
            let kept_key = key.clone();
            kept.push(kept_key);
            proof {
                assert(kept.deep_view() =~= spec_diff(cur, bucket_removed));
                assert(spec_moved(cur, bucket_removed, bucket_updated) =~= spec_moved(
                    prefix,
                    bucket_removed,
                    bucket_updated,
                ));
            }
        }
        i += 1;
    }
    proof {
        assert(bucket_new.take(new.deep_view().len() as int) =~= bucket_new);
    }
    let new = kept;

    // Cleanup pass: an update supersedes a stale removal of the same key.
    let ghost final_updated = spec_updated(entries@);
    proof {
        assert(updated.deep_view() == final_updated);
    }
    let mut remaining: Vec<String> = Vec::new();
    let mut i: usize = 0;
    proof {
        assert(bucket_removed.take(0int) =~= Seq::<Seq<char>>::empty());
        assert(remaining.deep_view() =~= spec_diff(bucket_removed.take(0int), final_updated));
    }
    while i < removed.len()
        invariant
            0 <= i <= removed.len(),
            removed.deep_view() == bucket_removed,
            updated.deep_view() == final_updated,
            remaining.deep_view() == spec_diff(bucket_removed.take(i as int), final_updated),
        decreases removed.len() - i,
    {
        let ghost prefix = bucket_removed.take(i as int);
        let ghost cur = bucket_removed.take(i + 1);
        proof {
            assert(cur.drop_last() =~= prefix);
            assert(cur.last() == bucket_removed[i as int]);
            assert(removed.deep_view()[i as int] == removed@[i as int]@);
        }
        let key = &removed[i];
        if !contains_str(&updated, key) {
            let kept_key = key.clone();
            remaining.push(kept_key);
        }
        proof {
            assert(remaining.deep_view() =~= spec_diff(cur, final_updated));
        }
        i += 1;
    }
    proof {
        assert(bucket_removed.take(removed.deep_view().len() as int) =~= bucket_removed);
    }
    let removed = remaining;

    proof {
        lemma_changeset_no_duplicates(entries@);
    }
    ChangeSet { new, updated, removed }
}

/// No reconciled set reports a family twice: each of the three change sets
/// is free of duplicate keys, for every snapshot.
pub proof fn lemma_changeset_no_duplicates(entries: Seq<StatusEntry>)
    ensures
        no_dup(spec_new(entries)),
        no_dup(spec_updated(entries)),
        no_dup(spec_removed(entries)),
{
    let bn = spec_bucket(entries, Class::AsNew);
    let bu = spec_bucket(entries, Class::AsUpdated);
    let br = spec_bucket(entries, Class::AsRemoved);
    lemma_bucket_props(entries, Class::AsNew);
    lemma_bucket_props(entries, Class::AsUpdated);
    lemma_bucket_props(entries, Class::AsRemoved);
    lemma_diff_props(bn, br);
    lemma_moved_props(bn, br, bu);
    let m = spec_moved(bn, br, bu);
    let up = spec_updated(entries);
    assert forall|i: int, j: int| 0 <= i < j < up.len() implies up[i] != up[j] by {
        if j < bu.len() {
            assert(up[i] == bu[i] && up[j] == bu[j]);
        } else if i >= bu.len() {
            assert(up[i] == m[i - bu.len()] && up[j] == m[j - bu.len()]);
        } else {
            assert(up[i] == bu[i] && up[j] == m[j - bu.len()]);
            assert(m.contains(m[j - bu.len()]));
            if up[i] == up[j] {
                assert(bu.contains(m[j - bu.len()]));
            }
        }
    }
    assert(no_dup(up));
    lemma_diff_props(br, up);
}

/// Where no family has both a new-classified and an updated-classified entry
/// without a removed-classified one, the three reconciled sets are pairwise
/// disjoint.
pub proof fn lemma_changeset_disjoint(entries: Seq<StatusEntry>)
    requires
        forall|k: Seq<char>|
            !(has_classified(entries, Class::AsNew, k) && has_classified(
                entries,
                Class::AsUpdated,
                k,
            ) && !has_classified(entries, Class::AsRemoved, k)),
    ensures
        forall|k: Seq<char>|
            !(#[trigger] spec_new(entries).contains(k) && spec_updated(entries).contains(k)),
        forall|k: Seq<char>|
            !(#[trigger] spec_new(entries).contains(k) && spec_removed(entries).contains(k)),
        forall|k: Seq<char>|
            !(#[trigger] spec_updated(entries).contains(k) && spec_removed(entries).contains(k)),
{
    let bn = spec_bucket(entries, Class::AsNew);
    let bu = spec_bucket(entries, Class::AsUpdated);
    let br = spec_bucket(entries, Class::AsRemoved);
    lemma_bucket_props(entries, Class::AsNew);
    lemma_bucket_props(entries, Class::AsUpdated);
    lemma_bucket_props(entries, Class::AsRemoved);
    lemma_diff_props(bn, br);
    lemma_moved_props(bn, br, bu);
    let up = spec_updated(entries);
    lemma_diff_props(br, up);
    assert forall|k: Seq<char>|
        !(#[trigger] spec_new(entries).contains(k) && spec_updated(entries).contains(k)) by {
        if spec_new(entries).contains(k) && up.contains(k) {
            lemma_concat_contains(bu, spec_moved(bn, br, bu), k);
            assert(!br.contains(k));
            assert(!spec_moved(bn, br, bu).contains(k));
            assert(bu.contains(k));
            assert(has_classified(entries, Class::AsNew, k));
            assert(has_classified(entries, Class::AsUpdated, k));
            assert(!has_classified(entries, Class::AsRemoved, k));
        }
    }
    assert forall|k: Seq<char>|
        !(#[trigger] spec_updated(entries).contains(k) && spec_removed(entries).contains(k)) by {
        if spec_removed(entries).contains(k) {
            assert(!up.contains(k));
        }
    }
}

/// A family that appears both with new flags and with removed flags within
/// one snapshot is reported as updated, and in neither the new nor the
/// removed set.
pub proof fn lemma_new_plus_removed_is_updated(entries: Seq<StatusEntry>, k: Seq<char>)
    requires
        has_classified(entries, Class::AsNew, k),
        has_classified(entries, Class::AsRemoved, k),
    ensures
        spec_updated(entries).contains(k),
        !spec_new(entries).contains(k),
        !spec_removed(entries).contains(k),
{
    let bn = spec_bucket(entries, Class::AsNew);
    let bu = spec_bucket(entries, Class::AsUpdated);
    let br = spec_bucket(entries, Class::AsRemoved);
    lemma_bucket_props(entries, Class::AsNew);
    lemma_bucket_props(entries, Class::AsUpdated);
    lemma_bucket_props(entries, Class::AsRemoved);
    lemma_diff_props(bn, br);
    lemma_moved_props(bn, br, bu);
    let up = spec_updated(entries);
    lemma_concat_contains(bu, spec_moved(bn, br, bu), k);
    assert(up.contains(k));
    lemma_diff_props(br, up);
}

/// Growing a snapshot by entries whose keys its buckets already hold leaves
/// every bucket unchanged.
proof fn lemma_bucket_extend_absorbed(e1: Seq<StatusEntry>, e2: Seq<StatusEntry>, c: Class)
    requires
        forall|i: int|
            0 <= i < e2.len() && spec_classify(#[trigger] e2[i].flags) == c ==> spec_bucket(
                e1,
                c,
            ).contains(spec_key(e2[i])),
    ensures
        spec_bucket(e1 + e2, c) == spec_bucket(e1, c),
    decreases e2.len(),
{
    if e2.len() == 0 {
        assert(e1 + e2 =~= e1);
    } else {
        let e2p = e2.drop_last();
        assert(forall|i: int|
            0 <= i < e2p.len() ==> e2p[i] == e2[i]);
        lemma_bucket_extend_absorbed(e1, e2p, c);
        assert((e1 + e2).drop_last() =~= e1 + e2p);
        let last = (e1 + e2).last();
        assert(last == e2[e2.len() - 1]);
        if spec_classify(last.flags) == c {
            assert(spec_bucket(e1, c).contains(spec_key(last)));
            assert(spec_bucket(e1 + e2, c) == spec_bucket(e1, c));
        } else {
            assert(spec_bucket(e1 + e2, c) == spec_bucket(e1, c));
        }
    }
}

/// Deduplication is idempotent: a snapshot repeated entry for entry
/// reconciles to the very change sets of the single snapshot.
pub proof fn lemma_reconcile_idempotent(entries: Seq<StatusEntry>)
    ensures
        spec_new(entries + entries) == spec_new(entries),
        spec_updated(entries + entries) == spec_updated(entries),
        spec_removed(entries + entries) == spec_removed(entries),
{
    lemma_bucket_props(entries, Class::AsNew);
    lemma_bucket_props(entries, Class::AsUpdated);
    lemma_bucket_props(entries, Class::AsRemoved);
    assert forall|i: int|
        0 <= i < entries.len() && spec_classify(#[trigger] entries[i].flags)
            == Class::AsNew implies spec_bucket(entries, Class::AsNew).contains(
        spec_key(entries[i]),
    ) by {
        assert(has_classified(entries, Class::AsNew, spec_key(entries[i])));
    }
    assert forall|i: int|
        0 <= i < entries.len() && spec_classify(#[trigger] entries[i].flags)
            == Class::AsUpdated implies spec_bucket(entries, Class::AsUpdated).contains(
        spec_key(entries[i]),
    ) by {
        assert(has_classified(entries, Class::AsUpdated, spec_key(entries[i])));
    }
    assert forall|i: int|
        0 <= i < entries.len() && spec_classify(#[trigger] entries[i].flags)
            == Class::AsRemoved implies spec_bucket(entries, Class::AsRemoved).contains(
        spec_key(entries[i]),
    ) by {
        assert(has_classified(entries, Class::AsRemoved, spec_key(entries[i])));
    }
    lemma_bucket_extend_absorbed(entries, entries, Class::AsNew);
    lemma_bucket_extend_absorbed(entries, entries, Class::AsUpdated);
    lemma_bucket_extend_absorbed(entries, entries, Class::AsRemoved);
}

/// Membership in a concatenation is membership in either part.
pub proof fn lemma_concat_contains(a: Seq<Seq<char>>, b: Seq<Seq<char>>, k: Seq<char>)
    ensures
        (a + b).contains(k) <==> a.contains(k) || b.contains(k),
{
    if a.contains(k) {
        let i = choose|i: int| 0 <= i < a.len() && a[i] == k;
        assert((a + b)[i] == k);
    }
    if b.contains(k) {
        let i = choose|i: int| 0 <= i < b.len() && b[i] == k;
        assert((a + b)[a.len() + i] == k);
    }
    if (a + b).contains(k) {
        let i = choose|i: int| 0 <= i < (a + b).len() && (a + b)[i] == k;
        if i < a.len() {
            assert(a[i] == k);
        } else {
            assert(b[i - a.len()] == k);
        }
    }
}

} // verus!
