//! Collections without repetition: what comes first under a key stays, what follows is dropped.

use crate::record::{CommitRecord, Repo};
use vstd::prelude::*;

verus! {

/// Whether something in `kept` has the key of `x`.
pub open spec fn has_key<T, K>(kept: Seq<T>, x: T, key: spec_fn(T) -> K) -> bool {
    exists|i: int| 0 <= i < kept.len() && key(#[trigger] kept[i]) == key(x)
}

/// `kept` and `x`, unless `kept` has its key.
pub open spec fn add_new<T, K>(kept: Seq<T>, x: T, key: spec_fn(T) -> K) -> Seq<T> {
    if has_key(kept, x, key) {
        kept
    } else {
        kept.push(x)
    }
}

/// `kept` and, one after another, those of `more` whose key is new.
pub open spec fn absorbed<T, K>(kept: Seq<T>, more: Seq<T>, key: spec_fn(T) -> K) -> Seq<T>
    decreases more.len(),
{
    if more.len() == 0 {
        kept
    } else {
        add_new(absorbed(kept, more.drop_last(), key), more.last(), key)
    }
}

/// Whether no two of `s` have the same key.
pub open spec fn distinct_keys<T, K>(s: Seq<T>, key: spec_fn(T) -> K) -> bool {
    forall|i: int, j: int|
        0 <= i < j < s.len() ==> key(#[trigger] s[i]) != key(#[trigger] s[j])
}

/// Whether a commit of a repository with a hash is among some.
pub open spec fn has_commit_of(s: Seq<CommitRecord>, repo: Seq<char>, sha: Seq<char>) -> bool {
    exists|i: int| 0 <= i < s.len() && (#[trigger] s[i]).repo@ == repo && s[i].sha@ == sha
}

/// The key of a commit: its repository and its hash.
pub open spec fn commit_key() -> spec_fn(CommitRecord) -> (Seq<char>, Seq<char>) {
    |c: CommitRecord| (c.repo@, c.sha@)
}

/// The key of a repository: its full name.
pub open spec fn repo_key() -> spec_fn(Repo) -> Seq<char> {
    |r: Repo| r.full_name@
}

/// Where no key repeated, none repeats after more has been absorbed.
pub proof fn lemma_absorbed_distinct<T, K>(kept: Seq<T>, more: Seq<T>, key: spec_fn(T) -> K)
    requires
        distinct_keys(kept, key),
    ensures
        distinct_keys(absorbed(kept, more, key), key),
    decreases more.len(),
{
    if more.len() > 0 {
        lemma_absorbed_distinct(kept, more.drop_last(), key);
    }
}

/// What was kept stays, at its place.
pub proof fn lemma_absorbed_keeps<T, K>(kept: Seq<T>, more: Seq<T>, key: spec_fn(T) -> K)
    ensures
        kept.is_prefix_of(absorbed(kept, more, key)),
    decreases more.len(),
{
    if more.len() > 0 {
        lemma_absorbed_keeps(kept, more.drop_last(), key);
    }
}

/// Every key that is absorbed is there afterwards.
pub proof fn lemma_absorbed_complete<T, K>(
    kept: Seq<T>,
    more: Seq<T>,
    key: spec_fn(T) -> K,
    i: int,
)
    requires
        0 <= i < more.len(),
    ensures
        has_key(absorbed(kept, more, key), more[i], key),
    decreases more.len(),
{
    let before = absorbed(kept, more.drop_last(), key);
    let after = absorbed(kept, more, key);
    if i < more.len() - 1 {
        lemma_absorbed_complete(kept, more.drop_last(), key, i);
        let j = choose|j: int| 0 <= j < before.len() && key(#[trigger] before[j]) == key(more[i]);
        assert(after[j] == before[j]);
    } else if !has_key(before, more[i], key) {
        assert(after[after.len() - 1] == more[i]);
    }
}

/// Nothing comes in but what was kept and what is absorbed.
pub proof fn lemma_absorbed_sound<T, K>(
    kept: Seq<T>,
    more: Seq<T>,
    key: spec_fn(T) -> K,
    i: int,
)
    requires
        0 <= i < absorbed(kept, more, key).len(),
    ensures
        kept.contains(absorbed(kept, more, key)[i]) || more.contains(absorbed(kept, more, key)[i]),
    decreases more.len(),
{
    if more.len() > 0 {
        let before = absorbed(kept, more.drop_last(), key);
        let x = absorbed(kept, more, key)[i];
        if i < before.len() {
            lemma_absorbed_sound(kept, more.drop_last(), key, i);
            if more.drop_last().contains(x) {
                let j = choose|j: int| 0 <= j < more.len() - 1 && more.drop_last()[j] == x;
                assert(more[j] == x);
            }
        } else {
            assert(more[more.len() - 1] == x);
        }
    } else {
        assert(kept[i] == absorbed(kept, more, key)[i]);
    }
}

/// Two portions can be absorbed one after another or together.
pub proof fn lemma_absorbed_in_portions<T, K>(
    kept: Seq<T>,
    a: Seq<T>,
    b: Seq<T>,
    key: spec_fn(T) -> K,
)
    ensures
        absorbed(kept, a + b, key) == absorbed(absorbed(kept, a, key), b, key),
    decreases b.len(),
{
    if b.len() == 0 {
        assert(a + b =~= a);
    } else {
        lemma_absorbed_in_portions(kept, a, b.drop_last(), key);
        assert((a + b).drop_last() =~= a + b.drop_last());
    }
}

/// What has been absorbed adds nothing when it comes again.
pub proof fn lemma_absorbed_again<T, K>(kept: Seq<T>, more: Seq<T>, key: spec_fn(T) -> K)
    ensures
        absorbed(absorbed(kept, more, key), more, key) == absorbed(kept, more, key),
{
    lemma_absorbs_nothing(absorbed(kept, more, key), kept, more, key, more.len() as int);
    assert(more.take(more.len() as int) =~= more);
}

/// A collection that has absorbed `more` absorbs no prefix of it.
proof fn lemma_absorbs_nothing<T, K>(
    full: Seq<T>,
    kept: Seq<T>,
    more: Seq<T>,
    key: spec_fn(T) -> K,
    n: int,
)
    requires
        full == absorbed(kept, more, key),
        0 <= n <= more.len(),
    ensures
        absorbed(full, more.take(n), key) == full,
    decreases n,
{
    if n > 0 {
        lemma_absorbs_nothing(full, kept, more, key, n - 1);
        assert(more.take(n).drop_last() =~= more.take(n - 1));
        lemma_absorbed_complete(kept, more, key, n - 1);
    }
}

/// Whether `kept` has the key of a commit.
fn has_commit(kept: &Vec<CommitRecord>, commit: &CommitRecord) -> (r: bool)
    ensures
        r == has_key(kept@, *commit, commit_key()),
{
    for i in 0..kept.len()
        invariant
            forall|k: int|
                0 <= k < i ==> commit_key()(#[trigger] kept@[k]) != commit_key()(*commit),
    {
        if kept[i].sha == commit.sha && kept[i].repo == commit.repo {
            return true;
        }
    }
    false
}

/// Adds those of `more` that are new.
pub fn absorb_commits(kept: &mut Vec<CommitRecord>, more: Vec<CommitRecord>)
    ensures
        final(kept)@ == absorbed(old(kept)@, more@, commit_key()),
        old(kept)@.is_prefix_of(final(kept)@),
        forall|c: CommitRecord| #[trigger]
            has_commit_of(final(kept)@, c.repo@, c.sha@) <==> has_commit_of(
                old(kept)@,
                c.repo@,
                c.sha@,
            ) || has_commit_of(more@, c.repo@, c.sha@),
{
    let ghost start = kept@;
    for commit in it: more
        invariant
            it.seq() == more@,
            kept@ == absorbed(start, more@.take(it.index()), commit_key()),
    {
        proof {
            let upto = more@.take(it.index() + 1);
            assert(upto.drop_last() =~= more@.take(it.index()));
            assert(upto.last() == commit);
        }
        if !has_commit(kept, &commit) {
            kept.push(commit);
        }
    }
    assert(more@.take(more@.len() as int) =~= more@);
    proof {
        lemma_absorbed_keeps(start, more@, commit_key());
        assert forall|c: CommitRecord| #[trigger]
            has_commit_of(kept@, c.repo@, c.sha@) <==> has_commit_of(start, c.repo@, c.sha@)
                || has_commit_of(more@, c.repo@, c.sha@) by {
            lemma_absorbed_keys(start, more@, commit_key(), c);
            lemma_commit_key_is(kept@, c);
            lemma_commit_key_is(start, c);
            lemma_commit_key_is(more@, c);
        }
    }
}

/// Whether `kept` has the key of a repository.
fn has_repo(kept: &Vec<Repo>, repo: &Repo) -> (r: bool)
    ensures
        r == has_key(kept@, *repo, repo_key()),
{
    for i in 0..kept.len()
        invariant
            forall|k: int| 0 <= k < i ==> repo_key()(#[trigger] kept@[k]) != repo_key()(*repo),
    {
        if kept[i].full_name == repo.full_name {
            return true;
        }
    }
    false
}

/// Repositories with those left out whose full name has come before.
pub fn unique_repos(repos: Vec<Repo>) -> (r: Vec<Repo>)
    ensures
        r@ == absorbed(Seq::empty(), repos@, repo_key()),
{
    let mut kept: Vec<Repo> = Vec::new();
    for repo in it: repos
        invariant
            it.seq() == repos@,
            kept@ == absorbed(Seq::empty(), repos@.take(it.index()), repo_key()),
    {
        proof {
            let upto = repos@.take(it.index() + 1);
            assert(upto.drop_last() =~= repos@.take(it.index()));
            assert(upto.last() == repo);
        }
        if !has_repo(&kept, &repo) {
            kept.push(repo);
        }
    }
    assert(repos@.take(repos@.len() as int) =~= repos@);
    kept
}

/// Where no key repeats, none repeats in another order.
pub proof fn lemma_reordered_distinct<T, K>(s: Seq<T>, t: Seq<T>, key: spec_fn(T) -> K)
    requires
        distinct_keys(s, key),
        t.to_multiset() == s.to_multiset(),
    ensures
        distinct_keys(t, key),
{
    assert(s.no_duplicates());
    s.lemma_multiset_has_no_duplicates();
    t.lemma_multiset_has_no_duplicates_conv();
    assert forall|i: int, j: int| 0 <= i < j < t.len() implies key(#[trigger] t[i]) != key(
        #[trigger] t[j],
    ) by {
        assert(t[i] != t[j]);
        vstd::seq_lib::to_multiset_contains(t, t[i]);
        vstd::seq_lib::to_multiset_contains(t, t[j]);
        vstd::seq_lib::to_multiset_contains(s, t[i]);
        vstd::seq_lib::to_multiset_contains(s, t[j]);
        assert(t.contains(t[i]) && t.contains(t[j]));
        let a = choose|a: int| 0 <= a < s.len() && s[a] == t[i];
        let b = choose|b: int| 0 <= b < s.len() && s[b] == t[j];
        if a < b {
            assert(key(s[a]) != key(s[b]));
        } else {
            assert(key(s[b]) != key(s[a]));
        }
    }
}

/// After more has been absorbed, the keys are those that were kept and those of what was absorbed.
pub proof fn lemma_absorbed_keys<T, K>(kept: Seq<T>, more: Seq<T>, key: spec_fn(T) -> K, x: T)
    ensures
        has_key(absorbed(kept, more, key), x, key) <==> has_key(kept, x, key) || has_key(
            more,
            x,
            key,
        ),
    decreases more.len(),
{
    if more.len() > 0 {
        let front = more.drop_last();
        lemma_absorbed_keys(kept, front, key, x);
        let before = absorbed(kept, front, key);
        let after = absorbed(kept, more, key);
        if has_key(front, x, key) {
            let i = choose|i: int| 0 <= i < front.len() && key(#[trigger] front[i]) == key(x);
            assert(more[i] == front[i]);
        }
        if key(more.last()) == key(x) {
            lemma_absorbed_complete(kept, more, key, more.len() - 1);
            assert(more[more.len() - 1] == more.last());
            let i = choose|i: int|
                0 <= i < after.len() && key(#[trigger] after[i]) == key(more.last());
            assert(key(after[i]) == key(x));
        } else {
            if has_key(more, x, key) {
                let i = choose|i: int| 0 <= i < more.len() && key(#[trigger] more[i]) == key(x);
                assert(front[i] == more[i]);
            }
            if has_key(after, x, key) {
                let i = choose|i: int| 0 <= i < after.len() && key(#[trigger] after[i]) == key(x);
                assert(before[i] == after[i]);
            }
            if has_key(before, x, key) {
                let i = choose|i: int| 0 <= i < before.len() && key(#[trigger] before[i]) == key(x);
                assert(after[i] == before[i]);
            }
        }
    }
}

/// Where no key repeats, none repeats among a part.
pub proof fn lemma_filtered_distinct<T, K>(s: Seq<T>, p: spec_fn(T) -> bool, key: spec_fn(T) -> K)
    requires
        distinct_keys(s, key),
    ensures
        distinct_keys(s.filter(p), key),
    decreases s.len(),
{
    let kept = s.filter(p);
    if s.len() == 0 {
        s.lemma_filter_len(p);
    } else {
        let front = s.drop_last();
        lemma_filtered_distinct(front, p, key);
        front.lemma_filter_push(s.last(), p);
        assert(s =~= front.push(s.last()));
        let before = front.filter(p);
        assert forall|i: int, j: int| 0 <= i < j < kept.len() implies key(#[trigger] kept[i])
            != key(#[trigger] kept[j]) by {
            assert(kept[i] == before[i]);
            if j < before.len() {
                assert(kept[j] == before[j]);
            } else {
                assert(before.contains(before[i]));
                front.lemma_filter_contains_rev(p, before[i]);
                let k = choose|k: int| 0 <= k < front.len() && front[k] == before[i];
                assert(s[k] == kept[i]);
                assert(s[s.len() - 1] == kept[j]);
            }
        }
    }
}

/// Two commits have the same key if and only if both the repository and the whole hash are the same.
pub proof fn lemma_commit_key_is(s: Seq<CommitRecord>, c: CommitRecord)
    ensures
        forall|a: CommitRecord|
            #[trigger] commit_key()(a) == commit_key()(c) <==> a.repo@ == c.repo@ && a.sha@
                == c.sha@,
        has_key(s, c, commit_key()) <==> has_commit_of(s, c.repo@, c.sha@),
{
    assert forall|a: CommitRecord|
        #[trigger] commit_key()(a) == commit_key()(c) <==> a.repo@ == c.repo@ && a.sha@
            == c.sha@ by {
        assert(commit_key()(a) == (a.repo@, a.sha@));
        assert(commit_key()(c) == (c.repo@, c.sha@));
    }
    if has_key(s, c, commit_key()) {
        let i = choose|i: int|
            0 <= i < s.len() && commit_key()(#[trigger] s[i]) == commit_key()(c);
        assert(s[i].repo@ == c.repo@ && s[i].sha@ == c.sha@);
    }
    if has_commit_of(s, c.repo@, c.sha@) {
        let i = choose|i: int|
            0 <= i < s.len() && (#[trigger] s[i]).repo@ == c.repo@ && s[i].sha@ == c.sha@;
        assert(commit_key()(s[i]) == commit_key()(c));
    }
}

/// Where no key of a commit repeats, no two commits have the same repository and the same hash.
pub proof fn lemma_commits_distinct(s: Seq<CommitRecord>)
    ensures
        distinct_keys(s, commit_key()) <==> forall|i: int, j: int|
            0 <= i < j < s.len() ==> !((#[trigger] s[i]).repo@ == (#[trigger] s[j]).repo@ && s[i].sha@
                == s[j].sha@),
{
    assert forall|i: int, j: int| 0 <= i < j < s.len() implies (commit_key()(#[trigger] s[i])
        == commit_key()(#[trigger] s[j]) <==> s[i].repo@ == s[j].repo@ && s[i].sha@
        == s[j].sha@) by {
        lemma_commit_key_is(s, s[j]);
        assert(commit_key()(s[i]) == commit_key()(s[j]) <==> s[i].repo@ == s[j].repo@ && s[i].sha@
            == s[j].sha@);
    }
}

/// One more commit is added at the end, unless one with its repository and hash is there; nothing
/// more changes nothing.
pub proof fn lemma_one_more_commit(
    kept: Seq<CommitRecord>,
    more: Seq<CommitRecord>,
    c: CommitRecord,
)
    ensures
        absorbed(kept, Seq::<CommitRecord>::empty(), commit_key()) == kept,
        ({
            let before = absorbed(kept, more, commit_key());
            absorbed(kept, more.push(c), commit_key()) == if exists|i: int|
                0 <= i < before.len() && (#[trigger] before[i]).repo@ == c.repo@ && before[i].sha@
                    == c.sha@ {
                before
            } else {
                before.push(c)
            }
        }),
{
    assert(more.push(c).drop_last() =~= more);
    lemma_commit_key_is(absorbed(kept, more, commit_key()), c);
}

/// One more repository is added at the end, unless one with its full name is there.
pub proof fn lemma_one_more_repo(kept: Seq<Repo>, more: Seq<Repo>, repo: Repo)
    ensures
        absorbed(kept, Seq::<Repo>::empty(), repo_key()) == kept,
        ({
            let before = absorbed(kept, more, repo_key());
            absorbed(kept, more.push(repo), repo_key()) == if exists|i: int|
                0 <= i < before.len() && (#[trigger] before[i]).full_name@ == repo.full_name@ {
                before
            } else {
                before.push(repo)
            }
        }),
{
    assert(more.push(repo).drop_last() =~= more);
    let before = absorbed(kept, more, repo_key());
    if exists|i: int|
        0 <= i < before.len() && (#[trigger] before[i]).full_name@ == repo.full_name@ {
        let i = choose|i: int|
            0 <= i < before.len() && (#[trigger] before[i]).full_name@ == repo.full_name@;
        assert(repo_key()(before[i]) == repo_key()(repo));
    }
    if has_key(before, repo, repo_key()) {
        let i = choose|i: int|
            0 <= i < before.len() && repo_key()(#[trigger] before[i]) == repo_key()(repo);
        assert(before[i].full_name@ == repo.full_name@);
    }
}

} // verus!
