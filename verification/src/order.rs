//! Commits in the order of time.

use crate::calendar;
use crate::calendar::Timestamp;
use crate::record::CommitRecord;
use vstd::prelude::*;

verus! {

/// Whether no commit comes after a later one.
pub open spec fn in_order(s: Seq<CommitRecord>) -> bool {
    forall|i: int, j: int|
        0 <= i < j < s.len() ==> !calendar::precedes(
            (#[trigger] s[j]).timestamp@,
            (#[trigger] s[i]).timestamp@,
        )
}

/// The predicate of commits that were made at `t`.
pub open spec fn dated(t: (int, int)) -> spec_fn(CommitRecord) -> bool {
    |c: CommitRecord| c.timestamp@ == t
}

/// The commits of `s` that were made at `t`, in their order.
pub open spec fn made_at(s: Seq<CommitRecord>, t: (int, int)) -> Seq<CommitRecord> {
    s.filter(dated(t))
}

/// Whether `out` is `input` in the order of time, with commits of one instant in the order in
/// which they stood.
pub open spec fn is_stable_sort(out: Seq<CommitRecord>, input: Seq<CommitRecord>) -> bool {
    &&& in_order(out)
    &&& out.to_multiset() == input.to_multiset()
    &&& forall|t: (int, int)| #[trigger] made_at(out, t) == made_at(input, t)
}

/// The commits of an instant in two sequences together.
proof fn lemma_made_at_add(a: Seq<CommitRecord>, b: Seq<CommitRecord>, t: (int, int))
    ensures
        made_at(a + b, t) == made_at(a, t) + made_at(b, t),
{
    Seq::filter_distributes_over_add(a, b, dated(t));
}

/// The commits of an instant in a sequence of one.
proof fn lemma_made_at_one(c: CommitRecord, t: (int, int))
    ensures
        made_at(seq![c], t) == if c.timestamp@ == t {
            seq![c]
        } else {
            seq![]
        },
{
    reveal_with_fuel(Seq::filter, 2);
    assert(seq![c].drop_last() =~= seq![]);
    assert(made_at(seq![c], t) =~= if c.timestamp@ == t {
        seq![c]
    } else {
        seq![]
    });
}

/// Where no commit was made at `t`, none is found.
proof fn lemma_made_at_none(s: Seq<CommitRecord>, t: (int, int))
    requires
        forall|i: int| 0 <= i < s.len() ==> (#[trigger] s[i]).timestamp@ != t,
    ensures
        made_at(s, t) == Seq::<CommitRecord>::empty(),
{
    s.lemma_all_neg_filter_empty(dated(t));
    assert(made_at(s, t) =~= seq![]);
}

/// Two sorted sequences in one; on equal times those of `a` come first.
fn merge(a: Vec<CommitRecord>, b: Vec<CommitRecord>) -> (r: Vec<CommitRecord>)
    requires
        in_order(a@),
        in_order(b@),
    ensures
        is_stable_sort(r@, a@ + b@),
{
    let mut left = a;
    let mut right = b;
    let mut backwards: Vec<CommitRecord> = Vec::new();
    let ghost done = Seq::<CommitRecord>::empty();
    proof {
        assert forall|t: (int, int)|
            made_at(left@, t) + made_at(right@, t) + #[trigger] made_at(done, t) == made_at(
                a@ + b@,
                t,
            ) by {
            lemma_made_at_add(a@, b@, t);
            lemma_made_at_none(done, t);
            assert(made_at(a@, t) + made_at(b@, t) + seq![] =~= made_at(a@, t) + made_at(b@, t));
        }
        assert(left@ + right@ + done =~= a@ + b@);
    }
    while left.len() > 0 || right.len() > 0
        invariant
            in_order(left@),
            in_order(right@),
            in_order(done),
            backwards@ == done.reverse(),
            (left@ + right@ + done).to_multiset() == (a@ + b@).to_multiset(),
            forall|i: int, j: int|
                0 <= i < left@.len() && 0 <= j < done.len() ==> !calendar::precedes(
                    (#[trigger] done[j]).timestamp@,
                    (#[trigger] left@[i]).timestamp@,
                ),
            forall|i: int, j: int|
                0 <= i < right@.len() && 0 <= j < done.len() ==> !calendar::precedes(
                    (#[trigger] done[j]).timestamp@,
                    (#[trigger] right@[i]).timestamp@,
                ),
            forall|t: (int, int)|
                made_at(left@, t) + made_at(right@, t) + #[trigger] made_at(done, t) == made_at(
                    a@ + b@,
                    t,
                ),
        decreases left@.len() + right@.len(),
    {
        let from_left = right.len() == 0 || (left.len() > 0 && right[right.len()
            - 1].timestamp.before(&left[left.len() - 1].timestamp));
        let ghost old_left = left@;
        let ghost old_right = right@;
        let ghost old_done = done;
        let next = if from_left {
            left.pop()
        } else {
            right.pop()
        };
        if let Some(commit) = next {
            proof {
                done = seq![commit] + done;
                assert(backwards@.push(commit) =~= done.reverse());
                lemma_take_last(old_left, old_right, old_done, commit, from_left);
            }
            backwards.push(commit);
        }
    }
    proof {
        assert(left@ + right@ + done =~= done);
        assert forall|t: (int, int)| #[trigger] made_at(done, t) == made_at(a@ + b@, t) by {
            lemma_made_at_none(left@, t);
            lemma_made_at_none(right@, t);
            assert(made_at(left@, t) + made_at(right@, t) + made_at(done, t) =~= made_at(done, t));
        }
    }
    let mut r: Vec<CommitRecord> = Vec::new();
    while backwards.len() > 0
        invariant
            backwards@.len() <= done.len(),
            backwards@ =~= done.reverse().take(backwards@.len() as int),
            r@ =~= done.take(done.len() - backwards@.len()),
        decreases backwards@.len(),
    {
        if let Some(commit) = backwards.pop() {
            r.push(commit);
        }
    }
    assert(r@ =~= done);
    r
}

/// What taking the last commit of `left` or `right` to the front of `done` keeps.
proof fn lemma_take_last(
    left: Seq<CommitRecord>,
    right: Seq<CommitRecord>,
    done: Seq<CommitRecord>,
    commit: CommitRecord,
    from_left: bool,
)
    requires
        in_order(left),
        in_order(right),
        from_left ==> left.len() > 0 && commit == left.last() && (right.len() == 0
            || calendar::precedes(right.last().timestamp@, commit.timestamp@)),
        !from_left ==> right.len() > 0 && commit == right.last() && (left.len() == 0
            || !calendar::precedes(commit.timestamp@, left.last().timestamp@)),
    ensures
        ({
            let rest_left = if from_left {
                left.drop_last()
            } else {
                left
            };
            let rest_right = if from_left {
                right
            } else {
                right.drop_last()
            };
            &&& (rest_left + rest_right + (seq![commit] + done)).to_multiset() == (left + right
                + done).to_multiset()
            &&& forall|t: (int, int)|
                made_at(rest_left, t) + made_at(rest_right, t) + #[trigger] made_at(
                    seq![commit] + done,
                    t,
                ) == made_at(left, t) + made_at(right, t) + made_at(done, t)
        }),
{
    let rest_left = if from_left {
        left.drop_last()
    } else {
        left
    };
    let rest_right = if from_left {
        right
    } else {
        right.drop_last()
    };
    let one = seq![commit];
    lemma_same_multiset(rest_left, rest_right, one, done, from_left);
    if from_left {
        assert(rest_left + one =~= left);
    } else {
        assert(rest_right + one =~= right);
    }
    assert forall|t: (int, int)|
        made_at(rest_left, t) + made_at(rest_right, t) + #[trigger] made_at(one + done, t)
            == made_at(left, t) + made_at(right, t) + made_at(done, t) by {
        if from_left && commit.timestamp@ == t {
            lemma_made_at_none(right, t);
        }
        lemma_take_last_at(rest_left, rest_right, done, commit, from_left, t);
    }
}

/// Moving a commit from the end of `left` or of `right` to the front of `done` leaves the commits
/// of an instant in their order; from `left` only where `right` has none of that instant.
proof fn lemma_take_last_at(
    left: Seq<CommitRecord>,
    right: Seq<CommitRecord>,
    done: Seq<CommitRecord>,
    commit: CommitRecord,
    from_left: bool,
    t: (int, int),
)
    requires
        from_left && commit.timestamp@ == t ==> made_at(right, t).len() == 0,
    ensures
        ({
            let one = seq![commit];
            let all_left = if from_left {
                left + one
            } else {
                left
            };
            let all_right = if from_left {
                right
            } else {
                right + one
            };
            made_at(left, t) + made_at(right, t) + made_at(one + done, t) == made_at(all_left, t)
                + made_at(all_right, t) + made_at(done, t)
        }),
{
    let one = seq![commit];
    lemma_made_at_add(one, done, t);
    lemma_made_at_add(left, one, t);
    lemma_made_at_add(right, one, t);
    let l = made_at(left, t);
    let r = made_at(right, t);
    let o = made_at(one, t);
    let d = made_at(done, t);
    lemma_made_at_one(commit, t);
    if from_left {
        assert(l + r + (o + d) =~= (l + o) + r + d);
    } else {
        assert(l + r + (o + d) =~= l + (r + o) + d);
    }
}

/// Moving `one` from the end of `left` or of `right` to the front of `done` changes only the
/// order.
proof fn lemma_same_multiset(
    left: Seq<CommitRecord>,
    right: Seq<CommitRecord>,
    one: Seq<CommitRecord>,
    done: Seq<CommitRecord>,
    from_left: bool,
)
    ensures
        (left + right + (one + done)).to_multiset() == (if from_left {
            (left + one) + right + done
        } else {
            left + (right + one) + done
        }).to_multiset(),
{
    vstd::seq_lib::lemma_multiset_commutative(left + right, one + done);
    vstd::seq_lib::lemma_multiset_commutative(left, right);
    vstd::seq_lib::lemma_multiset_commutative(one, done);
    if from_left {
        vstd::seq_lib::lemma_multiset_commutative(left + one + right, done);
        vstd::seq_lib::lemma_multiset_commutative(left + one, right);
        vstd::seq_lib::lemma_multiset_commutative(left, one);
    } else {
        vstd::seq_lib::lemma_multiset_commutative(left + (right + one), done);
        vstd::seq_lib::lemma_multiset_commutative(left, right + one);
        vstd::seq_lib::lemma_multiset_commutative(right, one);
    }
    let all = if from_left {
        (left + one) + right + done
    } else {
        left + (right + one) + done
    };
    assert((left + right + (one + done)).to_multiset() =~= all.to_multiset());
}

/// Commits in the order of time; those of one instant keep their order.
pub fn sort_by_time(commits: Vec<CommitRecord>) -> (r: Vec<CommitRecord>)
    ensures
        is_stable_sort(r@, commits@),
        r@.to_multiset() == commits@.to_multiset(),
        forall|t: (int, int)| #[trigger] made_at(r@, t) == made_at(commits@, t),
        forall|i: int, j: int|
            0 <= i < j < r@.len() ==> (#[trigger] r@[i]).timestamp@.0 < (
            #[trigger] r@[j]).timestamp@.0 || (r@[i].timestamp@.0 == r@[j].timestamp@.0
                && r@[i].timestamp@.1 <= r@[j].timestamp@.1),
    decreases commits@.len(),
{
    if commits.len() <= 1 {
        return commits;
    }
    let mut front = commits;
    let back = front.split_off(front.len() / 2);
    let ghost first = front@;
    let ghost second = back@;
    assert(first + second =~= commits@);
    let sorted_front = sort_by_time(front);
    let sorted_back = sort_by_time(back);
    let r = merge(sorted_front, sorted_back);
    proof {
        vstd::seq_lib::lemma_multiset_commutative(first, second);
        vstd::seq_lib::lemma_multiset_commutative(sorted_front@, sorted_back@);
        assert forall|t: (int, int)| #[trigger] made_at(r@, t) == made_at(commits@, t) by {
            lemma_made_at_add(first, second, t);
            lemma_made_at_add(sorted_front@, sorted_back@, t);
            assert(made_at(sorted_front@, t) == made_at(first, t));
            assert(made_at(sorted_back@, t) == made_at(second, t));
        }
    }
    r
}

/// There is only one way to sort commits by time and keep the order of those of one instant.
pub proof fn lemma_stable_sort_unique(
    a: Seq<CommitRecord>,
    b: Seq<CommitRecord>,
    input: Seq<CommitRecord>,
)
    requires
        is_stable_sort(a, input),
        is_stable_sort(b, input),
    ensures
        a == b,
{
    vstd::seq_lib::to_multiset_len(a);
    vstd::seq_lib::to_multiset_len(b);
    assert forall|t: (int, int)| #[trigger] made_at(a, t) == made_at(b, t) by {
        assert(made_at(a, t) == made_at(input, t));
    }
    lemma_same_instants(a, b);
}

/// Two sorted sequences with the same commits at each instant are the same.
proof fn lemma_same_instants(a: Seq<CommitRecord>, b: Seq<CommitRecord>)
    requires
        in_order(a),
        in_order(b),
        a.len() == b.len(),
        forall|t: (int, int)| #[trigger] made_at(a, t) == made_at(b, t),
    ensures
        a == b,
    decreases a.len(),
{
    if a.len() == 0 {
        assert(a =~= b);
    } else {
        let t = a.last().timestamp@;
        lemma_last_instant(a, b);
        lemma_last_instant(b, a);
        assert(b.last().timestamp@ == t);
        lemma_made_at_last(a, t);
        lemma_made_at_last(b, t);
        assert(made_at(a, t) == made_at(b, t));
        assert(made_at(a, t).last() == a.last());
        assert(made_at(b, t).last() == b.last());
        assert forall|u: (int, int)| #[trigger] made_at(a.drop_last(), u) == made_at(
            b.drop_last(),
            u,
        ) by {
            assert(made_at(a, u) == made_at(b, u));
            lemma_made_at_last(a, u);
            lemma_made_at_last(b, u);
            assert(made_at(a.drop_last(), u) =~= made_at(b.drop_last(), u)) by {
                if u == t {
                    assert(made_at(a.drop_last(), u) =~= made_at(a, u).drop_last());
                    assert(made_at(b.drop_last(), u) =~= made_at(b, u).drop_last());
                }
            }
        }
        lemma_same_instants(a.drop_last(), b.drop_last());
        assert(a =~= a.drop_last().push(a.last()));
        assert(b =~= b.drop_last().push(b.last()));
    }
}

/// The last commit and the commits of an instant.
proof fn lemma_made_at_last(s: Seq<CommitRecord>, t: (int, int))
    requires
        s.len() > 0,
    ensures
        made_at(s, t) == if s.last().timestamp@ == t {
            made_at(s.drop_last(), t).push(s.last())
        } else {
            made_at(s.drop_last(), t)
        },
{
    assert(s =~= s.drop_last().push(s.last()));
    s.drop_last().lemma_filter_push(s.last(), dated(t));
}

/// Where two sorted sequences have the same commits at each instant, the last commit of the one
/// is not later than that of the other.
proof fn lemma_last_instant(a: Seq<CommitRecord>, b: Seq<CommitRecord>)
    requires
        in_order(a),
        in_order(b),
        a.len() == b.len(),
        a.len() > 0,
        forall|t: (int, int)| #[trigger] made_at(a, t) == made_at(b, t),
    ensures
        !calendar::precedes(a.last().timestamp@, b.last().timestamp@),
{
    let t = b.last().timestamp@;
    lemma_made_at_last(b, t);
    let x = made_at(a, t).last();
    assert(made_at(a, t) == made_at(b, t));
    assert(made_at(a, t).contains(x)) by {
        assert(made_at(a, t)[made_at(a, t).len() - 1] == x);
    }
    a.lemma_filter_contains_rev(dated(t), x);
    let k = choose|k: int| 0 <= k < a.len() && a[k] == x;
    assert(x.timestamp@ == t) by {
        assert(x == b.last());
    }
}

/// Commits that are in order stay as they are.
pub proof fn lemma_sorted_stays(out: Seq<CommitRecord>, input: Seq<CommitRecord>)
    requires
        in_order(input),
        is_stable_sort(out, input),
    ensures
        out == input,
{
    lemma_stable_sort_unique(out, input, input);
}

/// Sorting neither adds nor drops a commit.
pub proof fn lemma_sort_keeps(out: Seq<CommitRecord>, input: Seq<CommitRecord>)
    requires
        is_stable_sort(out, input),
    ensures
        out.len() == input.len(),
        forall|c: CommitRecord| #[trigger] out.contains(c) <==> input.contains(c),
{
    vstd::seq_lib::to_multiset_len(out);
    vstd::seq_lib::to_multiset_len(input);
    assert forall|c: CommitRecord| #[trigger] out.contains(c) <==> input.contains(c) by {
        vstd::seq_lib::to_multiset_contains(out, c);
        vstd::seq_lib::to_multiset_contains(input, c);
    }
}

/// The predicate of commits that were made at or after `since` and before `until`.
pub open spec fn in_range(since: (int, int), until: (int, int)) -> spec_fn(CommitRecord) -> bool {
    |c: CommitRecord|
        !calendar::precedes(c.timestamp@, since) && calendar::precedes(c.timestamp@, until)
}

/// The commits that were made at or after `since` and before `until`, in their order.
pub open spec fn within(
    commits: Seq<CommitRecord>,
    since: (int, int),
    until: (int, int),
) -> Seq<CommitRecord> {
    commits.filter(in_range(since, until))
}

/// Keeps the commits that were made at or after `since` and before `until`, in their order.
pub fn keep_in_range(commits: Vec<CommitRecord>, since: &Timestamp, until: &Timestamp) -> (r: Vec<
    CommitRecord,
>)
    ensures
        r@ == within(commits@, since@, until@),
        forall|c: CommitRecord| #[trigger]
            r@.contains(c) <==> commits@.contains(c) && (since@.0 < c.timestamp@.0 || (since@.0
                == c.timestamp@.0 && since@.1 <= c.timestamp@.1)) && (c.timestamp@.0 < until@.0 || (
            c.timestamp@.0 == until@.0 && c.timestamp@.1 < until@.1)),
{
    let mut r: Vec<CommitRecord> = Vec::new();
    proof {
        Seq::<CommitRecord>::empty().lemma_filter_len(in_range(since@, until@));
        assert(commits@.take(0) =~= seq![]);
        assert(within(commits@.take(0), since@, until@) =~= seq![]);
    }
    for commit in it: commits
        invariant
            it.seq() == commits@,
            r@ == within(commits@.take(it.index()), since@, until@),
    {
        proof {
            let upto = commits@.take(it.index());
            assert(commits@.take(it.index() + 1) =~= upto.push(commit));
            upto.lemma_filter_push(commit, in_range(since@, until@));
        }
        if !commit.timestamp.before(since) && commit.timestamp.before(until) {
            r.push(commit);
        }
    }
    assert(commits@.take(commits@.len() as int) =~= commits@);
    proof {
        lemma_within(commits@, since@, until@);
    }
    r
}

/// What is kept of a range: every commit lies in it, none that lies in it is dropped, and what was
/// in the order of time still is.
pub proof fn lemma_within(commits: Seq<CommitRecord>, since: (int, int), until: (int, int))
    ensures
        forall|i: int|
            0 <= i < within(commits, since, until).len() ==> !calendar::precedes(
                (#[trigger] within(commits, since, until)[i]).timestamp@,
                since,
            ) && calendar::precedes(within(commits, since, until)[i].timestamp@, until),
        forall|c: CommitRecord| #[trigger]
            within(commits, since, until).contains(c) <==> commits.contains(c) && in_range(
                since,
                until,
            )(c),
        in_order(commits) ==> in_order(within(commits, since, until)),
    decreases commits.len(),
{
    let p = in_range(since, until);
    let kept = within(commits, since, until);
    if commits.len() == 0 {
        commits.lemma_filter_len(p);
    } else {
        let front = commits.drop_last();
        let last = commits.last();
        lemma_within(front, since, until);
        front.lemma_filter_push(last, p);
        assert(commits =~= front.push(last));
        let before = within(front, since, until);
        assert(kept == if p(last) {
            before.push(last)
        } else {
            before
        });
        assert forall|c: CommitRecord| #[trigger] kept.contains(c) <==> commits.contains(c) && p(
            c,
        ) by {
            if kept.contains(c) {
                let i = choose|i: int| 0 <= i < kept.len() && kept[i] == c;
                if i < before.len() {
                    assert(before[i] == c);
                    assert(before.contains(c));
                    let k = choose|k: int| 0 <= k < front.len() && front[k] == c;
                    assert(commits[k] == c);
                } else {
                    assert(commits[commits.len() - 1] == c);
                }
            }
            if commits.contains(c) && p(c) {
                let k = choose|k: int| 0 <= k < commits.len() && commits[k] == c;
                if k < front.len() {
                    assert(front[k] == c);
                    assert(before.contains(c));
                    let i = choose|i: int| 0 <= i < before.len() && before[i] == c;
                    assert(kept[i] == c);
                } else {
                    assert(kept[kept.len() - 1] == c);
                }
            }
        }
        if in_order(commits) {
            assert forall|i: int, j: int| 0 <= i < j < kept.len() implies !calendar::precedes(
                (#[trigger] kept[j]).timestamp@,
                (#[trigger] kept[i]).timestamp@,
            ) by {
                assert(in_order(front));
                assert(kept[i] == before[i]);
                if j < before.len() {
                    assert(kept[j] == before[j]);
                } else {
                    assert(before.contains(before[i]));
                    let k = choose|k: int| 0 <= k < front.len() && front[k] == before[i];
                    assert(commits[k] == kept[i]);
                    assert(commits[commits.len() - 1] == kept[j]);
                }
            }
        }
    }
}

/// A commit is kept of a range if and only if it was made at or after its start and before its end,
/// and those that are kept stay in their order, as often as they come: one more commit is added at
/// the end where it lies in the range, and changes nothing where it does not.
pub proof fn lemma_range_is(
    commits: Seq<CommitRecord>,
    commit: CommitRecord,
    since: (int, int),
    until: (int, int),
)
    ensures
        within(Seq::<CommitRecord>::empty(), since, until) == Seq::<CommitRecord>::empty(),
        within(commits.push(commit), since, until) == if !calendar::precedes(
            commit.timestamp@,
            since,
        ) && calendar::precedes(commit.timestamp@, until) {
            within(commits, since, until).push(commit)
        } else {
            within(commits, since, until)
        },
        forall|c: CommitRecord| #[trigger]
            within(commits, since, until).contains(c) <==> commits.contains(c)
                && !calendar::precedes(c.timestamp@, since) && calendar::precedes(
                c.timestamp@,
                until,
            ),
        forall|c: CommitRecord| #[trigger]
            within(commits, since, until).contains(c) <==> commits.contains(c) && (since.0
                < c.timestamp@.0 || (since.0 == c.timestamp@.0 && since.1 <= c.timestamp@.1)) && (
            c.timestamp@.0 < until.0 || (c.timestamp@.0 == until.0 && c.timestamp@.1 < until.1)),
{
    Seq::<CommitRecord>::empty().lemma_filter_len(in_range(since, until));
    commits.lemma_filter_push(commit, in_range(since, until));
    lemma_within(commits, since, until);
}

/// Two ranges that meet keep together what the whole range keeps: no commit is lost between them.
pub proof fn lemma_ranges_meet(
    commits: Seq<CommitRecord>,
    since: (int, int),
    middle: (int, int),
    until: (int, int),
)
    requires
        !calendar::precedes(middle, since),
        !calendar::precedes(until, middle),
    ensures
        within(commits, since, until).len() == within(commits, since, middle).len() + within(
            commits,
            middle,
            until,
        ).len(),
    decreases commits.len(),
{
    if commits.len() == 0 {
        lemma_range_is(commits, arbitrary(), since, until);
        lemma_range_is(commits, arbitrary(), since, middle);
        lemma_range_is(commits, arbitrary(), middle, until);
        assert(commits =~= Seq::<CommitRecord>::empty());
    } else {
        let front = commits.drop_last();
        lemma_ranges_meet(front, since, middle, until);
        lemma_range_is(front, commits.last(), since, until);
        lemma_range_is(front, commits.last(), since, middle);
        lemma_range_is(front, commits.last(), middle, until);
        assert(commits =~= front.push(commits.last()));
    }
}

/// The commits of an instant are those with that time, in their order.
pub proof fn lemma_made_at_is(s: Seq<CommitRecord>, c: CommitRecord, t: (int, int))
    ensures
        made_at(Seq::<CommitRecord>::empty(), t) == Seq::<CommitRecord>::empty(),
        made_at(s.push(c), t) == if c.timestamp@.0 == t.0 && c.timestamp@.1 == t.1 {
            made_at(s, t).push(c)
        } else {
            made_at(s, t)
        },
{
    Seq::<CommitRecord>::empty().lemma_filter_len(dated(t));
    s.lemma_filter_push(c, dated(t));
}

/// A sort is in the order of time, on seconds and nanoseconds, has the commits that it was given,
/// and keeps the order of those of one instant.
pub proof fn lemma_sort_is(out: Seq<CommitRecord>, input: Seq<CommitRecord>)
    requires
        is_stable_sort(out, input),
    ensures
        forall|i: int, j: int|
            0 <= i < j < out.len() ==> (#[trigger] out[i]).timestamp@.0 < (
            #[trigger] out[j]).timestamp@.0 || (out[i].timestamp@.0 == out[j].timestamp@.0
                && out[i].timestamp@.1 <= out[j].timestamp@.1),
        out.to_multiset() == input.to_multiset(),
        forall|t: (int, int)| #[trigger] made_at(out, t) == made_at(input, t),
{
}

} // verus!
