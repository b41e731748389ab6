use vstd::prelude::*;

verus! {

/// One user's membership record in one queue.
#[derive(Clone, Copy, Debug, PartialEq, Eq, Structural)]
pub struct Entry {
    pub user_id: u128,
    pub has_priority: bool,
    pub is_held: bool,
    /// Join time, in microseconds since the Unix epoch.
    pub joined_at: i64,
}

/// A member as reported to callers: the entry together with its 1-based rank.
#[derive(Clone, Copy, Debug, PartialEq, Eq, Structural)]
pub struct MemberInfo {
    pub id: u128,
    pub order: u64,
    pub has_priority: bool,
    pub is_held: bool,
    pub joined_at: i64,
}

/// The serving order: priority first, then earlier joiners, then the smaller
/// user id, so that two distinct users are never tied.
pub open spec fn ranks_before(a: Entry, b: Entry) -> bool {
    if a.has_priority != b.has_priority {
        a.has_priority
    } else if a.joined_at != b.joined_at {
        a.joined_at < b.joined_at
    } else {
        a.user_id < b.user_id
    }
}

/// No user holds two entries.
pub open spec fn distinct_users(s: Seq<Entry>) -> bool {
    forall|i: int, j: int|
        0 <= i < s.len() && 0 <= j < s.len() && i != j ==> #[trigger] s[i].user_id
            != #[trigger] s[j].user_id
}

/// The entry that a reported member stands for.
pub open spec fn entry_of(m: MemberInfo) -> Entry {
    Entry {
        user_id: m.id,
        has_priority: m.has_priority,
        is_held: m.is_held,
        joined_at: m.joined_at,
    }
}

/// Some member of `out` stands for `e`.
pub open spec fn member_at(out: Seq<MemberInfo>, e: Entry) -> bool {
    exists|i: int| 0 <= i < out.len() && #[trigger] entry_of(out[i]) == e
}

pub open spec fn strictly_sorted(s: Seq<Entry>) -> bool {
    forall|i: int, j: int| 0 <= i < j < s.len() ==> ranks_before(#[trigger] s[i], #[trigger] s[j])
}

/// `out` lists every entry of `entries` exactly once, in serving order, and
/// numbers them 1, 2, 3, ... from the front.
pub open spec fn ranked(entries: Seq<Entry>, out: Seq<MemberInfo>) -> bool {
    &&& out.len() == entries.len()
    &&& forall|i: int| 0 <= i < out.len() ==> (#[trigger] out[i]).order == i + 1
    &&& forall|i: int, j: int|
        0 <= i < j < out.len() ==> ranks_before(entry_of(#[trigger] out[i]), entry_of(#[trigger] out[j]))
    &&& forall|i: int| 0 <= i < out.len() ==> entries.contains(entry_of(#[trigger] out[i]))
    &&& forall|j: int| 0 <= j < entries.len() ==> #[trigger] member_at(out, entries[j])
}

proof fn lemma_ranks_before_order(a: Entry, b: Entry, c: Entry)
    ensures
        !ranks_before(a, a),
        ranks_before(a, b) ==> !ranks_before(b, a),
        ranks_before(a, b) && ranks_before(b, c) ==> ranks_before(a, c),
        a.user_id != b.user_id ==> ranks_before(a, b) || ranks_before(b, a),
{
}

fn precedes(a: &Entry, b: &Entry) -> (r: bool)
    ensures
        r == ranks_before(*a, *b),
{
    if a.has_priority != b.has_priority {
        a.has_priority
    } else if a.joined_at != b.joined_at {
        a.joined_at < b.joined_at
    } else {
        a.user_id < b.user_id
    }
}

/// Puts the entries in serving order.
fn sort_entries(entries: &Vec<Entry>) -> (out: Vec<Entry>)
    requires
        distinct_users(entries@),
    ensures
        out.len() == entries.len(),
        strictly_sorted(out@),
        forall|i: int| 0 <= i < out.len() ==> entries@.contains(#[trigger] out@[i]),
        forall|j: int| 0 <= j < entries.len() ==> out@.contains(#[trigger] entries@[j]),
{
    let mut out: Vec<Entry> = Vec::new();
    let n = entries.len();
    let mut k: usize = 0;
    while k < n
        invariant
            n == entries.len(),
            k <= n,
            out.len() == k,
            distinct_users(entries@),
            strictly_sorted(out@),
            forall|i: int|
                0 <= i < out.len() ==> entries@.subrange(0, k as int).contains(#[trigger] out@[i]),
            forall|j: int| 0 <= j < k ==> out@.contains(#[trigger] entries@[j]),
        decreases n - k,
    {
        let e = entries[k];
        let mut p: usize = 0;
        while p < out.len() && precedes(&out[p], &e)
            invariant
                p <= out.len(),
                forall|i: int| 0 <= i < p ==> ranks_before(#[trigger] out@[i], e),
            decreases out.len() - p,
        {
            p = p + 1;
        }
        let ghost old_out = out@;
        proof {
            if p < old_out.len() {
                let x = old_out[p as int];
                let j = choose|j: int| 0 <= j < k && entries@.subrange(0, k as int)[j] == x;
                assert(entries@.subrange(0, k as int).contains(x));
                assert(entries@[j] == x);
                lemma_ranks_before_order(e, x, e);
                assert(ranks_before(e, x));
                assert forall|i: int| p <= i < old_out.len() implies ranks_before(
                    e,
                    #[trigger] old_out[i],
                ) by {
                    if i > p {
                        lemma_ranks_before_order(e, x, old_out[i]);
                    }
                }
            }
        }
        out.insert(p, e);
        proof {
            let s = out@;
            assert(s == old_out.insert(p as int, e));
            assert forall|i: int, j: int| 0 <= i < j < s.len() implies ranks_before(
                #[trigger] s[i],
                #[trigger] s[j],
            ) by {
                if j < p {
                } else if i < p && j == p {
                } else if i < p {
                    lemma_ranks_before_order(s[i], e, s[j]);
                } else if i == p {
                } else {
                }
            }
            assert forall|i: int| 0 <= i < s.len() implies entries@.subrange(
                0,
                k + 1,
            ).contains(#[trigger] s[i]) by {
                if i == p {
                    assert(entries@.subrange(0, k + 1)[k as int] == e);
                } else {
                    let q = if i < p { i } else { i - 1 };
                    assert(s[i] == old_out[q]);
                    assert(entries@.subrange(0, k as int).contains(old_out[q]));
                    let j = choose|j: int|
                        0 <= j < k && entries@.subrange(0, k as int)[j] == old_out[q];
                    assert(entries@.subrange(0, k + 1)[j] == s[i]);
                }
            }
            assert forall|j: int| 0 <= j < k + 1 implies s.contains(#[trigger] entries@[j]) by {
                if j == k {
                    assert(s[p as int] == e);
                } else {
                    assert(old_out.contains(entries@[j]));
                    let i = choose|i: int| 0 <= i < old_out.len() && old_out[i] == entries@[j];
                    if i < p {
                        assert(s[i] == entries@[j]);
                    } else {
                        assert(s[i + 1] == entries@[j]);
                    }
                }
            }
        }
        k = k + 1;
    }
    proof {
        assert forall|i: int| 0 <= i < out.len() implies entries@.contains(#[trigger] out@[i]) by {
            assert(entries@.subrange(0, n as int) =~= entries@);
        }
    }
    out
}

/// Assigns every entry of one queue its serving position: priority entries
/// first, each class by join time, ties by user id; positions run 1, 2, 3, ...
/// without gaps. Held entries keep their place.
pub fn rank(entries: &Vec<Entry>) -> (out: Vec<MemberInfo>)
    requires
        distinct_users(entries@),
    ensures
        ranked(entries@, out@),
{
    let sorted = sort_entries(entries);
    let mut out: Vec<MemberInfo> = Vec::new();
    let n = sorted.len();
    let mut i: usize = 0;
    while i < n
        invariant
            n == sorted.len(),
            i <= n,
            out.len() == i,
            forall|t: int| 0 <= t < i ==> (#[trigger] out@[t]).order == t + 1,
            forall|t: int| 0 <= t < i ==> entry_of(#[trigger] out@[t]) == sorted@[t],
        decreases n - i,
    {
        let e = sorted[i];
        assert((i + 1) as u64 == i + 1);
        out.push(
            MemberInfo {
                id: e.user_id,
                order: (i + 1) as u64,
                has_priority: e.has_priority,
                is_held: e.is_held,
                joined_at: e.joined_at,
            },
        );
        i = i + 1;
    }
    proof {
        assert(out.len() == entries.len());
        assert forall|t: int, u: int| 0 <= t < u < out.len() implies ranks_before(
            entry_of(#[trigger] out@[t]),
            entry_of(#[trigger] out@[u]),
        ) by {
            assert(ranks_before(sorted@[t], sorted@[u]));
        }
        assert forall|t: int| 0 <= t < out.len() implies entries@.contains(
            entry_of(#[trigger] out@[t]),
        ) by {
            assert(entries@.contains(sorted@[t]));
        }
        assert forall|j: int| 0 <= j < entries.len() implies #[trigger] member_at(out@, entries@[j]) by {
            assert(sorted@.contains(entries@[j]));
            let t = choose|t: int| 0 <= t < sorted.len() && sorted@[t] == entries@[j];
            assert(entry_of(out@[t]) == entries@[j]);
        }
    }
    out
}

/// Some member of `out` stands at position `k`.
pub open spec fn holds_order(out: Seq<MemberInfo>, k: int) -> bool {
    exists|i: int| 0 <= i < out.len() && #[trigger] out[i].order == k
}

/// Positions are exactly 1..=N for N entries: each lies in that range, no two
/// members share one, and every value of the range is taken.
pub proof fn lemma_orders_cover(entries: Seq<Entry>, out: Seq<MemberInfo>)
    requires
        ranked(entries, out),
    ensures
        out.len() == entries.len(),
        forall|i: int| 0 <= i < out.len() ==> 1 <= #[trigger] out[i].order <= out.len(),
        forall|i: int, j: int|
            0 <= i < out.len() && 0 <= j < out.len() && i != j ==> #[trigger] out[i].order
                != #[trigger] out[j].order,
        forall|k: int| 1 <= k <= out.len() ==> #[trigger] holds_order(out, k),
{
    assert forall|k: int| 1 <= k <= out.len() implies #[trigger] holds_order(out, k) by {
        assert(out[k - 1].order == k);
    }
}

/// A priority member is served before every member without priority,
/// whenever either joined.
pub proof fn lemma_priority_first(entries: Seq<Entry>, out: Seq<MemberInfo>, i: int, j: int)
    requires
        ranked(entries, out),
        0 <= i < out.len(),
        0 <= j < out.len(),
        out[i].has_priority,
        !out[j].has_priority,
    ensures
        out[i].order < out[j].order,
{
    if j < i {
        assert(ranks_before(entry_of(out[j]), entry_of(out[i])));
    }
}

/// Within one priority class, the earlier joiner is served first.
pub proof fn lemma_earlier_joiner_first(entries: Seq<Entry>, out: Seq<MemberInfo>, i: int, j: int)
    requires
        ranked(entries, out),
        0 <= i < out.len(),
        0 <= j < out.len(),
        out[i].has_priority == out[j].has_priority,
        out[i].joined_at < out[j].joined_at,
    ensures
        out[i].order < out[j].order,
{
    if j < i {
        assert(ranks_before(entry_of(out[j]), entry_of(out[i])));
    }
}

proof fn lemma_same_prefix(entries: Seq<Entry>, a: Seq<MemberInfo>, b: Seq<MemberInfo>, n: int)
    requires
        ranked(entries, a),
        ranked(entries, b),
        0 <= n <= a.len(),
    ensures
        forall|t: int| 0 <= t < n ==> entry_of(#[trigger] a[t]) == entry_of(b[t]),
    decreases n,
{
    if n > 0 {
        let i = n - 1;
        lemma_same_prefix(entries, a, b, i);
        let x = entry_of(a[i]);
        assert(entries.contains(x));
        let jx = choose|jx: int| 0 <= jx < entries.len() && entries[jx] == x;
        assert(member_at(b, entries[jx]));
        let j = choose|j: int| 0 <= j < b.len() && #[trigger] entry_of(b[j]) == x;
        let y = entry_of(b[i]);
        assert(entries.contains(y));
        let jy = choose|jy: int| 0 <= jy < entries.len() && entries[jy] == y;
        assert(member_at(a, entries[jy]));
        let k = choose|k: int| 0 <= k < a.len() && #[trigger] entry_of(a[k]) == y;
        if j < i {
            assert(entry_of(a[j]) == entry_of(b[j]));
            assert(ranks_before(entry_of(a[j]), entry_of(a[i])));
            lemma_ranks_before_order(x, x, x);
        } else if j > i {
            if k < i {
                assert(entry_of(a[k]) == entry_of(b[k]));
                assert(ranks_before(entry_of(b[k]), entry_of(b[i])));
                lemma_ranks_before_order(y, y, y);
            } else if k == i {
                assert(ranks_before(entry_of(b[i]), entry_of(b[j])));
                lemma_ranks_before_order(x, x, x);
            } else {
                assert(ranks_before(entry_of(a[i]), entry_of(a[k])));
                assert(ranks_before(entry_of(b[i]), entry_of(b[j])));
                lemma_ranks_before_order(x, y, x);
            }
        }
    }
}

/// Ranking is a function of the entries alone: two rankings of the same
/// entries are identical.
pub proof fn lemma_ranking_deterministic(entries: Seq<Entry>, a: Seq<MemberInfo>, b: Seq<MemberInfo>)
    requires
        ranked(entries, a),
        ranked(entries, b),
    ensures
        a == b,
{
    lemma_same_prefix(entries, a, b, a.len() as int);
    assert forall|t: int| 0 <= t < a.len() implies #[trigger] a[t] == b[t] by {
        assert(entry_of(a[t]) == entry_of(b[t]));
    }
    assert(a =~= b);
}

} // verus!
