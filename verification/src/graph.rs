//! The dependency graph, mathematically: name resolution, prerequisite
//! multiplicities, unmet-prerequisite counts, and acyclicity.
//!
//! Everything here is stated over `Seq<SystemV>`, the view of the descriptor
//! list; the index of a descriptor in that sequence is the task's identity.

use vstd::prelude::*;

use crate::system::SystemV;

verus! {

/// Some descriptor in `ss` carries `name`.
pub open spec fn resolves(ss: Seq<SystemV>, name: Seq<char>) -> bool {
    exists|i: int| 0 <= i < ss.len() && ss[i].name == name
}

/// `i` is the first index of `ss` whose descriptor carries `name`.
pub open spec fn is_first_match(ss: Seq<SystemV>, name: Seq<char>, i: int) -> bool {
    &&& 0 <= i < ss.len()
    &&& ss[i].name == name
    &&& forall|j: int| 0 <= j < i ==> ss[j].name != name
}

/// The task index `name` resolves to: the first index carrying that name.
/// Meaningful only when `resolves(ss, name)` holds.
pub open spec fn resolve(ss: Seq<SystemV>, name: Seq<char>) -> int {
    choose|i: int| is_first_match(ss, name, i)
}

/// Every prerequisite name of every descriptor resolves to some descriptor.
pub open spec fn resolves_all(ss: Seq<SystemV>) -> bool {
    forall|d: int, k: int|
        0 <= d < ss.len() && 0 <= k < ss[d].after.len() ==> resolves(ss, ss[d].after[k])
}

/// Task `p` is a prerequisite of task `d`: some entry of `d`'s `after` list
/// resolves to `p`.
pub open spec fn is_prereq(ss: Seq<SystemV>, p: int, d: int) -> bool {
    &&& 0 <= d < ss.len()
    &&& 0 <= p < ss.len()
    &&& exists|k: int| 0 <= k < ss[d].after.len() && resolve(ss, ss[d].after[k]) == p
}

/// `t` lists every task exactly once, prerequisites before their dependents.
pub open spec fn valid_topo(ss: Seq<SystemV>, t: Seq<int>) -> bool {
    &&& t.len() == ss.len()
    &&& forall|i: int| 0 <= i < t.len() ==> 0 <= #[trigger] t[i] < ss.len()
    &&& forall|x: int| 0 <= x < ss.len() ==> t.contains(x)
    &&& forall|i: int, j: int|
        0 <= i < t.len() && 0 <= j < t.len() && is_prereq(ss, t[j], t[i]) ==> j < i
}

/// The prerequisite relation admits a topological order.
pub open spec fn acyclic(ss: Seq<SystemV>) -> bool {
    exists|t: Seq<int>| valid_topo(ss, t)
}

/// How many of the first `b` tasks have no prerequisites.
pub open spec fn ready_upto(ss: Seq<SystemV>, b: int) -> int
    decreases b,
{
    if b <= 0 {
        0
    } else {
        ready_upto(ss, b - 1) + if ss[b - 1].after.len() == 0 {
            1int
        } else {
            0int
        }
    }
}

/// How many of the first `b` entries of `d`'s `after` list resolve to a task
/// not yet released under `rel` (the per-task released flags).
pub open spec fn unmet_upto(ss: Seq<SystemV>, rel: Seq<bool>, d: int, b: int) -> int
    decreases b,
{
    if b <= 0 {
        0
    } else {
        unmet_upto(ss, rel, d, b - 1) + if !rel[resolve(ss, ss[d].after[b - 1])] {
            1int
        } else {
            0int
        }
    }
}

/// The remaining-prerequisite count of task `d` under the released flags
/// `rel`: the number of `after` entries whose task has not released yet.
pub open spec fn unmet(ss: Seq<SystemV>, rel: Seq<bool>, d: int) -> int {
    unmet_upto(ss, rel, d, ss[d].after.len() as int)
}

/// How many of the first `b` entries of `d`'s `after` list resolve to `c`.
pub open spec fn occ_upto(ss: Seq<SystemV>, d: int, c: int, b: int) -> int
    decreases b,
{
    if b <= 0 {
        0
    } else {
        occ_upto(ss, d, c, b - 1) + if resolve(ss, ss[d].after[b - 1]) == c {
            1int
        } else {
            0int
        }
    }
}

/// With what multiplicity task `d` depends on task `c`: the number of
/// entries of `d`'s `after` list that resolve to `c`.
pub open spec fn occ(ss: Seq<SystemV>, d: int, c: int) -> int {
    occ_upto(ss, d, c, ss[d].after.len() as int)
}

/// How many entries of `s` equal `x`.
pub open spec fn count_eq(s: Seq<usize>, x: usize) -> int
    decreases s.len(),
{
    if s.len() == 0 {
        0
    } else {
        count_eq(s.drop_last(), x) + if s.last() == x {
            1int
        } else {
            0int
        }
    }
}

/// How many entries of `s` are `true`.
pub open spec fn count_true(s: Seq<bool>) -> int
    decreases s.len(),
{
    if s.len() == 0 {
        0
    } else {
        count_true(s.drop_last()) + if s.last() {
            1int
        } else {
            0int
        }
    }
}

/// Two first matches for the same name are the same index.
pub proof fn lemma_first_match_unique(ss: Seq<SystemV>, name: Seq<char>, i: int, j: int)
    requires
        is_first_match(ss, name, i),
        is_first_match(ss, name, j),
    ensures
        i == j,
{
    if i < j {
        assert(ss[i].name != name);
    }
    if j < i {
        assert(ss[j].name != name);
    }
}

proof fn lemma_first_match_below(ss: Seq<SystemV>, name: Seq<char>, w: int)
    requires
        0 <= w < ss.len(),
        ss[w].name == name,
    ensures
        exists|i: int| is_first_match(ss, name, i),
    decreases w,
{
    if forall|j: int| 0 <= j < w ==> ss[j].name != name {
        assert(is_first_match(ss, name, w));
    } else {
        let j = choose|j: int| 0 <= j < w && ss[j].name == name;
        lemma_first_match_below(ss, name, j);
    }
}

/// A name that resolves has a well-defined first match, and `resolve` is it.
pub proof fn lemma_resolve_is_first_match(ss: Seq<SystemV>, name: Seq<char>)
    requires
        resolves(ss, name),
    ensures
        is_first_match(ss, name, resolve(ss, name)),
{
    let w = choose|i: int| 0 <= i < ss.len() && ss[i].name == name;
    lemma_first_match_below(ss, name, w);
}

/// `count_true` is bounded by the length.
pub proof fn lemma_count_true_bounds(s: Seq<bool>)
    ensures
        0 <= count_true(s) <= s.len(),
    decreases s.len(),
{
    if s.len() > 0 {
        lemma_count_true_bounds(s.drop_last());
    }
}

/// Appending an entry adds one to the count when the entry is `true`.
pub proof fn lemma_count_true_push(s: Seq<bool>, b: bool)
    ensures
        count_true(s.push(b)) == count_true(s) + if b {
            1int
        } else {
            0int
        },
{
    assert(s.push(b).drop_last() =~= s);
}

/// Switching one entry from `false` to `true` adds one to the count.
pub proof fn lemma_count_true_update(s: Seq<bool>, i: int)
    requires
        0 <= i < s.len(),
        !s[i],
    ensures
        count_true(s.update(i, true)) == count_true(s) + 1,
    decreases s.len(),
{
    let t = s.update(i, true);
    if i == s.len() - 1 {
        assert(t.drop_last() =~= s.drop_last());
    } else {
        assert(t.drop_last() =~= s.drop_last().update(i, true));
        lemma_count_true_update(s.drop_last(), i);
    }
}

/// A pointwise-smaller flag sequence has a smaller count.
pub proof fn lemma_count_true_le(a: Seq<bool>, b: Seq<bool>)
    requires
        a.len() == b.len(),
        forall|i: int| 0 <= i < a.len() ==> (a[i] ==> b[i]),
    ensures
        count_true(a) <= count_true(b),
    decreases a.len(),
{
    if a.len() > 0 {
        lemma_count_true_le(a.drop_last(), b.drop_last());
    }
}

/// Pointwise-smaller flags with equal counts are pointwise equal.
pub proof fn lemma_count_true_eq_pointwise(a: Seq<bool>, b: Seq<bool>)
    requires
        a.len() == b.len(),
        forall|i: int| 0 <= i < a.len() ==> (a[i] ==> b[i]),
        count_true(a) == count_true(b),
    ensures
        forall|i: int| 0 <= i < a.len() ==> a[i] == b[i],
    decreases a.len(),
{
    if a.len() > 0 {
        lemma_count_true_le(a.drop_last(), b.drop_last());
        if a.last() == b.last() {
            lemma_count_true_eq_pointwise(a.drop_last(), b.drop_last());
            assert forall|i: int| 0 <= i < a.len() implies a[i] == b[i] by {
                if i < a.len() - 1 {
                    assert(a.drop_last()[i] == b.drop_last()[i]);
                }
            }
        } else {
            assert(false);
        }
    }
}

/// The count reaches the length exactly when every entry is `true`.
pub proof fn lemma_count_true_full(s: Seq<bool>)
    ensures
        count_true(s) == s.len() <==> (forall|i: int| 0 <= i < s.len() ==> s[i]),
    decreases s.len(),
{
    if s.len() > 0 {
        lemma_count_true_full(s.drop_last());
        lemma_count_true_bounds(s.drop_last());
        if count_true(s) == s.len() {
            assert forall|i: int| 0 <= i < s.len() implies s[i] by {
                if i < s.len() - 1 {
                    assert(s.drop_last()[i]);
                }
            }
        }
        if forall|i: int| 0 <= i < s.len() ==> s[i] {
            assert forall|i: int| 0 <= i < s.drop_last().len() implies s.drop_last()[i] by {
                assert(s.drop_last()[i] == s[i]);
            }
        }
    }
}

/// The count is zero exactly when every entry is `false`.
pub proof fn lemma_count_true_zero(s: Seq<bool>)
    requires
        forall|i: int| 0 <= i < s.len() ==> !s[i],
    ensures
        count_true(s) == 0,
    decreases s.len(),
{
    if s.len() > 0 {
        assert forall|i: int| 0 <= i < s.drop_last().len() implies !s.drop_last()[i] by {
            assert(s.drop_last()[i] == s[i]);
        }
        lemma_count_true_zero(s.drop_last());
    }
}

/// `count_eq` is bounded by the length.
pub proof fn lemma_count_eq_bounds(s: Seq<usize>, x: usize)
    ensures
        0 <= count_eq(s, x) <= s.len(),
    decreases s.len(),
{
    if s.len() > 0 {
        lemma_count_eq_bounds(s.drop_last(), x);
    }
}

/// Appending an entry adds one to the count of that entry's value.
pub proof fn lemma_count_eq_push(s: Seq<usize>, v: usize, x: usize)
    ensures
        count_eq(s.push(v), x) == count_eq(s, x) + if v == x {
            1int
        } else {
            0int
        },
{
    assert(s.push(v).drop_last() =~= s);
}

/// Extending a prefix by one entry adjusts the count by that entry.
pub proof fn lemma_count_eq_take_step(s: Seq<usize>, j: int, x: usize)
    requires
        0 <= j < s.len(),
    ensures
        count_eq(s.take(j + 1), x) == count_eq(s.take(j), x) + if s[j] == x {
            1int
        } else {
            0int
        },
{
    assert(s.take(j + 1).drop_last() =~= s.take(j));
    assert(s.take(j + 1).last() == s[j]);
}

/// A prefix never holds more copies of `x` than the whole sequence.
pub proof fn lemma_count_eq_take_le(s: Seq<usize>, j: int, x: usize)
    requires
        0 <= j <= s.len(),
    ensures
        count_eq(s.take(j), x) <= count_eq(s, x),
    decreases s.len() - j,
{
    if j == s.len() {
        assert(s.take(j) =~= s);
    } else {
        lemma_count_eq_take_step(s, j, x);
        lemma_count_eq_take_le(s, j + 1, x);
    }
}

/// `unmet_upto` is bounded by the prefix length.
pub proof fn lemma_unmet_bounds(ss: Seq<SystemV>, rel: Seq<bool>, d: int, b: int)
    ensures
        0 <= unmet_upto(ss, rel, d, b) <= if b <= 0 {
            0int
        } else {
            b
        },
    decreases b,
{
    if b > 0 {
        lemma_unmet_bounds(ss, rel, d, b - 1);
    }
}

/// Releasing task `c` lowers `d`'s unmet count by exactly the number of
/// `after` entries of `d` that resolve to `c`.
pub proof fn lemma_unmet_update(ss: Seq<SystemV>, rel: Seq<bool>, d: int, c: int, b: int)
    requires
        resolves_all(ss),
        0 <= d < ss.len(),
        rel.len() == ss.len(),
        0 <= c < ss.len(),
        !rel[c],
        0 <= b <= ss[d].after.len(),
    ensures
        unmet_upto(ss, rel.update(c, true), d, b) == unmet_upto(ss, rel, d, b) - occ_upto(
            ss,
            d,
            c,
            b,
        ),
    decreases b,
{
    if b > 0 {
        lemma_unmet_update(ss, rel, d, c, b - 1);
        lemma_resolve_is_first_match(ss, ss[d].after[b - 1]);
    }
}

/// An unmet count of zero over a prefix means every entry of that prefix is
/// released, and conversely.
pub proof fn lemma_unmet_zero_iff(ss: Seq<SystemV>, rel: Seq<bool>, d: int, b: int)
    requires
        0 <= b,
    ensures
        unmet_upto(ss, rel, d, b) == 0 <==> (forall|k: int|
            0 <= k < b ==> rel[resolve(ss, ss[d].after[k])]),
    decreases b,
{
    if b > 0 {
        lemma_unmet_zero_iff(ss, rel, d, b - 1);
        lemma_unmet_bounds(ss, rel, d, b - 1);
    }
}

/// With no task released, the unmet count of `d` is the full prefix length.
pub proof fn lemma_unmet_all_false(ss: Seq<SystemV>, rel: Seq<bool>, d: int, b: int)
    requires
        resolves_all(ss),
        0 <= d < ss.len(),
        rel.len() == ss.len(),
        forall|x: int| 0 <= x < rel.len() ==> !rel[x],
        0 <= b <= ss[d].after.len(),
    ensures
        unmet_upto(ss, rel, d, b) == b,
    decreases b,
{
    if b > 0 {
        lemma_unmet_all_false(ss, rel, d, b - 1);
        lemma_resolve_is_first_match(ss, ss[d].after[b - 1]);
    }
}

/// With every task released, the unmet count of `d` is zero.
pub proof fn lemma_unmet_all_true(ss: Seq<SystemV>, rel: Seq<bool>, d: int, b: int)
    requires
        resolves_all(ss),
        0 <= d < ss.len(),
        rel.len() == ss.len(),
        forall|x: int| 0 <= x < rel.len() ==> rel[x],
        0 <= b <= ss[d].after.len(),
    ensures
        unmet_upto(ss, rel, d, b) == 0,
    decreases b,
{
    if b > 0 {
        lemma_unmet_all_true(ss, rel, d, b - 1);
        lemma_resolve_is_first_match(ss, ss[d].after[b - 1]);
    }
}

/// A positive unmet count exhibits an unreleased prerequisite.
pub proof fn lemma_unmet_pos_witness(ss: Seq<SystemV>, rel: Seq<bool>, d: int)
    requires
        resolves_all(ss),
        0 <= d < ss.len(),
        rel.len() == ss.len(),
        unmet(ss, rel, d) > 0,
    ensures
        exists|p: int| is_prereq(ss, p, d) && !rel[p],
{
    lemma_unmet_zero_iff(ss, rel, d, ss[d].after.len() as int);
    let k = choose|k: int|
        0 <= k < ss[d].after.len() && !rel[resolve(ss, ss[d].after[k])];
    lemma_resolve_is_first_match(ss, ss[d].after[k]);
    let p = resolve(ss, ss[d].after[k]);
    assert(is_prereq(ss, p, d) && !rel[p]);
}

/// An unmet count of zero means every prerequisite of `d` is released.
pub proof fn lemma_unmet_zero_prereqs(ss: Seq<SystemV>, rel: Seq<bool>, d: int)
    requires
        resolves_all(ss),
        0 <= d < ss.len(),
        rel.len() == ss.len(),
        unmet(ss, rel, d) == 0,
    ensures
        forall|p: int| is_prereq(ss, p, d) ==> rel[p],
{
    lemma_unmet_zero_iff(ss, rel, d, ss[d].after.len() as int);
    assert forall|p: int| is_prereq(ss, p, d) implies rel[p] by {
        let k = choose|k: int|
            0 <= k < ss[d].after.len() && resolve(ss, ss[d].after[k]) == p;
        assert(rel[resolve(ss, ss[d].after[k])]);
    }
}

/// While `c` is unreleased, each `after` entry of `d` resolving to `c` is
/// unmet, so `c`'s multiplicity is bounded by the unmet count.
pub proof fn lemma_occ_le_unmet(ss: Seq<SystemV>, rel: Seq<bool>, d: int, c: int, b: int)
    requires
        !rel[c],
        0 <= b,
    ensures
        occ_upto(ss, d, c, b) <= unmet_upto(ss, rel, d, b),
    decreases b,
{
    if b > 0 {
        lemma_occ_le_unmet(ss, rel, d, c, b - 1);
    }
}

/// Appending a fresh entry keeps a sequence duplicate-free.
pub proof fn lemma_push_no_dup(s: Seq<usize>, v: usize)
    requires
        s.no_duplicates(),
        !s.contains(v),
    ensures
        s.push(v).no_duplicates(),
{
    let t = s.push(v);
    assert forall|i: int, j: int| 0 <= i < t.len() && 0 <= j < t.len() && i != j implies t[i]
        != t[j] by {
        if i < s.len() && j < s.len() {
            assert(t[i] == s[i] && t[j] == s[j]);
        } else if i < s.len() {
            assert(t[j] == v && t[i] == s[i]);
        } else {
            assert(t[i] == v && t[j] == s[j]);
        }
    }
}

proof fn lemma_closed_prefix(ss: Seq<SystemV>, t: Seq<int>, flag: Seq<bool>, k: int)
    requires
        resolves_all(ss),
        valid_topo(ss, t),
        flag.len() == ss.len(),
        forall|d: int|
            0 <= d < ss.len() && !flag[d] ==> exists|p: int| is_prereq(ss, p, d) && !flag[p],
        0 <= k <= t.len(),
    ensures
        forall|i: int| 0 <= i < k ==> flag[t[i]],
    decreases k,
{
    if k > 0 {
        lemma_closed_prefix(ss, t, flag, k - 1);
        let d = t[k - 1];
        if !flag[d] {
            let p = choose|p: int| is_prereq(ss, p, d) && !flag[p];
            let j = choose|j: int| 0 <= j < t.len() && t[j] == p;
            assert(t.contains(p));
            assert(is_prereq(ss, t[j], t[k - 1]));
            assert(j < k - 1);
            assert(flag[t[j]]);
            assert(false);
        }
        assert forall|i: int| 0 <= i < k implies flag[t[i]] by {
            if i < k - 1 {
                assert(flag[t[i]]);
            }
        }
    }
}

/// The closure law: if the graph has a topological order and every
/// still-unflagged task has a still-unflagged prerequisite, then every task
/// is flagged.  Instantiated with "spawned" flags, this says a stalled state
/// in which nothing unspawned is waiting only on unspawned tasks cannot
/// exist below the full task set.
pub proof fn lemma_closed_full(ss: Seq<SystemV>, t: Seq<int>, flag: Seq<bool>)
    requires
        resolves_all(ss),
        valid_topo(ss, t),
        flag.len() == ss.len(),
        forall|d: int|
            0 <= d < ss.len() && !flag[d] ==> exists|p: int| is_prereq(ss, p, d) && !flag[p],
    ensures
        forall|x: int| 0 <= x < ss.len() ==> flag[x],
{
    lemma_closed_prefix(ss, t, flag, t.len() as int);
    assert forall|x: int| 0 <= x < ss.len() implies flag[x] by {
        assert(t.contains(x));
        let i = choose|i: int| 0 <= i < t.len() && t[i] == x;
        assert(flag[t[i]]);
    }
}

} // verus!
