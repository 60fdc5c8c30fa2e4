use vstd::prelude::*;

verus! {

/// Number of groups of at most `cap` items that `n` items fill.
pub open spec fn group_count(n: nat, cap: nat) -> nat
    recommends
        cap >= 1,
    decreases n,
{
    if cap == 0 || n == 0 {
        0
    } else if n <= cap {
        1
    } else {
        1 + group_count((n - cap) as nat, cap)
    }
}

/// End (exclusive) of group `i` of `n` items in groups of `cap`.
pub open spec fn group_end(i: int, cap: int, n: int) -> int {
    if (i + 1) * cap < n {
        (i + 1) * cap
    } else {
        n
    }
}

/// Group `i` of `items` split into groups of `cap`.
pub open spec fn group_of<T>(items: Seq<T>, cap: nat, i: int) -> Seq<T> {
    items.subrange(i * cap, group_end(i, cap as int, items.len() as int))
}

/// Whether `groups` is `items` cut, in order, into consecutive groups of `cap`.
pub open spec fn is_partition<T>(groups: Seq<Seq<T>>, items: Seq<T>, cap: nat) -> bool {
    &&& groups.len() == group_count(items.len(), cap)
    &&& forall|i: int| 0 <= i < groups.len() ==> #[trigger] groups[i] == group_of(items, cap, i)
}

pub open spec fn groups_view<T>(groups: Seq<Vec<T>>) -> Seq<Seq<T>> {
    groups.map_values(|g: Vec<T>| g@)
}

/// Number of groups that `n` items fill at `capacity` items per group: `n / capacity`
/// rounded up.
pub fn total_groups(n: usize, capacity: usize) -> (r: usize)
    requires
        capacity >= 1,
    ensures
        r == group_count(n as nat, capacity as nat),
{
    let q = n / capacity;
    proof {
        if n % capacity != 0 {
            assert(capacity > 1) by {
                if capacity == 1 {
                    assert(n % 1 == 0);
                }
            }
            assert(n > 0) by {
                if n == 0 {
                    vstd::arithmetic::div_mod::lemma_small_mod(0, capacity as nat);
                }
            }
            vstd::arithmetic::div_mod::lemma_div_is_strictly_smaller(n as int, capacity as int);
        }
    }
    let r = if n % capacity == 0 { q } else { q + 1 };
    proof {
        lemma_group_count_div(n as nat, capacity as nat);
    }
    r
}

proof fn lemma_group_count_div(n: nat, cap: nat)
    requires
        cap >= 1,
    ensures
        group_count(n, cap) == (if n % cap == 0 { n / cap } else { n / cap + 1 }),
    decreases n,
{
    if n == 0 {
    } else if n <= cap {
        if n == cap {
            vstd::arithmetic::div_mod::lemma_div_basics(cap as int);
            vstd::arithmetic::div_mod::lemma_mod_self_0(cap as int);
        } else {
            vstd::arithmetic::div_mod::lemma_basic_div_specific_divisor(cap as int);
            vstd::arithmetic::div_mod::lemma_small_mod(n, cap);
        }
    } else {
        let m = (n - cap) as nat;
        lemma_group_count_div(m, cap);
        vstd::arithmetic::div_mod::lemma_div_plus_one(m as int, cap as int);
        vstd::arithmetic::div_mod::lemma_mod_add_multiples_vanish(m as int, cap as int);
    }
}

/// Cuts `items` into consecutive groups of `capacity` items, in order; the last
/// group may be shorter.
pub fn partition<T>(items: Vec<T>, capacity: usize) -> (groups: Vec<Vec<T>>)
    requires
        capacity >= 1,
    ensures
        is_partition(groups_view(groups@), items@, capacity as nat),
{
    let ghost all = items@;
    let ghost n = all.len() as int;
    let ghost cap = capacity as int;
    let mut rest = items;
    let mut groups: Vec<Vec<T>> = Vec::new();
    let total = rest.len();
    let mut start: usize = 0;
    assert(0 == 0 * cap) by (nonlinear_arith);
    while rest.len() > 0
        invariant
            cap == capacity >= 1,
            n == all.len(),
            n == total,
            start <= n,
            rest@.len() > 0 ==> start == groups@.len() * cap,
            rest@ == all.subrange(start as int, n),
            groups@.len() + group_count(rest@.len() as nat, cap as nat) == group_count(n as nat, cap as nat),
            forall|i: int| 0 <= i < groups@.len() ==> #[trigger] groups@[i]@ == group_of(all, cap as nat, i),
        decreases rest.len(),
    {
        let k = groups.len();
        assert(rest@.len() == n - start);
        proof {
            assert((k + 1) * cap == k * cap + cap) by (nonlinear_arith);
        }
        if rest.len() > capacity {
            let tail = rest.split_off(capacity);
            assert(group_end(k as int, cap, n) == start + cap);
            assert(rest@ =~= group_of(all, cap as nat, k as int));
            groups.push(rest);
            rest = tail;
            start = start + capacity;
            assert(rest@ =~= all.subrange(start as int, n));
        } else {
            let last_len = rest.len();
            assert(group_end(k as int, cap, n) == n);
            assert(rest@ =~= group_of(all, cap as nat, k as int));
            groups.push(rest);
            rest = Vec::new();
            start = start + last_len;
            assert(rest@ =~= all.subrange(start as int, n));
        }
        assert(forall|i: int| 0 <= i < groups@.len() ==> #[trigger] groups@[i]@ == group_of(all, cap as nat, i));
    }
    assert forall|i: int| 0 <= i < groups@.len() implies #[trigger] groups_view(groups@)[i] == group_of(all, cap as nat, i) by {
        assert(groups@[i]@ == group_of(all, cap as nat, i));
    }
    groups
}

} // verus!
