use vstd::prelude::*;
use crate::extract::{extraction, ExtractionView, Fault};
use crate::classify::{kind_of, EntryKind};
use crate::partition::{group_count, group_end, group_of, is_partition};
use crate::payload::{payloads_view, Payload};
use crate::sources::{reports_payloads, source_outcome, sources_payloads, SourceReport};
use crate::zipio::{as_records, zip_open};
use crate::extract::{step, walk};
use crate::naming::basename;
use crate::pack::{basenames, is_kept_list, planned};

verus! {

/// The groups joined one after the other.
pub open spec fn concat<T>(groups: Seq<Seq<T>>) -> Seq<T>
    decreases groups.len(),
{
    if groups.len() == 0 {
        seq![]
    } else {
        concat(groups.drop_last()) + groups.last()
    }
}

/// The sum of the groups' lengths.
pub open spec fn total_len<T>(groups: Seq<Seq<T>>) -> nat
    decreases groups.len(),
{
    if groups.len() == 0 {
        0
    } else {
        total_len(groups.drop_last()) + groups.last().len()
    }
}

proof fn lemma_group_count_bounds(n: nat, cap: nat)
    requires
        cap >= 1,
    ensures
        forall|i: int| 0 <= i < group_count(n, cap) ==> #[trigger] (i * cap) < n,
        group_count(n, cap) * cap >= n,
    decreases n,
{
    if n == 0 {
    } else if n <= cap {
        assert forall|i: int| 0 <= i < group_count(n, cap) implies #[trigger] (i * cap) < n by {
            assert(i == 0);
        }
        assert(group_count(n, cap) == 1);
        assert(1 * cap == cap);
    } else {
        let m = (n - cap) as nat;
        lemma_group_count_bounds(m, cap);
        let g = group_count(m, cap);
        assert forall|i: int| 0 <= i < group_count(n, cap) implies #[trigger] (i * cap) < n by {
            if i > 0 {
                assert((i - 1) * cap < m);
                assert(i * cap == (i - 1) * cap + cap) by (nonlinear_arith);
            }
        }
        assert((g + 1) * cap == g * cap + cap) by (nonlinear_arith);
        assert(group_count(n, cap) == g + 1);
    }
}

proof fn lemma_concat_len<T>(groups: Seq<Seq<T>>)
    ensures
        concat(groups).len() == total_len(groups),
    decreases groups.len(),
{
    if groups.len() > 0 {
        lemma_concat_len(groups.drop_last());
    }
}

/// Cutting into groups keeps every item, once and in order: the groups joined give
/// the items back.
pub proof fn lemma_groups_join<T>(groups: Seq<Seq<T>>, items: Seq<T>, cap: nat)
    requires
        cap >= 1,
        is_partition(groups, items, cap),
    ensures
        concat(groups) == items,
        total_len(groups) == items.len(),
{
    let n = items.len();
    lemma_group_count_bounds(n, cap);
    let g = groups.len();
    assert forall|k: int| 0 <= k <= g implies #[trigger] concat(groups.take(k)) == items.take(
        if k * cap < n { k * cap } else { n as int },
    ) by {
        lemma_prefix_join(groups, items, cap, k);
    }
    assert(groups.take(g as int) =~= groups);
    if g > 0 {
        assert(((g - 1) * cap) < n);
        assert((g - 1) * cap + cap == g * cap) by (nonlinear_arith);
    } else {
        assert(n == 0);
    }
    assert(items.take(n as int) =~= items);
    lemma_concat_len(groups);
}

proof fn lemma_prefix_join<T>(groups: Seq<Seq<T>>, items: Seq<T>, cap: nat, k: int)
    requires
        cap >= 1,
        is_partition(groups, items, cap),
        0 <= k <= groups.len(),
        forall|i: int| 0 <= i < group_count(items.len(), cap) ==> #[trigger] (i * cap) < items.len(),
    ensures
        concat(groups.take(k)) == items.take(if k * cap < items.len() { k * cap } else { items.len() as int }),
    decreases k,
{
    let n = items.len() as int;
    if k == 0 {
        assert(groups.take(0) =~= seq![]);
        assert(0 * cap == 0) by (nonlinear_arith);
        assert(items.take(0) =~= seq![]);
    } else {
        lemma_prefix_join(groups, items, cap, k - 1);
        assert(groups.take(k).drop_last() =~= groups.take(k - 1));
        assert(groups.take(k).last() == groups[k - 1]);
        assert(groups[k - 1] == group_of(items, cap, k - 1));
        assert(((k - 1) * cap) < n);
        assert((k - 1) * cap + cap == k * cap) by (nonlinear_arith);
        assert(items.take(((k - 1) * cap) as int) + items.subrange((k - 1) * cap, group_end(k - 1, cap as int, n))
            =~= items.take(if k * cap < n { k * cap } else { n }));
    }
}

/// Every group but the last holds exactly `cap` items; the last holds between one
/// and `cap`; there are no groups at all only when there are no items.
pub proof fn lemma_capacity_bound<T>(groups: Seq<Seq<T>>, items: Seq<T>, cap: nat)
    requires
        cap >= 1,
        is_partition(groups, items, cap),
    ensures
        forall|i: int| 0 <= i < groups.len() - 1 ==> (#[trigger] groups[i]).len() == cap,
        groups.len() > 0 ==> 1 <= groups.last().len() <= cap,
        groups.len() == 0 <==> items.len() == 0,
{
    let n = items.len() as int;
    lemma_group_count_bounds(items.len(), cap);
    assert forall|i: int| 0 <= i < groups.len() - 1 implies (#[trigger] groups[i]).len() == cap by {
        assert(((i + 1) * cap) < n);
        assert(i * cap + cap == (i + 1) * cap) by (nonlinear_arith);
        assert(groups[i] == group_of(items, cap, i));
    }
    if groups.len() > 0 {
        let l = groups.len() - 1;
        assert((l * cap) < n);
        assert(l * cap + cap == (l + 1) * cap) by (nonlinear_arith);
        assert(groups[l] == group_of(items, cap, l));
    }
    if n > 0 {
        assert(groups.len() > 0);
    }
}

proof fn lemma_reports_match_sources(reports: Seq<SourceReport>, sources: Seq<Option<Seq<u8>>>, depth: nat)
    requires
        reports.len() == sources.len(),
        forall|i: int| 0 <= i < reports.len() ==> #[trigger] reports[i]@ == source_outcome(sources[i], depth),
    ensures
        reports_payloads(reports) == sources_payloads(sources, depth),
    decreases reports.len(),
{
    if reports.len() > 0 {
        lemma_reports_match_sources(reports.drop_last(), sources.drop_last(), depth);
    }
}

/// Whatever order the sources were extracted in, the groups cut from the gathered
/// payloads, joined in index order, are the payloads of the sources extracted one
/// after the other; so every extracted payload lands in exactly one group.
pub proof fn lemma_order_preserved(
    sources: Seq<Option<Seq<u8>>>,
    depth: nat,
    reports: Seq<SourceReport>,
    gathered: Seq<Payload>,
    groups: Seq<Seq<Payload>>,
    cap: nat,
)
    requires
        cap >= 1,
        reports.len() == sources.len(),
        forall|i: int| 0 <= i < reports.len() ==> #[trigger] reports[i]@ == source_outcome(sources[i], depth),
        payloads_view(gathered) == reports_payloads(reports),
        is_partition(groups, gathered, cap),
    ensures
        payloads_view(concat(groups)) == sources_payloads(sources, depth),
        total_len(groups) == sources_payloads(sources, depth).len(),
{
    lemma_reports_match_sources(reports, sources, depth);
    lemma_groups_join(groups, gathered, cap);
}

/// Nested chain: archive `bs[i]` holds only the container `cn[i]`, whose bytes are
/// `bs[i + 1]`; the innermost archive holds only the payload `pn` with contents
/// `d`. Extraction with room for every level yields that payload once, and nothing
/// else.
pub proof fn lemma_nested_payload_once(bs: Seq<Seq<u8>>, cn: Seq<Seq<char>>, pn: Seq<char>, d: Seq<u8>, depth: nat)
    requires
        bs.len() >= 1,
        cn.len() == bs.len() - 1,
        depth >= cn.len(),
        forall|i: int| 0 <= i < cn.len() ==> kind_of(#[trigger] cn[i]) == EntryKind::Container,
        forall|i: int| 0 <= i < cn.len() ==> zip_open(#[trigger] bs[i]) == Some(seq![(Some((cn[i], false)), Some(bs[i + 1]))]),
        kind_of(pn) == EntryKind::Payload,
        zip_open(bs.last()) == Some(seq![(Some((pn, false)), Some(d))]),
    ensures
        extraction(bs[0], depth) == Ok::<ExtractionView, Fault>((seq![(pn, d)], seq![])),
{
    lemma_chain_from(bs, cn, pn, d, depth, 0);
}

proof fn lemma_chain_from(bs: Seq<Seq<u8>>, cn: Seq<Seq<char>>, pn: Seq<char>, d: Seq<u8>, depth: nat, i: int)
    requires
        bs.len() >= 1,
        cn.len() == bs.len() - 1,
        0 <= i <= cn.len(),
        depth + i >= cn.len(),
        forall|i: int| 0 <= i < cn.len() ==> kind_of(#[trigger] cn[i]) == EntryKind::Container,
        forall|i: int| 0 <= i < cn.len() ==> zip_open(#[trigger] bs[i]) == Some(seq![(Some((cn[i], false)), Some(bs[i + 1]))]),
        kind_of(pn) == EntryKind::Payload,
        zip_open(bs.last()) == Some(seq![(Some((pn, false)), Some(d))]),
    ensures
        extraction(bs[i], depth) == Ok::<ExtractionView, Fault>((seq![(pn, d)], seq![])),
    decreases cn.len() - i,
{
    let empty: ExtractionView = (seq![], seq![]);
    if i == cn.len() {
        assert(bs[i] == bs.last());
        let es = zip_open(bs[i])->Some_0;
        assert(crate::extract::walk(es, depth, 0) == Ok::<ExtractionView, Fault>(empty));
        assert(empty.0.push((pn, d)) =~= seq![(pn, d)]);
    } else {
        lemma_chain_from(bs, cn, pn, d, (depth - 1) as nat, i + 1);
        let es = zip_open(bs[i])->Some_0;
        assert(crate::extract::walk(es, depth, 0) == Ok::<ExtractionView, Fault>(empty));
        assert(empty.0 + seq![(pn, d)] =~= seq![(pn, d)]);
        assert(empty.1 + seq![] =~= seq![]);
    }
}

/// A source that cannot be read or extracted contributes nothing and reports its
/// failure, and leaves the payloads of the sources beside it as they are.
pub proof fn lemma_failure_isolated(a: Option<Seq<u8>>, b: Option<Seq<u8>>, c: Option<Seq<u8>>, depth: nat)
    requires
        b is None || extraction(b->Some_0, depth) is Err,
    ensures
        source_outcome(b, depth).2 is Some,
        sources_payloads(seq![a, b, c], depth) == source_outcome(a, depth).0 + source_outcome(c, depth).0,
{
    let s = seq![a, b, c];
    assert(s.drop_last() =~= seq![a, b]);
    assert(s.drop_last().drop_last() =~= seq![a]);
    assert(s.drop_last().drop_last().drop_last() =~= Seq::<Option<Seq<u8>>>::empty());
    assert(seq![a].drop_last() =~= Seq::<Option<Seq<u8>>>::empty());
    assert(seq![a].last() == a);
    assert(sources_payloads(Seq::<Option<Seq<u8>>>::empty(), depth) =~= seq![]);
    assert(sources_payloads(seq![a], depth) =~= source_outcome(a, depth).0);
    assert(source_outcome(b, depth).0 =~= seq![]);
    assert(sources_payloads(seq![a, b], depth) =~= source_outcome(a, depth).0);
}

/// Wrapping an archive `a` as the only entry `n` of another archive `w` changes
/// neither which payloads come out, nor how many times, nor their order, given
/// one more level of room.
pub proof fn lemma_wrapping_keeps_payloads(w: Seq<u8>, n: Seq<char>, a: Seq<u8>, depth: nat)
    requires
        kind_of(n) == EntryKind::Container,
        zip_open(w) == Some(seq![(Some((n, false)), Some(a))]),
        extraction(a, depth) is Ok,
    ensures
        extraction(w, depth + 1) == extraction(a, depth),
{
    let empty: ExtractionView = (seq![], seq![]);
    let es = zip_open(w)->Some_0;
    let inner = extraction(a, depth)->Ok_0;
    assert(walk(es, depth + 1, 0) == Ok::<ExtractionView, Fault>(empty));
    assert(empty.0 + inner.0 =~= inner.0);
    assert(empty.1 + inner.1 =~= inner.1);
}

/// Reading back an archive that holds the planned entries of `group` (what
/// `build_archive` writes) gives each kept payload under its base name with its
/// bytes unchanged, in group order, and no warning, where every base name still
/// names a payload.
pub proof fn lemma_round_trip(group: Seq<Payload>, kept: Seq<usize>, bytes: Seq<u8>, depth: nat)
    requires
        is_kept_list(kept, basenames(group)),
        zip_open(bytes) == Some(as_records(planned(group, kept))),
        forall|j: int| 0 <= j < group.len() ==> kind_of(basename((#[trigger] group[j]).name@)) == EntryKind::Payload,
    ensures
        extraction(bytes, depth) == Ok::<ExtractionView, Fault>((planned(group, kept), seq![])),
{
    let p = planned(group, kept);
    let es = as_records(p);
    lemma_round_trip_prefix(group, kept, depth, kept.len());
    assert(es.len() == kept.len());
    assert(p.take(es.len() as int) =~= p);
}

proof fn lemma_round_trip_prefix(group: Seq<Payload>, kept: Seq<usize>, depth: nat, i: nat)
    requires
        is_kept_list(kept, basenames(group)),
        forall|j: int| 0 <= j < group.len() ==> kind_of(basename((#[trigger] group[j]).name@)) == EntryKind::Payload,
        i <= kept.len(),
    ensures
        walk(as_records(planned(group, kept)), depth, i) == Ok::<ExtractionView, Fault>(
            (planned(group, kept).take(i as int), seq![]),
        ),
    decreases i,
{
    let p = planned(group, kept);
    if i == 0 {
        assert(p.take(0) =~= seq![]);
    } else {
        lemma_round_trip_prefix(group, kept, depth, (i - 1) as nat);
        let j = kept[i - 1] as int;
        assert(kept[i - 1] < basenames(group).len());
        assert(kind_of(basename(group[j].name@)) == EntryKind::Payload);
        let es = as_records(p);
        assert(p[i - 1] == (basename(group[j].name@), group[j].data@));
        assert(es[i - 1] == (Some((p[i - 1].0, false)), Some(p[i - 1].1)));
        let acc: ExtractionView = (p.take(i - 1), seq![]);
        assert(walk(es, depth, i) == step(acc, es[i - 1], (i - 1) as nat, depth));
        assert(step(acc, es[i - 1], (i - 1) as nat, depth) == Ok::<ExtractionView, Fault>((acc.0.push(p[i - 1]), acc.1)));
        assert(p.take(i as int) =~= p.take(i - 1).push(p[i - 1]));
    }
}

} // verus!
