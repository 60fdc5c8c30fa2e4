use vstd::prelude::*;
use crate::naming::{basename, entry_name, lemma_basename_no_separator};
use crate::payload::Payload;
use crate::zipio::{
    as_records, ends_as_directory, entries_small, failure_of, finish_writer, new_writer, start_entry, write_entry_data,
    written_entries, zip_open, ArchiveWriter, ZipFailure, LARGE_ENTRY_BYTES, MAX_ENTRY_NAME_CHARS,
};

verus! {

/// Whether a later name of `names` equals the one at `j`.
pub open spec fn superseded(names: Seq<Seq<char>>, j: int) -> bool {
    exists|k: int| j < k < names.len() && names[k] == names[j]
}

/// Whether `r` lists, in increasing order, exactly the indices of `names` that no
/// later equal name supersedes.
pub open spec fn is_kept_list(r: Seq<usize>, names: Seq<Seq<char>>) -> bool {
    &&& forall|m: int| 0 <= m < r.len() ==> #[trigger] r[m] < names.len()
    &&& forall|m1: int, m2: int| 0 <= m1 < m2 < r.len() ==> r[m1] < r[m2]
    &&& forall|j: int|
        0 <= j < names.len() ==> (!superseded(names, j) <==> exists|m: int| 0 <= m < r.len() && #[trigger] r[m] == j)
}

pub open spec fn strings_view(v: Seq<String>) -> Seq<Seq<char>> {
    v.map_values(|s: String| s@)
}

/// The positions of `names` that stay when a later equal name replaces an earlier
/// one: each name's last occurrence, in order.
pub fn kept_entries(names: &Vec<String>) -> (r: Vec<usize>)
    ensures
        is_kept_list(r@, strings_view(names@)),
{
    let ghost ns = strings_view(names@);
    let n = names.len();
    let mut r: Vec<usize> = Vec::new();
    let mut j: usize = 0;
    while j < n
        invariant
            n == names@.len() == ns.len(),
            ns == strings_view(names@),
            j <= n,
            forall|m: int| 0 <= m < r@.len() ==> #[trigger] r@[m] < j,
            forall|m1: int, m2: int| 0 <= m1 < m2 < r@.len() ==> r@[m1] < r@[m2],
            forall|i: int|
                0 <= i < j ==> (!superseded(ns, i) <==> exists|m: int| 0 <= m < r@.len() && #[trigger] r@[m] == i),
        decreases n - j,
    {
        let mut later = false;
        let mut k: usize = j + 1;
        while k < n
            invariant
                n == names@.len() == ns.len(),
                ns == strings_view(names@),
                j < n,
                j + 1 <= k <= n,
                later <==> exists|q: int| j < q < k && ns[q] == ns[j as int],
            decreases n - k,
        {
            let same = names[k] == names[j];
            assert(ns[k as int] == names@[k as int]@ && ns[j as int] == names@[j as int]@);
            if same {
                later = true;
            }
            assert(later <==> exists|q: int| j < q < k + 1 && ns[q] == ns[j as int]) by {
                if same {
                    assert(ns[k as int] == ns[j as int]);
                }
                if exists|q: int| j < q < k + 1 && ns[q] == ns[j as int] {
                    let q = choose|q: int| j < q < k + 1 && ns[q] == ns[j as int];
                    if q == k {
                        assert(same);
                    }
                }
            }
            k = k + 1;
        }
        let ghost before = r@;
        if !later {
            r.push(j);
            assert(r@[before.len() as int] == j);
        }
        assert forall|i: int|
            0 <= i < j + 1 implies (!superseded(ns, i) <==> exists|m: int| 0 <= m < r@.len() && #[trigger] r@[m] == i) by {
            if i < j {
                if exists|m: int| 0 <= m < before.len() && #[trigger] before[m] == i {
                    let m = choose|m: int| 0 <= m < before.len() && #[trigger] before[m] == i;
                    assert(r@[m] == i);
                }
                if exists|m: int| 0 <= m < r@.len() && #[trigger] r@[m] == i {
                    let m = choose|m: int| 0 <= m < r@.len() && #[trigger] r@[m] == i;
                    assert(m < before.len());
                    assert(before[m] == i);
                }
            } else {
                if !later {
                    assert(r@[before.len() as int] == j);
                } else {
                    assert forall|m: int| 0 <= m < r@.len() implies #[trigger] r@[m] != i by {
                        assert(before[m] < j);
                    }
                }
            }
        }
        j = j + 1;
    }
    r
}

/// Why an output archive could not be built.
#[derive(Clone, Copy, Debug, PartialEq, Eq, Structural)]
pub enum WriteError {
    /// An entry could not be started.
    Start(ZipFailure),
    /// An entry's contents could not be written.
    Data(ZipFailure),
    /// The archive could not be finished.
    Finish(ZipFailure),
}

/// The names that the payloads of `group` are stored under, in order.
pub fn entry_names(group: &Vec<Payload>) -> (r: Vec<String>)
    ensures
        r@.len() == group@.len(),
        forall|j: int| 0 <= j < group@.len() ==> #[trigger] r@[j]@ == basename(group@[j].name@),
{
    let mut r: Vec<String> = Vec::new();
    let mut j: usize = 0;
    while j < group.len()
        invariant
            j <= group@.len(),
            r@.len() == j,
            forall|i: int| 0 <= i < j ==> #[trigger] r@[i]@ == basename(group@[i].name@),
        decreases group@.len() - j,
    {
        r.push(entry_name(group[j].name.as_str()));
        j = j + 1;
    }
    r
}

/// The base names of the payloads' entry names.
pub open spec fn basenames(group: Seq<Payload>) -> Seq<Seq<char>> {
    group.map_values(|p: Payload| basename(p.name@))
}

/// The entries that the kept positions `kept` of `group` make: base name and bytes.
pub open spec fn planned(group: Seq<Payload>, kept: Seq<usize>) -> Seq<(Seq<char>, Seq<u8>)> {
    kept.map_values(|j: usize| (basename(group[j as int].name@), group[j as int].data@))
}

/// Whether every payload of `group` fits the writer's limits: a base name of at most
/// `MAX_ENTRY_NAME_CHARS` characters and fewer than `LARGE_ENTRY_BYTES` bytes.
pub open spec fn fits_limits(group: Seq<Payload>) -> bool {
    forall|j: int|
        0 <= j < group.len() ==> basename((#[trigger] group[j]).name@).len() <= MAX_ENTRY_NAME_CHARS
            && group[j].data@.len() < LARGE_ENTRY_BYTES
}

/// Kept positions name pairwise different base names.
proof fn lemma_kept_distinct(kept: Seq<usize>, names: Seq<Seq<char>>)
    requires
        is_kept_list(kept, names),
    ensures
        forall|m1: int, m2: int|
            0 <= m1 < kept.len() && 0 <= m2 < kept.len() && m1 != m2 ==> names[kept[m1] as int] != names[kept[m2] as int],
{
    assert forall|m1: int, m2: int|
        0 <= m1 < kept.len() && 0 <= m2 < kept.len() && m1 != m2 implies names[kept[m1] as int] != names[kept[m2] as int] by {
        let (a, b) = if m1 < m2 { (m1, m2) } else { (m2, m1) };
        assert(kept[a] < kept[b]);
        if names[kept[a] as int] == names[kept[b] as int] {
            assert(superseded(names, kept[a] as int));
            assert(kept[a] < names.len());
            assert(!superseded(names, kept[a] as int));
        }
    }
}

/// Adds the payloads of `group` to `w`, each under its base name and in group
/// order; where base names repeat, only the last such payload is added.
pub fn pack_group(w: &mut ArchiveWriter, group: &Vec<Payload>) -> (r: Result<(), WriteError>)
    ensures
        r is Ok ==> exists|kept: Seq<usize>|
            is_kept_list(kept, basenames(group@))
                && written_entries(*final(w)) == written_entries(*old(w)) + planned(group@, kept),
        fits_limits(group@) && entries_small(written_entries(*old(w))) && (forall|k: int, j: int|
            0 <= k < written_entries(*old(w)).len() && 0 <= j < group@.len()
                ==> (#[trigger] written_entries(*old(w))[k]).0 != basename((#[trigger] group@[j]).name@)) ==> r is Ok,
{
    let names = entry_names(group);
    let kept = kept_entries(&names);
    assert(strings_view(names@) =~= basenames(group@));
    let ghost fresh = fits_limits(group@) && entries_small(written_entries(*old(w))) && (forall|k: int, j: int|
        0 <= k < written_entries(*old(w)).len() && 0 <= j < group@.len()
            ==> (#[trigger] written_entries(*old(w))[k]).0 != basename((#[trigger] group@[j]).name@));
    proof {
        lemma_kept_distinct(kept@, strings_view(names@));
    }
    let mut m: usize = 0;
    while m < kept.len()
        invariant
            names@.len() == group@.len(),
            strings_view(names@) == basenames(group@),
            forall|j: int| 0 <= j < group@.len() ==> #[trigger] names@[j]@ == basename(group@[j].name@),
            is_kept_list(kept@, strings_view(names@)),
            m <= kept@.len(),
            written_entries(*w) == written_entries(*old(w)) + planned(group@, kept@.take(m as int)),
            fresh ==> entries_small(written_entries(*w)),
            fresh == (fits_limits(group@) && entries_small(written_entries(*old(w))) && (forall|k: int, j: int|
                0 <= k < written_entries(*old(w)).len() && 0 <= j < group@.len()
                    ==> (#[trigger] written_entries(*old(w))[k]).0 != basename((#[trigger] group@[j]).name@))),
            forall|m1: int, m2: int|
                0 <= m1 < kept@.len() && 0 <= m2 < kept@.len() && m1 != m2
                    ==> strings_view(names@)[kept@[m1] as int] != strings_view(names@)[kept@[m2] as int],
        decreases kept@.len() - m,
    {
        let j = kept[m];
        let ghost before = written_entries(*w);
        proof {
            if fresh {
                let o = written_entries(*old(w));
                assert forall|k: int| 0 <= k < before.len() implies (#[trigger] before[k]).0 != names@[j as int]@ by {
                    assert(names@[j as int]@ == basename(group@[j as int].name@));
                    if k < o.len() {
                        assert(before[k] == o[k]);
                    } else {
                        let mm = k - o.len();
                        assert(before[k] == planned(group@, kept@.take(m as int))[mm]);
                        assert(kept@.take(m as int)[mm] == kept@[mm]);
                        assert(strings_view(names@)[kept@[mm] as int] != strings_view(names@)[kept@[m as int] as int]);
                    }
                }
            }
        }
        if let Err(e) = start_entry(w, names[j].as_str()) {
            return Err(WriteError::Start(failure_of(e)));
        }
        if let Err(e) = write_entry_data(w, group[j].data.as_slice()) {
            return Err(WriteError::Data(failure_of(e)));
        }
        proof {
            if fresh {
                assert(group@[j as int].data@.len() < LARGE_ENTRY_BYTES);
                assert(entries_small(written_entries(*w)));
            }
            assert(kept@.take(m + 1) =~= kept@.take(m as int).push(j));
            assert(planned(group@, kept@.take(m + 1)) =~= planned(group@, kept@.take(m as int)).push(
                (basename(group@[j as int].name@), group@[j as int].data@),
            ));
            assert(Seq::<u8>::empty() + group@[j as int].data@ =~= group@[j as int].data@);
            assert(written_entries(*w) =~= written_entries(*old(w)) + planned(group@, kept@.take(m + 1)));
        }
        m = m + 1;
    }
    assert(kept@.take(m as int) =~= kept@);
    Ok(())
}

/// Builds a zip archive in memory that holds the payloads of `group`, each under
/// its base name, in group order, with its bytes unchanged; where base names
/// repeat, only the last such payload is stored. The bytes are handed back only
/// once the archive is complete; any failure on the way is an error.
pub fn build_archive(group: &Vec<Payload>) -> (r: Result<Vec<u8>, WriteError>)
    ensures
        r is Ok ==> exists|kept: Seq<usize>|
            is_kept_list(kept, basenames(group@)) && zip_open(r->Ok_0@) == Some(as_records(planned(group@, kept))),
        fits_limits(group@) ==> r is Ok,
{
    let mut writer = new_writer();
    let packed = pack_group(&mut writer, group);
    if let Err(e) = packed {
        return Err(e);
    }
    let ghost kept = choose|kept: Seq<usize>|
        is_kept_list(kept, basenames(group@)) && written_entries(writer) == Seq::<(Seq<char>, Seq<u8>)>::empty()
            + planned(group@, kept);
    proof {
        let es = written_entries(writer);
        assert(es =~= planned(group@, kept));
        if fits_limits(group@) {
            assert forall|k: int| 0 <= k < es.len() implies (#[trigger] es[k]).1.len() < LARGE_ENTRY_BYTES by {
                assert(es[k].1 == group@[kept[k] as int].data@);
            }
        }
        assert forall|k: int| 0 <= k < es.len() implies !ends_as_directory((#[trigger] es[k]).0) by {
            let j = kept[k] as int;
            lemma_basename_no_separator(group@[j].name@);
            let b = basename(group@[j].name@);
            if b.len() > 0 {
                assert(b.last() == b[b.len() - 1]);
            }
        }
    }
    match finish_writer(writer) {
        Ok(bytes) => Ok(bytes),
        Err(e) => Err(WriteError::Finish(failure_of(e))),
    }
}

} // verus!
