use vstd::prelude::*;
use crate::classify::{classify, kind_of, EntryKind};
use crate::payload::{payloads_view, Payload};
use crate::zipio::{
    archive_entries, entry_contents, entry_count, entry_header, failure_of, open_archive,
    zip_open, EntryRecord, ZipFailure,
};

verus! {

/// Where extraction of one archive stopped.
#[derive(Clone, Copy, Debug, PartialEq, Eq, Structural)]
pub enum Fault {
    /// The archive itself could not be opened.
    Open,
    /// The entry at this index could not be read.
    Entry(usize),
    /// A nested archive lies deeper than the depth allowed.
    TooDeep,
}

/// Why an archive could not be extracted.
#[derive(Clone, Copy, Debug, PartialEq, Eq, Structural)]
pub enum ExtractError {
    /// The archive could not be opened.
    Open(ZipFailure),
    /// The entry at `index` could not be read.
    Entry { index: usize, cause: ZipFailure },
    /// A nested archive lies deeper than the depth allowed.
    TooDeep,
}

impl ExtractError {
    pub open spec fn fault(self) -> Fault {
        match self {
            ExtractError::Open(_) => Fault::Open,
            ExtractError::Entry { index, .. } => Fault::Entry(index),
            ExtractError::TooDeep => Fault::TooDeep,
        }
    }
}

/// A nested archive that was skipped: the entry's name and why.
#[derive(Clone, Debug)]
pub struct Warning {
    pub entry: String,
    pub error: ExtractError,
}

impl View for Warning {
    type V = (Seq<char>, Fault);

    open spec fn view(&self) -> (Seq<char>, Fault) {
        (self.entry@, self.error.fault())
    }
}

pub open spec fn warnings_view(v: Seq<Warning>) -> Seq<(Seq<char>, Fault)> {
    v.map_values(|w: Warning| w@)
}

/// The payloads of an archive, in order, and the nested archives skipped on the way.
#[derive(Clone, Debug)]
pub struct Extraction {
    pub payloads: Vec<Payload>,
    pub warnings: Vec<Warning>,
}

pub type ExtractionView = (Seq<(Seq<char>, Seq<u8>)>, Seq<(Seq<char>, Fault)>);

impl View for Extraction {
    type V = ExtractionView;

    open spec fn view(&self) -> ExtractionView {
        (payloads_view(self.payloads@), warnings_view(self.warnings@))
    }
}

/// What extraction of `bytes` yields, where nested archives may be opened `depth`
/// levels further down.
pub open spec fn extraction(bytes: Seq<u8>, depth: nat) -> Result<ExtractionView, Fault>
    decreases depth, 1nat, 0nat,
{
    match zip_open(bytes) {
        None => Err(Fault::Open),
        Some(es) => walk(es, depth, es.len()),
    }
}

/// What the first `n` entries of `es` yield.
pub open spec fn walk(es: Seq<EntryRecord>, depth: nat, n: nat) -> Result<ExtractionView, Fault>
    decreases depth, 0nat, n,
{
    if n == 0 || n > es.len() {
        Ok((seq![], seq![]))
    } else {
        match walk(es, depth, (n - 1) as nat) {
            Err(f) => Err(f),
            Ok(acc) => step(acc, es[n - 1], (n - 1) as nat, depth),
        }
    }
}

/// Adds entry `i`, read as `e`, to what the entries before it yielded.
pub open spec fn step(acc: ExtractionView, e: EntryRecord, i: nat, depth: nat) -> Result<ExtractionView, Fault>
    decreases depth, 0nat, 0nat,
{
    match e.0 {
        None => Err(Fault::Entry(i as usize)),
        Some(header) => {
            let name = header.0;
            if header.1 {
                Ok(acc)
            } else {
                match e.1 {
                    None => Err(Fault::Entry(i as usize)),
                    Some(data) => match kind_of(name) {
                        EntryKind::Container => if depth == 0 {
                            Ok((acc.0, acc.1.push((name, Fault::TooDeep))))
                        } else {
                            match extraction(data, (depth - 1) as nat) {
                                Ok(inner) => Ok((acc.0 + inner.0, acc.1 + inner.1)),
                                Err(f) => Ok((acc.0, acc.1.push((name, f)))),
                            }
                        },
                        EntryKind::Payload => Ok((acc.0.push((name, data)), acc.1)),
                        EntryKind::Ignore => Ok(acc),
                    },
                }
            }
        },
    }
}

/// Once the entries up to `i` have failed, no later entry changes the outcome.
proof fn lemma_walk_stops(es: Seq<EntryRecord>, depth: nat, i: nat, n: nat)
    requires
        i <= n <= es.len(),
        walk(es, depth, i) is Err,
    ensures
        walk(es, depth, n) == walk(es, depth, i),
    decreases n - i,
{
    if n > i {
        lemma_walk_stops(es, depth, i, (n - 1) as nat);
    }
}

/// Takes the payloads out of the archive `bytes`, unpacking nested archives up to
/// `max_depth` levels down, in entry order, each nested archive's payloads at its
/// place. A nested archive that cannot be read is skipped with a warning.
pub fn extract(bytes: Vec<u8>, max_depth: usize) -> (r: Result<Extraction, ExtractError>)
    ensures
        match r {
            Ok(x) => extraction(bytes@, max_depth as nat) == Ok::<ExtractionView, Fault>(x@),
            Err(e) => extraction(bytes@, max_depth as nat) == Err::<ExtractionView, Fault>(e.fault()),
        },
    decreases max_depth,
{
    let ghost src = bytes@;
    let mut archive = match open_archive(bytes) {
        Ok(a) => a,
        Err(e) => return Err(ExtractError::Open(failure_of(e))),
    };
    let ghost es = archive_entries(archive);
    let n = entry_count(&archive);
    let mut payloads: Vec<Payload> = Vec::new();
    let mut warnings: Vec<Warning> = Vec::new();
    let mut i: usize = 0;
    assert(payloads_view(payloads@) =~= seq![]);
    assert(warnings_view(warnings@) =~= seq![]);
    while i < n
        invariant
            src == bytes@,
            zip_open(src) == Some(es),
            archive_entries(archive) == es,
            n == es.len(),
            i <= n,
            walk(es, max_depth as nat, i as nat) == Ok::<ExtractionView, Fault>(
                (payloads_view(payloads@), warnings_view(warnings@)),
            ),
        decreases n - i,
    {
        let ghost acc = (payloads_view(payloads@), warnings_view(warnings@));
        assert(walk(es, max_depth as nat, (i + 1) as nat) == step(acc, es[i as int], i as nat, max_depth as nat));
        let (name, is_dir) = match entry_header(&archive, i) {
            Ok(h) => h,
            Err(e) => {
                proof {
                    lemma_walk_stops(es, max_depth as nat, (i + 1) as nat, n as nat);
                    assert(extraction(src, max_depth as nat) == walk(es, max_depth as nat, n as nat));
                }
                return Err(ExtractError::Entry { index: i, cause: failure_of(e) });
            },
        };
        if !is_dir {
            let data = match entry_contents(&mut archive, i) {
                Ok(d) => d,
                Err(e) => {
                    proof {
                        lemma_walk_stops(es, max_depth as nat, (i + 1) as nat, n as nat);
                        assert(extraction(src, max_depth as nat) == walk(es, max_depth as nat, n as nat));
                    }
                    return Err(ExtractError::Entry { index: i, cause: failure_of(e) });
                },
            };
            match classify(name.as_str()) {
                EntryKind::Container => {
                    if max_depth == 0 {
                        warnings.push(Warning { entry: name, error: ExtractError::TooDeep });
                        assert(warnings_view(warnings@) =~= acc.1.push((name@, Fault::TooDeep)));
                    } else {
                        match extract(data, max_depth - 1) {
                            Ok(inner) => {
                                let ghost got = inner@;
                                let mut inner = inner;
                                payloads.append(&mut inner.payloads);
                                warnings.append(&mut inner.warnings);
                                assert(payloads_view(payloads@) =~= acc.0 + got.0);
                                assert(warnings_view(warnings@) =~= acc.1 + got.1);
                            },
                            Err(e) => {
                                warnings.push(Warning { entry: name, error: e });
                                assert(warnings_view(warnings@) =~= acc.1.push((name@, e.fault())));
                            },
                        }
                    }
                },
                EntryKind::Payload => {
                    payloads.push(Payload { name, data });
                    assert(payloads_view(payloads@) =~= acc.0.push((name@, data@)));
                },
                EntryKind::Ignore => {},
            }
        }
        i = i + 1;
    }
    Ok(Extraction { payloads, warnings })
}

} // verus!
