use vstd::prelude::*;
use crate::extract::{extract, extraction, warnings_view, ExtractError, Fault, Warning};
use crate::payload::{payloads_view, Payload};

verus! {

/// Why a source gave no payloads.
#[derive(Clone, Copy, Debug, PartialEq, Eq, Structural)]
pub enum SourceFailure {
    /// The source's file could not be read.
    Unreadable,
    /// The source's bytes are not an archive that can be extracted.
    Extract(ExtractError),
}

impl SourceFailure {
    /// `None` for an unreadable source, else where extraction stopped.
    pub open spec fn fault(self) -> Option<Fault> {
        match self {
            SourceFailure::Unreadable => None,
            SourceFailure::Extract(e) => Some(e.fault()),
        }
    }
}

/// What one source archive contributed.
#[derive(Clone, Debug)]
pub struct SourceReport {
    pub payloads: Vec<Payload>,
    pub warnings: Vec<Warning>,
    pub failure: Option<SourceFailure>,
}

pub type SourceView = (Seq<(Seq<char>, Seq<u8>)>, Seq<(Seq<char>, Fault)>, Option<Option<Fault>>);

impl View for SourceReport {
    type V = SourceView;

    open spec fn view(&self) -> SourceView {
        (
            payloads_view(self.payloads@),
            warnings_view(self.warnings@),
            match self.failure {
                None => None,
                Some(f) => Some(f.fault()),
            },
        )
    }
}

pub open spec fn bytes_of(contents: Option<Vec<u8>>) -> Option<Seq<u8>> {
    match contents {
        None => None,
        Some(v) => Some(v@),
    }
}

/// What a source contributes: nothing where it could not be read or extracted.
pub open spec fn source_outcome(contents: Option<Seq<u8>>, depth: nat) -> SourceView {
    match contents {
        None => (seq![], seq![], Some(None)),
        Some(bytes) => match extraction(bytes, depth) {
            Ok(x) => (x.0, x.1, None),
            Err(f) => (seq![], seq![], Some(Some(f))),
        },
    }
}

/// The payloads of the sources taken one after the other, in order.
pub open spec fn sources_payloads(sources: Seq<Option<Seq<u8>>>, depth: nat) -> Seq<(Seq<char>, Seq<u8>)>
    decreases sources.len(),
{
    if sources.len() == 0 {
        seq![]
    } else {
        sources_payloads(sources.drop_last(), depth) + source_outcome(sources.last(), depth).0
    }
}

/// The payloads of the reports, one report after the other.
pub open spec fn reports_payloads(reports: Seq<SourceReport>) -> Seq<(Seq<char>, Seq<u8>)>
    decreases reports.len(),
{
    if reports.len() == 0 {
        seq![]
    } else {
        reports_payloads(reports.drop_last()) + reports.last()@.0
    }
}

/// Extracts one source whose file was read into `contents` (`None`: it could not
/// be read). A source that fails contributes no payloads and says why.
pub fn extract_source(contents: Option<Vec<u8>>, max_depth: usize) -> (r: SourceReport)
    ensures
        r@ == source_outcome(bytes_of(contents), max_depth as nat),
{
    match contents {
        None => {
            let r = SourceReport { payloads: Vec::new(), warnings: Vec::new(), failure: Some(SourceFailure::Unreadable) };
            assert(r@.0 =~= seq![]);
            assert(r@.1 =~= seq![]);
            r
        },
        Some(bytes) => match extract(bytes, max_depth) {
            Ok(x) => SourceReport { payloads: x.payloads, warnings: x.warnings, failure: None },
            Err(e) => {
                let r = SourceReport { payloads: Vec::new(), warnings: Vec::new(), failure: Some(SourceFailure::Extract(e)) };
                assert(r@.0 =~= seq![]);
                assert(r@.1 =~= seq![]);
                r
            },
        },
    }
}

/// Joins the payloads of the sources' reports into one list, in source order and
/// each source's own order.
pub fn gather(reports: Vec<SourceReport>) -> (r: Vec<Payload>)
    ensures
        payloads_view(r@) == reports_payloads(reports@),
{
    let ghost all = reports@;
    let mut reports = reports;
    let mut out: Vec<Payload> = Vec::new();
    let ghost k: int = 0;
    assert(payloads_view(out@) =~= seq![]);
    assert(all.take(0) =~= seq![]);
    while reports.len() > 0
        invariant
            0 <= k <= all.len(),
            reports@ == all.subrange(k, all.len() as int),
            payloads_view(out@) == reports_payloads(all.take(k)),
        decreases reports.len(),
    {
        let mut next = reports.remove(0);
        let ghost before = out@;
        let ghost got = next@.0;
        out.append(&mut next.payloads);
        proof {
            assert(all.take(k + 1).drop_last() =~= all.take(k));
            assert(all.take(k + 1).last() == all[k]);
            assert(payloads_view(out@) =~= payloads_view(before) + got);
            k = k + 1;
            assert(reports@ =~= all.subrange(k, all.len() as int));
        }
    }
    assert(all.take(k) =~= all);
    out
}

} // verus!
