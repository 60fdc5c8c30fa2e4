use vstd::prelude::*;

verus! {

/// What an archive entry is, judged by its name.
#[derive(Clone, Copy, Debug, PartialEq, Eq, Structural)]
pub enum EntryKind {
    /// A file of the wanted content type, kept as it is.
    Payload,
    /// A nested archive, unpacked in turn.
    Container,
    /// Anything else.
    Ignore,
}

/// The result of `str::to_lowercase` on the characters `s`.
pub uninterp spec fn lower_of(s: Seq<char>) -> Seq<char>;

/// Relies on `str::to_lowercase`: a full Unicode lower-casing that depends on the
/// characters alone (no locale).
#[verifier::external_body]
fn lowercase(s: &str) -> (r: String)
    ensures
        r@ == lower_of(s@),
{
    s.to_lowercase()
}

pub open spec fn ends_with(s: Seq<char>, suffix: Seq<char>) -> bool {
    suffix.len() <= s.len() && s.subrange(s.len() - suffix.len(), s.len() as int) == suffix
}

/// Suffix of a nested archive's name.
pub open spec fn container_suffix() -> Seq<char> {
    seq!['.', 'z', 'i', 'p']
}

/// Suffix of a payload's name.
pub open spec fn payload_suffix() -> Seq<char> {
    seq!['.', 'x', 'm', 'l']
}

/// Kind of an entry whose name has already been lower-cased.
pub open spec fn kind_of_lowered(l: Seq<char>) -> EntryKind {
    if ends_with(l, container_suffix()) {
        EntryKind::Container
    } else if ends_with(l, payload_suffix()) {
        EntryKind::Payload
    } else {
        EntryKind::Ignore
    }
}

/// Kind of an entry: case-insensitive suffix match on its name.
pub open spec fn kind_of(name: Seq<char>) -> EntryKind {
    kind_of_lowered(lower_of(name))
}

/// Whether `s` ends with the characters of `suffix`.
pub fn has_suffix(s: &str, suffix: &str) -> (r: bool)
    ensures
        r == ends_with(s@, suffix@),
{
    let n = s.unicode_len();
    let m = suffix.unicode_len();
    if m > n {
        return false;
    }
    let start: usize = n - m;
    let mut i: usize = 0;
    while i < m
        invariant
            n == s@.len(),
            m == suffix@.len(),
            start == n - m,
            i <= m,
            forall|k: int| 0 <= k < i ==> s@[start + k] == suffix@[k],
        decreases m - i,
    {
        if s.get_char(start + i) != suffix.get_char(i) {
            assert(s@.subrange(start as int, n as int)[i as int] != suffix@[i as int]);
            return false;
        }
        i = i + 1;
    }
    assert(s@.subrange(start as int, n as int) =~= suffix@);
    true
}

/// Classifies a name that is already lower-case.
pub fn classify_lowered(lowered: &str) -> (r: EntryKind)
    ensures
        r == kind_of_lowered(lowered@),
{
    proof {
        reveal_strlit(".zip");
        reveal_strlit(".xml");
        assert(".zip"@ =~= container_suffix());
        assert(".xml"@ =~= payload_suffix());
    }
    if has_suffix(lowered, ".zip") {
        EntryKind::Container
    } else if has_suffix(lowered, ".xml") {
        EntryKind::Payload
    } else {
        EntryKind::Ignore
    }
}

/// Classifies an entry by its name, ignoring case.
pub fn classify(name: &str) -> (r: EntryKind)
    ensures
        r == kind_of(name@),
{
    let lowered = lowercase(name);
    classify_lowered(lowered.as_str())
}

} // verus!
