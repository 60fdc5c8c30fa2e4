use vstd::prelude::*;

verus! {

/// A payload file taken out of an archive: its full entry name and its bytes.
#[derive(Clone, Debug)]
pub struct Payload {
    pub name: String,
    pub data: Vec<u8>,
}

impl View for Payload {
    type V = (Seq<char>, Seq<u8>);

    open spec fn view(&self) -> (Seq<char>, Seq<u8>) {
        (self.name@, self.data@)
    }
}

/// The views of a list of payloads.
pub open spec fn payloads_view(v: Seq<Payload>) -> Seq<(Seq<char>, Seq<u8>)> {
    v.map_values(|p: Payload| p@)
}

} // verus!
