use vstd::prelude::*;

verus! {

/// Everything that can go wrong while decoding a transaction byte stream.
///
/// `Io` stands for stream exhaustion: a fixed- or variable-width read asked
/// for more bytes than the source still holds. `UnsupportedSegwitFlag`
/// carries the offending marker byte. `ParseFailed` reports a structural
/// rule violated after otherwise-successful byte consumption.
#[derive(Debug)]
pub enum Error {
    Io,
    UnsupportedSegwitFlag(u8),
    ParseFailed(&'static str),
}

} // verus!
