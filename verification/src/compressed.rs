//! Documentation as bytes: compressed, and as JSON text.

use crate::doc::Doc;
use crate::error::Error;
use vstd::prelude::*;

verus! {

/// Documentation as zstd-compressed bytes.
pub struct Compressed(pub Vec<u8>);

/// Documentation as the bytes of a JSON text.
pub struct RawJson(pub Vec<u8>);

/// What `data` decompresses to: `None` where it is not zstd-compressed
/// data.
pub uninterp spec fn zstd_decoded(data: Seq<u8>) -> Option<Seq<u8>>;

/// [`zstd::stream::decode_all`]: what compressed bytes decompress to
/// depends on the bytes alone.
#[verifier::external_body]
fn decode(data: &Vec<u8>) -> (r: Result<Vec<u8>, std::io::Error>)
    ensures
        match r {
            Ok(bytes) => zstd_decoded(data@) == Some(bytes@),
            Err(_) => zstd_decoded(data@) is None,
        },
{
    zstd::stream::decode_all(data.as_slice())
}

/// Whether `data` starts as a zstd frame does: with the number
/// 0xFD2FB528, its low byte first.
pub open spec fn is_zstd(data: Seq<u8>) -> bool {
    data.len() >= 4 && data[0] == 0x28 && data[1] == 0xB5 && data[2] == 0x2F && data[3] == 0xFD
}

/// `data` with its layers of compression taken off, at most `layers` of
/// them: `None` where a layer that starts as a zstd frame does is not
/// one.
pub open spec fn unpacked(data: Seq<u8>, layers: nat) -> Option<Seq<u8>>
    decreases layers,
{
    if layers == 0 || !is_zstd(data) {
        Some(data)
    } else {
        match zstd_decoded(data) {
            Some(inner) => unpacked(inner, (layers - 1) as nat),
            None => None,
        }
    }
}

impl Doc<RawJson> {
    pub fn new(data: Vec<u8>) -> (r: Self)
        ensures
            r.0.0 == data,
    {
        Doc(RawJson(data))
    }
}

impl Doc<Compressed> {
    pub fn new(data: Vec<u8>) -> (r: Self)
        ensures
            r.0.0 == data,
    {
        Doc(Compressed(data))
    }

    /// Whether `data` starts as a zstd frame does.
    pub fn is_compressed(data: &Vec<u8>) -> (r: bool)
        ensures
            r == is_zstd(data@),
    {
        data.len() >= 4 && data[0] == 0x28 && data[1] == 0xB5 && data[2] == 0x2F && data[3]
            == 0xFD
    }

    /// Takes the compression off the data, layer by layer, until what is
    /// left does not start as a zstd frame does.
    pub fn decompress(self) -> (r: Result<Doc<RawJson>, Error>)
        ensures
            match unpacked(self.0.0@, usize::MAX as nat) {
                Some(bytes) => r matches Ok(raw) && raw.0.0@ == bytes,
                None => r matches Err(Error::Io(_)),
            },
    {
        let ghost packed = self.0.0@;
        let mut data = self.0.0;
        let mut layers: usize = 0;
        while layers < usize::MAX && Self::is_compressed(&data)
            invariant
                packed == self.0.0@,
                unpacked(packed, usize::MAX as nat) == unpacked(
                    data@,
                    (usize::MAX - layers) as nat,
                ),
            decreases usize::MAX - layers,
        {
            match decode(&data) {
                Ok(inner) => {
                    data = inner;
                    layers += 1;
                },
                Err(e) => {
                    return Err(Error::Io(e));
                },
            }
        }
        Ok(Doc::<RawJson>::new(data))
    }
}

} // verus!
