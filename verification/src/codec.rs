//! The names of the block codecs that a columnar file writer can be asked
//! for.

use vstd::prelude::*;

verus! {

/// A codec of a columnar file writer.
#[derive(Clone, Copy, Debug, PartialEq, Eq, Structural)]
pub enum Codec {
    Snappy,
    Gzip,
    Lz4,
    Lz4Raw,
    Zstd,
    Uncompressed,
}

/// The complaint about a name that stands for no codec.
#[derive(Debug)]
pub struct UnknownCompression {
    /// The name that was asked for, in lower case.
    pub name: String,
}

/// The string `s` with every character in lower case, as Unicode defines it.
pub uninterp spec fn lowercase_of(s: Seq<char>) -> Seq<char>;

/// Calls `str::to_lowercase` of the standard library, which returns the
/// lower-case equivalent of the string.
#[verifier::external_body]
fn lowered(s: &str) -> (r: String)
    ensures
        r@ == lowercase_of(s@),
{
    s.to_lowercase()
}

/// The codec that the lower-case name `name` stands for.
pub open spec fn codec_named(name: Seq<char>) -> Option<Codec> {
    if name == "snappy"@ {
        Some(Codec::Snappy)
    } else if name == "gzip"@ {
        Some(Codec::Gzip)
    } else if name == "lz4"@ {
        Some(Codec::Lz4)
    } else if name == "lz4_raw"@ {
        Some(Codec::Lz4Raw)
    } else if name == "zstd"@ {
        Some(Codec::Zstd)
    } else if name == "uncompressed"@ || name == "none"@ {
        Some(Codec::Uncompressed)
    } else {
        None
    }
}

/// The codec that the lower-case name `name` stands for, if any.
pub fn codec_of_name(name: &String) -> (r: Option<Codec>)
    ensures
        r == codec_named(name@),
{
    if *name == "snappy".to_owned() {
        Some(Codec::Snappy)
    } else if *name == "gzip".to_owned() {
        Some(Codec::Gzip)
    } else if *name == "lz4".to_owned() {
        Some(Codec::Lz4)
    } else if *name == "lz4_raw".to_owned() {
        Some(Codec::Lz4Raw)
    } else if *name == "zstd".to_owned() {
        Some(Codec::Zstd)
    } else if *name == "uncompressed".to_owned() || *name == "none".to_owned() {
        Some(Codec::Uncompressed)
    } else {
        None
    }
}

/// The codec that `s` names, whatever the case of its letters; a name that
/// stands for no codec is handed back, in lower case, as the error.
pub fn parse_compression(s: &str) -> (r: Result<Codec, UnknownCompression>)
    ensures
        match codec_named(lowercase_of(s@)) {
            Some(codec) => r == Ok::<Codec, UnknownCompression>(codec),
            None => r is Err && r->Err_0.name@ == lowercase_of(s@),
        },
{
    let name = lowered(s);
    match codec_of_name(&name) {
        Some(codec) => Ok(codec),
        None => Err(UnknownCompression { name }),
    }
}

} // verus!
