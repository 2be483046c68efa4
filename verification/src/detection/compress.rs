use vstd::prelude::*;

verus! {

/// What a byte stream decompresses to as gzip, if it is well-formed: a
/// function of the bytes alone, per the DEFLATE and gzip specifications.
pub uninterp spec fn gunzip_of(data: Seq<u8>) -> Option<Seq<u8>>;

/// Relies on flate2's `GzDecoder` (`read_to_end`): whether a stream
/// decompresses, and to what, depends on its bytes alone; a malformed stream
/// reports an error.
#[verifier::external_body]
pub(crate) fn gzip_decompress(data: &Vec<u8>) -> (r: Option<Vec<u8>>)
    ensures
        (r is Some) == (gunzip_of(data@) is Some),
        r matches Some(v) ==> gunzip_of(data@) == Some(v@),
{
    let mut decoder = flate2::read::GzDecoder::new(data.as_slice());
    let mut out = Vec::new();
    match std::io::Read::read_to_end(&mut decoder, &mut out) {
        Ok(_) => Some(out),
        Err(_) => None,
    }
}

/// Relies on flate2's `GzEncoder` (`write_all` and `finish`): compressing
/// into a growable buffer cannot fail, and gzip output decompresses back to
/// exactly the input bytes.
#[verifier::external_body]
pub(crate) fn gzip_compress(data: &Vec<u8>) -> (r: Vec<u8>)
    ensures
        gunzip_of(r@) == Some(data@),
{
    let mut encoder = flate2::write::GzEncoder::new(Vec::new(), flate2::Compression::best());
    std::io::Write::write_all(&mut encoder, data.as_slice()).expect("a Vec accepts all writes");
    encoder.finish().expect("a Vec accepts all writes")
}

} // verus!
