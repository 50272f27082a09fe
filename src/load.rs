//! Loading: a file whose name ends in `.lz4` holds LZ4-compressed bytes and
//! is decompressed; any other file is taken as it is.
use vstd::prelude::*;

verus! {

/// What lz4's decoder makes of the given bytes: the decompressed bytes, or
/// `None` where it reports an error.
pub uninterp spec fn lz4_decoded(frame: Seq<u8>) -> Option<Seq<u8>>;

#[derive(Clone, Copy, Debug, PartialEq, Eq, Structural)]
pub enum LoadError {
    /// The lz4 decoder reported an error on the file's bytes.
    Decompression,
}

/// `.lz4`
pub open spec fn lz4_suffix() -> Seq<u8> {
    seq![46, 108, 122, 52]
}

/// The file name has the extension `lz4`: it ends in `.lz4` and that dot is
/// not its first byte.
pub open spec fn names_lz4(file_name: Seq<u8>) -> bool {
    file_name.len() > 4 && file_name.subrange(file_name.len() - 4, file_name.len() as int)
        == lz4_suffix()
}

/// Relies on lz4's `Decoder`, read to its end over the given bytes: whether
/// it reports an error, and what it yields otherwise, depend on the bytes
/// alone.
#[verifier::external_body]
fn lz4_decode(frame: &Vec<u8>) -> (r: Option<Vec<u8>>)
    ensures
        r is Some <==> lz4_decoded(frame@) is Some,
        r matches Some(v) ==> lz4_decoded(frame@) == Some(v@),
{
    let mut out = Vec::new();
    let mut decoder = lz4::Decoder::new(frame.as_slice()).ok()?;
    std::io::Read::read_to_end(&mut decoder, &mut out).ok()?;
    Some(out)
}

/// Whether a file name has the extension `lz4`.
pub fn is_lz4_name(file_name: &Vec<u8>) -> (r: bool)
    ensures
        r == names_lz4(file_name@),
{
    let n = file_name.len();
    if n <= 4 {
        return false;
    }
    let r = file_name[n - 4] == 46 && file_name[n - 3] == 108 && file_name[n - 2] == 122
        && file_name[n - 1] == 52;
    proof {
        let tail = file_name@.subrange(n - 4, n as int);
        if r {
            assert(tail =~= lz4_suffix());
        } else {
            assert(tail[0] != 46 || tail[1] != 108 || tail[2] != 122 || tail[3] != 52);
        }
    }
    r
}

/// The contents of a file given its name and its raw bytes.
pub fn load_buffer(file_name: &Vec<u8>, raw: Vec<u8>) -> (r: Result<Vec<u8>, LoadError>)
    ensures
        !names_lz4(file_name@) ==> (r matches Ok(v) && v@ == raw@),
        names_lz4(file_name@) ==> (r is Ok <==> lz4_decoded(raw@) is Some),
        names_lz4(file_name@) ==> (r matches Ok(v) ==> lz4_decoded(raw@) == Some(v@)),
        r is Err ==> r == Err::<Vec<u8>, LoadError>(LoadError::Decompression),
{
    if is_lz4_name(file_name) {
        match lz4_decode(&raw) {
            Some(v) => Ok(v),
            None => Err(LoadError::Decompression),
        }
    } else {
        Ok(raw)
    }
}

} // verus!
