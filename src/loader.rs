//! Checks on a model-weight file: its compression, its header and the fields
//! of the network it declares.
use vstd::prelude::*;
use vstd::string::StringSliceAdditionalSpecFns;
use crate::utils::{get_version_int, get_version_string, version_int, version_string};

verus! {

/// The magic number of a weight file's network.
pub const WEIGHT_MAGIC: u32 = 0x1c0;

/// The network version that is accepted whatever the engine's version.
pub const ALWAYS_ACCEPTED_VERSION: u32 = 0x05c9_9972;

/// What the decompression of `b` yields: the bytes, or `None` when `b` is not a
/// valid gzip stream of UTF-8 text.
pub uninterp spec fn gunzip_of(b: Seq<u8>) -> Option<Seq<u8>>;

/// Relies on flate2's `GzDecoder` read to a string: the decompressed text, or
/// `None` when the stream is not gzip or not UTF-8.
#[verifier::external_body]
fn gunzip(b: &[u8]) -> (r: Option<Vec<u8>>)
    ensures
        r matches Some(v) ==> gunzip_of(b@) == Some(v@),
        r is None ==> gunzip_of(b@) is None,
{
    let mut d = flate2::read::GzDecoder::new(b);
    let mut content = String::new();
    match std::io::Read::read_to_string(&mut d, &mut content) {
        Ok(_) => Some(content.into_bytes()),
        Err(_) => None,
    }
}

/// The suffix of a weight file's name, `.pb.gz`, as bytes.
pub open spec fn weight_suffix() -> Seq<u8> {
    seq![46u8, 112u8, 98u8, 46u8, 103u8, 122u8]
}

/// Whether a file name, as UTF-8 bytes, ends in `.pb.gz`.
pub open spec fn is_weight_name(b: Seq<u8>) -> bool {
    b.len() >= 6 && b.subrange(b.len() - 6, b.len() as int) == weight_suffix()
}

/// Whether a file name names a weight file: it ends in `.pb.gz`.
pub fn is_weight_file_name(name: &str) -> (r: bool)
    ensures
        r == is_weight_name(name.spec_bytes()),
{
    let b = name.as_bytes();
    let n = b.len();
    if n < 6 {
        return false;
    }
    let r = b[n - 6] == 46 && b[n - 5] == 112 && b[n - 4] == 98 && b[n - 3] == 46 && b[n - 2] == 103
        && b[n - 1] == 122;
    proof {
        let tail = b@.subrange(n - 6, n as int);
        if r {
            assert(tail =~= weight_suffix());
        } else {
            assert(tail != weight_suffix()) by {
                if tail == weight_suffix() {
                    assert(tail[0] == b@[n - 6]);
                    assert(tail[5] == b@[n - 1]);
                    assert(tail[1] == b@[n - 5]);
                    assert(tail[2] == b@[n - 4]);
                    assert(tail[3] == b@[n - 3]);
                    assert(tail[4] == b@[n - 2]);
                }
            }
        }
    }
    r
}

/// The encoding of a network's weights.
#[derive(Clone, Copy, Debug, PartialEq, Eq, Structural)]
pub enum WeightsEncoding {
    Unknown,
    Linear16,
    Float16,
    BFloat16,
    Float32,
}

/// Why a weight file was refused.
#[derive(Debug, PartialEq, Eq)]
pub enum WeightFileError {
    NoWeightFileFound,
    BadHeader,
    UnsupportedWeightEncoding,
    UnsupportedVersion(String),
    TooSmall,
    TextFormat,
    MissingMinVersion,
    MissingFormat,
    IoError,
}

/// The fields of a decoded network that the checks read.
#[derive(Clone, Copy, Debug)]
pub struct NetHeader {
    pub magic: u32,
    /// `major`, `minor` and `patch` of the oldest engine that reads the network.
    pub min_version: Option<(u32, u32, u32)>,
    pub has_weights: bool,
    pub weights_encoding: Option<WeightsEncoding>,
}

/// A weight file that passed the checks on its header.
pub struct WeightFile {
    /// The decompressed network.
    pub payload: Vec<u8>,
}

/// A network that asks for a newer engine than this one: its minimum version
/// as one integer exceeds this engine's (or does not fit a `u32`), and is not
/// the one always accepted.
pub open spec fn version_too_new(v: (u32, u32, u32)) -> bool {
    let n = version_int(v.0, v.1, v.2);
    n > u32::MAX || (n != ALWAYS_ACCEPTED_VERSION && n > engine_version())
}

/// The magic number is right and the minimum version is present and met.
pub open spec fn version_accepted(h: NetHeader) -> bool {
    h.magic == WEIGHT_MAGIC && h.min_version is Some && !version_too_new(h.min_version->0)
}

/// The version of this engine, as one integer.
pub open spec fn engine_version() -> int {
    version_int(0, 30, 0)
}


impl WeightFile {
    /// Checks the decompressed buffer's first two bytes: a file of fewer than
    /// two bytes is too small, `1\n` is the first text format, `2\n` the second.
    pub fn check_buffer(buffer: &Vec<u8>) -> (r: Result<(), WeightFileError>)
        ensures
            buffer.len() < 2 <==> r matches Err(WeightFileError::TooSmall),
            (buffer.len() >= 2 && buffer[0] == 49 && buffer[1] == 10) <==> (r matches Err(
                WeightFileError::UnsupportedVersion(v),
            ) && v@ == seq!['2']),
            (buffer.len() >= 2 && buffer[0] == 50 && buffer[1] == 10) <==> r matches Err(WeightFileError::TextFormat),
            r is Ok <==> (buffer.len() >= 2 && !(buffer[0] == 49 && buffer[1] == 10) && !(buffer[0] == 50
                && buffer[1] == 10)),
    {
        if buffer.len() < 2 {
            return Err(WeightFileError::TooSmall);
        }
        if buffer[0] == 49 && buffer[1] == 10 {
            proof {
                reveal_strlit("2");
                assert("2"@ =~= seq!['2']);
            }
            return Err(WeightFileError::UnsupportedVersion(<String as vstd::string::StringExecFns>::from_str("2")));
        }
        if buffer[0] == 50 && buffer[1] == 10 {
            return Err(WeightFileError::TextFormat);
        }
        Ok(())
    }

    /// Checks the fields of a decoded network: the magic number, a minimum
    /// engine version that this engine meets (or the one always accepted), and
    /// the linear 16-bit encoding wherever weights are present.
    pub fn check_net(h: &NetHeader) -> (r: Result<(), WeightFileError>)
        ensures
            (h.magic != WEIGHT_MAGIC) <==> r matches Err(WeightFileError::BadHeader),
            (h.magic == WEIGHT_MAGIC && h.min_version is None) <==> r matches Err(
                WeightFileError::MissingMinVersion,
            ),
            (h.magic == WEIGHT_MAGIC && h.min_version is Some && version_too_new(h.min_version->0)) <==> r
                matches Err(WeightFileError::UnsupportedVersion(_)),
            r matches Err(WeightFileError::UnsupportedVersion(s)) ==> ({
                let (ma, mi, pa) = h.min_version->0;
                s@ == version_string(ma, mi, pa, Seq::empty(), Seq::empty())
            }),
            (version_accepted(*h) && h.has_weights && h.weights_encoding is None) <==> r matches Err(
                WeightFileError::MissingFormat,
            ),
            (version_accepted(*h) && h.has_weights && h.weights_encoding is Some
                && h.weights_encoding != Some(WeightsEncoding::Linear16)) <==> r matches Err(
                WeightFileError::UnsupportedWeightEncoding,
            ),
            r is Ok <==> (version_accepted(*h) && (h.has_weights ==> h.weights_encoding == Some(
                WeightsEncoding::Linear16,
            ))),
    {
        if h.magic != WEIGHT_MAGIC {
            return Err(WeightFileError::BadHeader);
        }
        let (ma, mi, pa) = match h.min_version {
            Some(v) => v,
            None => {
                return Err(WeightFileError::MissingMinVersion);
            },
        };
        let engine = get_version_int(0, 30, 0);
        let too_new = if version_fits(ma, mi, pa) {
            let net = get_version_int(ma, mi, pa);
            net != ALWAYS_ACCEPTED_VERSION && net > engine
        } else {
            true
        };
        if too_new {
            proof {
                reveal_strlit("");
                assert(""@ =~= Seq::<char>::empty());
                assert(version_int(ma, mi, pa) > engine_version());
            }
            return Err(WeightFileError::UnsupportedVersion(get_version_string(ma, mi, pa, "", "")));
        }
        if h.has_weights {
            match h.weights_encoding {
                None => {
                    return Err(WeightFileError::MissingFormat);
                },
                Some(WeightsEncoding::Linear16) => {},
                Some(_) => {
                    return Err(WeightFileError::UnsupportedWeightEncoding);
                },
            }
        }
        Ok(())
    }

    /// Decompresses a gzip weight file and checks its header. A stream that does
    /// not decompress to text is a read error, as a failed file read is.
    pub fn from_gzip_bytes(bytes: &Vec<u8>) -> (r: Result<WeightFile, WeightFileError>)
        ensures
            gunzip_of(bytes@) is None <==> r matches Err(WeightFileError::IoError),
            r matches Ok(w) ==> gunzip_of(bytes@) == Some(w.payload@),
            gunzip_of(bytes@) matches Some(p) ==> (p.len() < 2 <==> r matches Err(WeightFileError::TooSmall)),
            gunzip_of(bytes@) matches Some(p) ==> ((p.len() >= 2 && p[0] == 49 && p[1] == 10) <==> (r matches Err(
                WeightFileError::UnsupportedVersion(v),
            ) && v@ == seq!['2'])),
            gunzip_of(bytes@) matches Some(p) ==> ((p.len() >= 2 && p[0] == 50 && p[1] == 10) <==> r matches Err(
                WeightFileError::TextFormat,
            )),
            gunzip_of(bytes@) matches Some(p) ==> (r is Ok <==> (p.len() >= 2 && !(p[0] == 49 && p[1] == 10)
                && !(p[0] == 50 && p[1] == 10))),
    {
        let buffer = match gunzip(bytes.as_slice()) {
            Some(b) => b,
            None => {
                return Err(WeightFileError::IoError);
            },
        };
        match Self::check_buffer(&buffer) {
            Ok(()) => Ok(WeightFile { payload: buffer }),
            Err(e) => Err(e),
        }
    }

    /// The decompressed network.
    pub fn weights(&self) -> (r: &Vec<u8>)
        ensures
            r@ == self.payload@,
    {
        &self.payload
    }
}

/// Whether `major * 1_000_000 + minor * 1_000 + patch` fits in a `u32`.
fn version_fits(major: u32, minor: u32, patch: u32) -> (r: bool)
    ensures
        r == (version_int(major, minor, patch) <= u32::MAX),
{
    let v: u128 = (major as u128) * 1_000_000 + (minor as u128) * 1_000 + (patch as u128);
    v <= u32::MAX as u128
}

} // verus!
