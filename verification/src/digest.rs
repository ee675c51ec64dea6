//! Content digests: the full-content digest used for verification and the
//! digest of the bounded head/tail window used for cheap pre-filtering.

use crate::plan::spec_partial_window;
use vstd::prelude::*;

verus! {

/// The lowercase hexadecimal MD5 digest of a byte sequence. The digest is
/// computed by an outside crate; it is named here, not defined, and depends
/// on the input bytes alone.
pub uninterp spec fn md5_hex_of(bytes: Seq<u8>) -> Seq<char>;

/// The digest a file's partial window is grouped by.
pub open spec fn spec_partial_digest(c: Seq<u8>) -> Seq<char> {
    md5_hex_of(spec_partial_window(c))
}

/// The digest a file's whole content is grouped by.
pub open spec fn spec_full_digest(c: Seq<u8>) -> Seq<char> {
    md5_hex_of(c)
}

/// Relies on md5::compute (the RFC 1321 digest of all input bytes) and the
/// md5 crate's LowerHex rendering, which prints each of the 16 digest bytes
/// as two lowercase hexadecimal digits.
#[verifier::external_body]
fn md5_hex(bytes: &[u8]) -> (r: String)
    ensures
        r@ == md5_hex_of(bytes@),
        r@.len() == 32,
{
    let digest = md5::compute(bytes);
    format!("{:x}", digest)
}

/// Digest of a file's whole content: the key of full verification.
pub fn full_fingerprint(content: &Vec<u8>) -> (r: String)
    ensures
        r@ == spec_full_digest(content@),
{
    md5_hex(content.as_slice())
}

/// Digest of the chunks read per a `ChunkPlan`, concatenated in head-then-
/// tail order: the key of the partial-fingerprint phase. When the chunks
/// were read per the plan for the file's size, the result is the digest of
/// the file's partial window.
pub fn partial_fingerprint(head: &Vec<u8>, tail: &Option<Vec<u8>>) -> (r: String)
    ensures
        r@ == md5_hex_of(
            match tail {
                Some(t) => head@ + t@,
                None => head@,
            },
        ),
{
    let mut buf: Vec<u8> = Vec::new();
    let mut i: usize = 0;
    while i < head.len()
        invariant
            i <= head.len(),
            buf@ == head@.take(i as int),
        decreases head.len() - i,
    {
        let b = head[i];
        buf.push(b);
        proof {
            assert(head@.take(i + 1) =~= head@.take(i as int).push(head@[i as int]));
        }
        i += 1;
    }
    proof {
        assert(head@.take(head@.len() as int) =~= head@);
    }
    match tail {
        Some(t) => {
            let mut j: usize = 0;
            while j < t.len()
                invariant
                    j <= t.len(),
                    buf@ == head@ + t@.take(j as int),
                decreases t.len() - j,
            {
                let b = t[j];
                buf.push(b);
                proof {
                    assert(t@.take(j + 1) =~= t@.take(j as int).push(t@[j as int]));
                    assert(head@ + t@.take(j + 1) =~= (head@ + t@.take(j as int)).push(
                        t@[j as int],
                    ));
                }
                j += 1;
            }
            proof {
                assert(head@ + t@.take(t@.len() as int) =~= head@ + t@);
            }
            md5_hex(buf.as_slice())
        },
        None => md5_hex(buf.as_slice()),
    }
}

} // verus!
