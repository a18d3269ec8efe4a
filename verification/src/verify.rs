//! Verify-on-inspect: the one way an envelope's bytes become an
//! [`EinmoFile`] anywhere in the library. A file whose stamps do not all
//! verify is refused, never operated on.

use vstd::prelude::*;
use vstd::utf8::{decode_utf8, encode_utf8};
use crate::error::EinmoError;
use crate::format::{lemma_render_determines_content, render, EinmoFile};
use crate::signature::file_chain_valid;
use crate::text::own;

verus! {

/// Whether `bytes` are the serialization of some envelope.
pub open spec fn parses(bytes: Seq<u8>) -> bool {
    exists|f: EinmoFile| #[trigger] encode_utf8(render(f)) == bytes
}

/// Whether `bytes` are the serialization of an envelope whose whole stamp
/// chain verifies.
pub open spec fn verifies(bytes: Seq<u8>) -> bool {
    exists|f: EinmoFile| #[trigger] encode_utf8(render(f)) == bytes && file_chain_valid(f)
}

/// Two envelopes with the same bytes agree on whether their chain verifies.
pub proof fn lemma_same_bytes_same_verdict(f: EinmoFile, g: EinmoFile)
    requires
        encode_utf8(render(f)) == encode_utf8(render(g)),
    ensures
        render(f) == render(g),
        file_chain_valid(f) == file_chain_valid(g),
{
    broadcast use vstd::utf8::group_utf8_lib;
    assert(decode_utf8(encode_utf8(render(f))) == render(f));
    assert(decode_utf8(encode_utf8(render(g))) == render(g));
    lemma_render_determines_content(f, g);
}

/// Parse `bytes` and verify every stamp.
///
/// # Errors
/// [`EinmoError::Parse`] exactly when `bytes` are not an envelope, and
/// [`EinmoError::Verification`] exactly when they are one whose stamp chain
/// does not verify.
pub fn verify_bytes(bytes: &[u8]) -> (r: Result<EinmoFile, EinmoError>)
    ensures
        r matches Ok(f) ==> encode_utf8(render(f)) == bytes@ && file_chain_valid(f),
        r is Ok <==> verifies(bytes@),
        r matches Err(e) ==> (e is Parse <==> !parses(bytes@)),
        r matches Err(e) ==> (e is Verification <==> parses(bytes@)),
{
    match EinmoFile::parse(bytes) {
        Err(e) => {
            proof {
                assert(!parses(bytes@));
            }
            Err(e)
        },
        Ok(f) => {
            if f.chain_valid() {
                Ok(f)
            } else {
                proof {
                    assert forall|g: EinmoFile| #[trigger] encode_utf8(render(g)) == bytes@
                        implies !file_chain_valid(g) by {
                        lemma_same_bytes_same_verdict(f, g);
                    }
                }
                Err(EinmoError::Verification(own("stamp chain does not verify")))
            }
        },
    }
}

} // verus!
