//! The DNS side of the server: reading the queried name out of a request,
//! deciding between blocking and forwarding, and turning a request into an
//! NXDOMAIN response.
use vstd::prelude::*;
use hickory_proto::serialize::binary::{BinDecodable, DecodeError};
use crate::blacklist::{entry_of, exact_entries, law_exact_entry_blocks, wildcard_entries};
use crate::classifier::{Screening, Tier, model_outcome, screened_outcome, screening_of};
use crate::text::{lines_of, lowercase, normalized};

verus! {

/// hickory-proto's error for a message that does not decode.
#[verifier::external_type_specification]
#[verifier::external_body]
pub struct ExDecodeError(DecodeError);

// ---------------------------------------------------------------------------
// Reading the query
// ---------------------------------------------------------------------------

/// Whether hickory-proto's `Message::from_bytes` decodes `raw`.
pub uninterp spec fn dns_decodes(raw: Seq<u8>) -> bool;

/// The text that hickory-proto's `Display` for `Name` gives for the name of
/// the first query of the message `raw`, or `None` when it has no query.
pub uninterp spec fn dns_first_query_name(raw: Seq<u8>) -> Option<Seq<char>>;

/// The view of an optional string.
pub open spec fn opt_text(o: Option<String>) -> Option<Seq<char>> {
    match o {
        Some(s) => Some(s@),
        None => None,
    }
}

/// Decodes `raw` with hickory-proto's `Message::from_bytes` and renders the
/// name of its first query with `Name`'s `Display`.  The contract claims
/// that decoding succeeds exactly when `dns_decodes` holds of the bytes, and
/// that the rendered name is `dns_first_query_name` of the bytes; both are
/// functions of the bytes alone.
#[verifier::external_body]
fn decode_first_query_name(raw: &[u8]) -> (r: Result<Option<String>, DecodeError>)
    ensures
        r is Ok <==> dns_decodes(raw@),
        r matches Ok(name) ==> opt_text(name) == dns_first_query_name(raw@),
{
    match hickory_proto::op::Message::from_bytes(raw) {
        Ok(message) => match message.queries.first() {
            Some(q) => Ok(Some(q.name().to_string())),
            None => Ok(None),
        },
        Err(e) => Err(e),
    }
}

/// Why a request could not be read.
#[derive(Debug)]
pub enum QueryError {
    /// The request is not a DNS message.
    Malformed(DecodeError),
}

/// The name that the request `raw` asks about: `Ok(None)` when it asks
/// about nothing, an error when it is not a DNS message.
pub fn query_domain(raw: &[u8]) -> (r: Result<Option<String>, QueryError>)
    ensures
        r is Ok <==> dns_decodes(raw@),
        r matches Ok(name) ==> opt_text(name) == dns_first_query_name(raw@),
{
    match decode_first_query_name(raw) {
        Ok(name) => Ok(name),
        Err(e) => Err(QueryError::Malformed(e)),
    }
}

// ---------------------------------------------------------------------------
// Answering
// ---------------------------------------------------------------------------

/// The NXDOMAIN response to the request `raw`: the request with the QR bit
/// (response) set and the RCODE set to 3 (name error), all else unchanged;
/// a request too short to hold those fields is returned as it is.
pub open spec fn nxdomain_of(raw: Seq<u8>) -> Seq<u8> {
    if raw.len() >= 4 {
        raw.update(2, raw[2] | 0x80u8).update(3, (raw[3] & 0xf0u8) | 0x03u8)
    } else {
        raw
    }
}

/// The NXDOMAIN response to the request `raw_query`.
pub fn build_nxdomain(raw_query: &[u8]) -> (r: Vec<u8>)
    ensures
        r@ == nxdomain_of(raw_query@),
{
    let mut r = vstd::slice::slice_to_vec(raw_query);
    if r.len() >= 4 {
        let b2 = r[2] | 0x80;
        r.set(2, b2);
        let b3 = (r[3] & 0xf0) | 0x03;
        r.set(3, b3);
    }
    r
}

/// A request is answered NXDOMAIN when its verdict is blacklisted or a DGA
/// judgement with high confidence; a suspected DGA domain is passed to DNS
/// (and logged), like whitelisted and clean ones.
pub open spec fn blocks(tier: Tier) -> bool {
    tier == Tier::Blacklisted || tier == Tier::HighConfidence
}

/// How the server answers a request.
#[derive(Debug)]
pub enum Reply {
    /// Send this NXDOMAIN response back to the client.
    Nxdomain(Vec<u8>),
    /// Forward the request upstream and relay the answer.
    Forward,
}

/// The server's answer to the request `raw`, given the verdict's tier.
pub fn reply_for(raw: &[u8], tier: Tier) -> (r: Reply)
    ensures
        blocks(tier) ==> (r matches Reply::Nxdomain(b) && b@ == nxdomain_of(raw@)),
        !blocks(tier) ==> r is Forward,
{
    match tier {
        Tier::Blacklisted | Tier::HighConfidence => Reply::Nxdomain(build_nxdomain(raw)),
        Tier::Suspicious | Tier::Whitelisted | Tier::Clean => Reply::Forward,
    }
}

// ---------------------------------------------------------------------------
// Laws
// ---------------------------------------------------------------------------

/// The NXDOMAIN response keeps the request's length, its ID (bytes 0 and 1),
/// its other header bits and everything after the first four bytes; it has
/// the QR bit set and RCODE 3.  A request shorter than four bytes comes back
/// unchanged.
pub proof fn law_nxdomain_shape(raw: Seq<u8>)
    ensures
        nxdomain_of(raw).len() == raw.len(),
        raw.len() < 4 ==> nxdomain_of(raw) == raw,
        raw.len() >= 4 ==> {
            let r = nxdomain_of(raw);
            &&& r[0] == raw[0]
            &&& r[1] == raw[1]
            &&& r[2] & 0x80u8 == 0x80u8
            &&& r[2] & 0x7fu8 == raw[2] & 0x7fu8
            &&& r[3] & 0x0fu8 == 0x03u8
            &&& r[3] & 0xf0u8 == raw[3] & 0xf0u8
            &&& forall|k: int| 4 <= k < raw.len() ==> #[trigger] r[k] == raw[k]
        },
{
    if raw.len() >= 4 {
        let x = raw[2];
        let y = raw[3];
        assert((x | 0x80u8) & 0x80u8 == 0x80u8) by (bit_vector);
        assert((x | 0x80u8) & 0x7fu8 == x & 0x7fu8) by (bit_vector);
        assert(((y & 0xf0u8) | 0x03u8) & 0x0fu8 == 0x03u8) by (bit_vector);
        assert(((y & 0xf0u8) | 0x03u8) & 0xf0u8 == y & 0xf0u8) by (bit_vector);
    }
}

/// Building the NXDOMAIN response of a response changes nothing.
pub proof fn law_nxdomain_idempotent(raw: Seq<u8>)
    ensures
        nxdomain_of(nxdomain_of(raw)) == nxdomain_of(raw),
{
    if raw.len() >= 4 {
        let x = raw[2];
        let y = raw[3];
        assert((x | 0x80u8) | 0x80u8 == x | 0x80u8) by (bit_vector);
        assert((((y & 0xf0u8) | 0x03u8) & 0xf0u8) | 0x03u8 == (y & 0xf0u8) | 0x03u8)
            by (bit_vector);
        assert(nxdomain_of(nxdomain_of(raw)) =~= nxdomain_of(raw));
    }
}

/// The lists and the model decide the answer: a blacklisted domain is
/// answered NXDOMAIN, a whitelisted one forwarded, and one on neither list
/// is answered NXDOMAIN exactly when the model judges it DGA with high
/// confidence; a suspected one is forwarded.
pub proof fn law_screening_decides_reply(
    v: (Set<Seq<char>>, (Set<Seq<char>>, Seq<Seq<char>>)),
    d: Seq<char>,
    is_dga: bool,
    high_confidence: bool,
)
    ensures
        screening_of(v, d) == Screening::Blacklisted ==> ({
            let o = screened_outcome(screening_of(v, d))->0;
            &&& screened_outcome(screening_of(v, d)) is Some
            &&& o.tier == Tier::Blacklisted
            &&& blocks(o.tier)
        }),
        screening_of(v, d) == Screening::Whitelisted ==> ({
            let o = screened_outcome(screening_of(v, d))->0;
            &&& screened_outcome(screening_of(v, d)) is Some
            &&& o.tier == Tier::Whitelisted
            &&& !blocks(o.tier)
        }),
        screening_of(v, d) == Screening::Unlisted ==> screened_outcome(screening_of(v, d)) is None,
        blocks(model_outcome(is_dga, high_confidence).tier) == (is_dga && high_confidence),
        model_outcome(is_dga, high_confidence).tier == Tier::Suspicious ==> !blocks(
            model_outcome(is_dga, high_confidence).tier,
        ),
{
}

/// End to end: a domain that normalizes to an exact entry of the blacklist
/// file is screened as blacklisted and answered NXDOMAIN, whatever the
/// whitelist holds.
pub proof fn law_blacklisted_entry_answered_nxdomain(
    whitelist: Set<Seq<char>>,
    blacklist_text: Seq<char>,
    i: int,
    e: Seq<char>,
    q: Seq<char>,
)
    requires
        0 <= i < lines_of(blacklist_text).len(),
        entry_of(lines_of(blacklist_text)[i]) == Some((false, e)),
        normalized(q) == lowercase(e),
    ensures
        ({
            let v = (
                whitelist,
                (
                    exact_entries(lines_of(blacklist_text)).to_set(),
                    wildcard_entries(lines_of(blacklist_text)),
                ),
            );
            &&& screening_of(v, q) == Screening::Blacklisted
            &&& blocks(screened_outcome(screening_of(v, q))->0.tier)
        }),
{
    law_exact_entry_blocks(blacklist_text, i, e, q);
}

} // verus!
