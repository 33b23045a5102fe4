use crate::bencode::{decode_bencoded_value, decoding, lookup, lookup_key, Bencode, BencodeValue};
use crate::error::BittorrentError;
use crate::peer::take_array;
use crate::torrent::{opt_view, size_of, size_value};
use vstd::prelude::*;
use vstd::string::StringExecFns;

verus! {

/// The parameters of an announce request, besides the info-hash.
pub struct TrackerRequest {
    /// Client identifier, 20 characters.
    pub peer_id: String,
    /// Port the client listens on.
    pub port: u16,
    /// Bytes uploaded so far.
    pub uploaded: usize,
    /// Bytes downloaded so far.
    pub downloaded: usize,
    /// Bytes left to download.
    pub left: usize,
    /// 1 to ask for the compact peer list.
    pub compact: u8,
}

/// The lowercase hexadecimal digit of a value below 16.
pub open spec fn hex_char(d: int) -> char {
    seq!['0', '1', '2', '3', '4', '5', '6', '7', '8', '9', 'a', 'b', 'c', 'd', 'e', 'f'][d]
}

/// Every byte written as `%` and two lowercase hexadecimal digits.
pub open spec fn percent_encoding(b: Seq<u8>) -> Seq<char>
    decreases b.len(),
{
    if b.len() == 0 {
        Seq::empty()
    } else {
        percent_encoding(b.drop_last()) + seq![
            '%',
            hex_char(b.last() as int / 16),
            hex_char(b.last() as int % 16),
        ]
    }
}

/// Relies on `hex::encode`: the two lowercase hexadecimal digits of a
/// byte, high nibble first.
#[verifier::external_body]
fn hex_byte(b: u8) -> (r: String)
    ensures
        r@ == seq![hex_char(b as int / 16), hex_char(b as int % 16)],
{
    hex::encode([b])
}

/// Percent-encodes every byte of an info-hash, as the announce query needs
/// for binary data.
pub fn urlencode(t: &[u8; 20]) -> (r: String)
    ensures
        r@ == percent_encoding(t@),
{
    let mut encoded = String::new();
    let mut i: usize = 0;
    assert(t@.take(0) =~= Seq::<u8>::empty());
    while i < 20
        invariant
            0 <= i <= 20,
            encoded@ == percent_encoding(t@.take(i as int)),
        decreases 20 - i,
    {
        let h = hex_byte(t[i]);
        proof {
            reveal_strlit("%");
        }
        encoded.append("%");
        encoded.append(h.as_str());
        assert(t@.take(i + 1).drop_last() =~= t@.take(i as int));
        assert(encoded@ =~= percent_encoding(t@.take(i + 1)));
        i = i + 1;
    }
    assert(t@.take(20) =~= t@);
    encoded
}

/// The announce URL: the tracker URL, `?`, the encoded query parameters,
/// then `&info_hash=` and the percent-encoded info-hash.
pub fn announce_url(announce: &str, query: &str, info_hash: &[u8; 20]) -> (r: String)
    ensures
        r@ == announce@ + seq!['?'] + query@ + seq!['&', 'i', 'n', 'f', 'o', '_', 'h', 'a', 's', 'h', '=']
            + percent_encoding(info_hash@),
{
    let mut url = String::from_str(announce);
    proof {
        reveal_strlit("?");
        reveal_strlit("&info_hash=");
    }
    url.append("?");
    url.append(query);
    url.append("&info_hash=");
    let h = urlencode(info_hash);
    url.append(h.as_str());
    url
}

/// A peer: IPv4 address and port.
#[derive(Debug, Clone, Copy, PartialEq, Eq)]
pub struct PeerAddress {
    pub ip: [u8; 4],
    pub port: u16,
}

/// The peers of a tracker response, in order.
pub struct Peers(pub Vec<PeerAddress>);

/// A compact peer list holds the peers: six bytes each, four of address and
/// two of big-endian port.
pub open spec fn peers_fit(b: Seq<u8>, peers: Seq<PeerAddress>) -> bool {
    &&& b.len() == 6 * peers.len()
    &&& forall|k: int|
        0 <= k < peers.len() ==> {
            &&& (#[trigger] peers[k]).ip@ == b.subrange(6 * k, 6 * k + 4)
            &&& peers[k].port == b[6 * k + 4] as int * 256 + b[6 * k + 5] as int
        }
}

/// Splits a compact peer list; a length that is not a multiple of 6 is a
/// decode error.
pub fn parse_peers(b: &[u8]) -> (r: Result<Peers, BittorrentError>)
    ensures
        match r {
            Ok(p) => peers_fit(b@, p.0@),
            Err(e) => e == BittorrentError::DecodeError && b@.len() % 6 != 0,
        },
{
    if b.len() % 6 != 0 {
        return Err(BittorrentError::DecodeError);
    }
    let n = b.len() / 6;
    let mut out: Vec<PeerAddress> = Vec::new();
    let mut i: usize = 0;
    let mut p: usize = 0;
    while i < n
        invariant
            n == b.len() / 6,
            b.len() % 6 == 0,
            0 <= i <= n,
            p == 6 * i,
            out@.len() == i,
            forall|k: int|
                0 <= k < i ==> {
                    &&& (#[trigger] out@[k]).ip@ == b@.subrange(6 * k, 6 * k + 4)
                    &&& out@[k].port == b@[6 * k + 4] as int * 256 + b@[6 * k + 5] as int
                },
        decreases n - i,
    {
        let ip: [u8; 4] = take_array(b, p);
        let port: u16 = (b[p + 4] as u16) * 256 + (b[p + 5] as u16);
        out.push(PeerAddress { ip, port });
        i = i + 1;
        p = p + 6;
    }
    Ok(Peers(out))
}

impl Peers {
    /// The compact form of the peers: for each, four address bytes and the
    /// port in two big-endian bytes.
    pub fn to_compact(&self) -> (r: Vec<u8>)
        ensures
            peers_fit(r@, self.0@),
    {
        let mut out: Vec<u8> = Vec::new();
        let mut i: usize = 0;
        while i < self.0.len()
            invariant
                0 <= i <= self.0.len(),
                out@.len() == 6 * i,
                forall|k: int|
                    0 <= k < i ==> {
                        &&& (#[trigger] self.0@[k]).ip@ == out@.subrange(6 * k, 6 * k + 4)
                        &&& self.0@[k].port == out@[6 * k + 4] as int * 256 + out@[6 * k + 5] as int
                    },
            decreases self.0.len() - i,
        {
            let peer = self.0[i];
            let ghost before = out@;
            out.extend_from_slice(peer.ip.as_slice());
            out.push((peer.port / 256) as u8);
            out.push((peer.port % 256) as u8);
            assert forall|k: int| 0 <= k < i + 1 implies {
                &&& (#[trigger] self.0@[k]).ip@ == out@.subrange(6 * k, 6 * k + 4)
                &&& self.0@[k].port == out@[6 * k + 4] as int * 256 + out@[6 * k + 5] as int
            } by {
                if k < i {
                    assert(out@.subrange(6 * k, 6 * k + 4) =~= before.subrange(6 * k, 6 * k + 4));
                    assert(out@[6 * k + 4] == before[6 * k + 4]);
                    assert(out@[6 * k + 5] == before[6 * k + 5]);
                } else {
                    assert(out@.subrange(6 * k, 6 * k + 4) =~= peer.ip@);
                }
            }
            i = i + 1;
        }
        out
    }
}

/// A tracker's answer: how often to ask again (seconds) and the peers.
pub struct TrackerResponse {
    pub interval: usize,
    pub peers: Peers,
}

pub open spec fn interval_key() -> Seq<u8> {
    seq![105u8, 110, 116, 101, 114, 118, 97, 108]
}

pub open spec fn peers_key() -> Seq<u8> {
    seq![112u8, 101, 101, 114, 115]
}

/// What a tracker response must hold: an `interval` and a compact `peers`
/// string whose length is a multiple of 6.
pub open spec fn response_valid(v: Bencode) -> bool {
    &&& v is Dict
    &&& size_of(lookup(v->Dict_0, interval_key())) is Some
    &&& lookup(v->Dict_0, peers_key()) matches Some(Bencode::Bytes(p))
    &&& p.len() % 6 == 0
}

/// A tracker response holds the fields of `r`.
pub open spec fn response_fits(v: Bencode, r: TrackerResponse) -> bool {
    &&& v is Dict
    &&& size_of(lookup(v->Dict_0, interval_key())) == Some(r.interval as int)
    &&& lookup(v->Dict_0, peers_key()) matches Some(Bencode::Bytes(p))
    &&& peers_fit(p, r.peers.0@)
}

impl TrackerResponse {
    /// Reads a tracker's bencoded answer. Anything but one whole valid
    /// response is a decode error.
    pub fn parse(b: &[u8]) -> (r: Result<TrackerResponse, BittorrentError>)
        ensures
            match r {
                Ok(resp) => decoding(b@) matches Some((v, n)) && n == b@.len() && response_fits(
                    v,
                    resp,
                ),
                Err(e) => e == BittorrentError::DecodeError && !(decoding(b@) matches Some((v, n))
                    && n == b@.len() && response_valid(v)),
            },
    {
        let v = match decode_bencoded_value(b) {
            Ok((v, rest)) => {
                if rest.len() != 0 {
                    return Err(BittorrentError::DecodeError);
                }
                v
            },
            Err(_) => {
                return Err(BittorrentError::DecodeError);
            },
        };
        let d = match &v {
            BencodeValue::Dictionary(d) => d,
            _ => {
                return Err(BittorrentError::DecodeError);
            },
        };
        let interval_k: [u8; 8] = [105u8, 110, 116, 101, 114, 118, 97, 108];
        let peers_k: [u8; 5] = [112u8, 101, 101, 114, 115];
        assert(interval_k@ =~= interval_key());
        assert(peers_k@ =~= peers_key());
        let interval = match size_value(lookup_key(d, interval_k.as_slice())) {
            Some(n) => n,
            None => {
                return Err(BittorrentError::DecodeError);
            },
        };
        let peers = match lookup_key(d, peers_k.as_slice()) {
            Some(BencodeValue::ByteString(p)) => parse_peers(p.as_slice())?,
            _ => {
                return Err(BittorrentError::DecodeError);
            },
        };
        Ok(TrackerResponse { interval, peers })
    }
}

} // verus!
