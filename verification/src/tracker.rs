//! The tracker: the announce request and the roster of peers in its answer.

use crate::bencode::decode::{decode, scan_digits};
use crate::bencode::grammar::{digit_run, parse};
use crate::bencode::{lemma_list_view, list_view, Bencode, Value};
use crate::decimal::{canonical_digits, digits_of, read_decimal, value_of, write_decimal};
use crate::digest::sha1_digest;
use crate::error::{ApplicationError, Fault};
use crate::peer::{peer_views, IpAddress, Peer, PeerView};
use crate::text::push_char;
use crate::torrent::{lemma_total_not_negative, Torrent};
use url::Url;
use vstd::prelude::*;

verus! {

/// The key `peers`.
pub const KEY_PEERS: [u8; 5] = [0x70, 0x65, 0x65, 0x72, 0x73];

/// The key `interval`.
pub const KEY_INTERVAL: [u8; 8] = [0x69, 0x6e, 0x74, 0x65, 0x72, 0x76, 0x61, 0x6c];

/// The key `failure reason`.
pub const KEY_FAILURE: [u8; 14] = [
    0x66, 0x61, 0x69, 0x6c, 0x75, 0x72, 0x65, 0x20, 0x72, 0x65, 0x61, 0x73, 0x6f, 0x6e,
];

/// The key `ip`.
pub const KEY_IP: [u8; 2] = [0x69, 0x70];

/// The key `port`.
pub const KEY_PORT: [u8; 4] = [0x70, 0x6f, 0x72, 0x74];

/// The peer id of this client, "-RU0001-123456789010".
pub const PEER_ID: [u8; 20] = [
    0x2d, 0x52, 0x55, 0x30, 0x30, 0x30, 0x31, 0x2d, 0x31, 0x32, 0x33, 0x34, 0x35, 0x36, 0x37,
    0x38, 0x39, 0x30, 0x31, 0x30,
];

/// The port that this client reports to the tracker.
pub const LISTEN_PORT: u16 = 6881;

/// The octet written at `pos` in a dotted quad, with the position after it: one to
/// three digits without a leading zero that write at most 255.
pub open spec fn octet_at(s: Seq<u8>, pos: int) -> Option<(u8, int)> {
    let end = digit_run(s, pos);
    let text = s.subrange(pos, end);
    if 0 <= pos <= s.len() && canonical_digits(text) && text.len() <= 3 && value_of(text) <= 255 {
        Some((value_of(text) as u8, end))
    } else {
        None
    }
}

/// The octet written at `pos`, if a dot follows it, with the position after the
/// dot.
pub open spec fn octet_dot(s: Seq<u8>, pos: int) -> Option<(u8, int)> {
    match octet_at(s, pos) {
        Some((v, end)) => if end < s.len() && s[end] == 46 {
            Some((v, end + 1))
        } else {
            None
        },
        None => None,
    }
}

/// The four bytes of the IPv4 address that `s` writes as a dotted quad, such as
/// "192.168.1.1".
pub open spec fn dotted_quad(s: Seq<u8>) -> Option<Seq<u8>> {
    match octet_dot(s, 0) {
        Some((a, at_b)) => match octet_dot(s, at_b) {
            Some((b, at_c)) => match octet_dot(s, at_c) {
                Some((c, at_d)) => match octet_at(s, at_d) {
                    Some((d, end)) => if end == s.len() {
                        Some(seq![a, b, c, d])
                    } else {
                        None
                    },
                    None => None,
                },
                None => None,
            },
            None => None,
        },
        None => None,
    }
}

/// The peers of a compact list: every six bytes are the four bytes of an IPv4
/// address and a port, most significant byte first. Bytes that do not fill a group
/// of six are left out.
pub open spec fn compact_peers(data: Seq<u8>) -> Seq<PeerView> {
    Seq::new(
        data.len() / 6,
        |i: int|
            PeerView {
                ip: data.subrange(6 * i, 6 * i + 4),
                port: (data[6 * i + 4] * 256 + data[6 * i + 5]) as u16,
            },
    )
}

/// The peer that an entry of a peer list describes: a dictionary with a dotted quad
/// as `ip` and an integer as `port`, of which the low sixteen bits count.
pub open spec fn listed_peer(item: Bencode) -> Option<PeerView> {
    match (item.get(KEY_IP@), item.get(KEY_PORT@)) {
        (Some(Bencode::Bytes(text)), Some(Bencode::Int(n))) => match dotted_quad(text) {
            Some(ip) => Some(PeerView { ip, port: n as u16 }),
            None => None,
        },
        _ => None,
    }
}

/// The peers that the first `n` of `items` describe; an entry that describes none
/// is left out.
pub open spec fn listed_peers(items: Seq<Bencode>, n: int) -> Seq<PeerView>
    decreases n,
{
    if n <= 0 || n > items.len() {
        Seq::empty()
    } else {
        match listed_peer(items[n - 1]) {
            Some(p) => listed_peers(items, n - 1).push(p),
            None => listed_peers(items, n - 1),
        }
    }
}

/// The roster that the value under `peers` gives: a byte string is a compact list,
/// a list is a list of dictionaries, and anything else gives no peer.
pub open spec fn roster(peers: Bencode) -> Seq<PeerView> {
    match peers {
        Bencode::Bytes(data) => compact_peers(data),
        Bencode::List(items) => listed_peers(items, items.len() as int),
        _ => Seq::empty(),
    }
}

/// Reads the octet written at `pos`.
fn read_octet(buf: &[u8], pos: usize) -> (r: Option<(u8, usize)>)
    requires
        pos <= buf@.len(),
    ensures
        match r {
            Some((v, end)) => octet_at(buf@, pos as int) == Some((v, end as int)) && pos < end
                <= buf@.len(),
            None => octet_at(buf@, pos as int) is None,
        },
{
    let end = scan_digits(buf, pos);
    let ghost text = buf@.subrange(pos as int, end as int);
    if end == pos || end - pos > 3 {
        return None;
    }
    assert(text[0] == buf@[pos as int]);
    if end - pos > 1 && buf[pos] == 48 {
        return None;
    }
    match read_decimal(buf, pos, end) {
        Some(n) => if n <= 255 {
            Some((n as u8, end))
        } else {
            None
        },
        None => None,
    }
}

/// Reads the octet written at `pos` and the dot after it.
fn read_octet_dot(buf: &[u8], pos: usize) -> (r: Option<(u8, usize)>)
    requires
        pos <= buf@.len(),
    ensures
        match r {
            Some((v, end)) => octet_dot(buf@, pos as int) == Some((v, end as int)) && pos < end
                <= buf@.len(),
            None => octet_dot(buf@, pos as int) is None,
        },
{
    match read_octet(buf, pos) {
        Some((v, end)) => if end < buf.len() && buf[end] == 46 {
            Some((v, end + 1))
        } else {
            None
        },
        None => None,
    }
}

/// Reads an IPv4 address that is written as a dotted quad.
pub fn parse_ipv4(text: &[u8]) -> (r: Option<[u8; 4]>)
    ensures
        match r {
            Some(ip) => dotted_quad(text@) == Some(ip@),
            None => dotted_quad(text@) is None,
        },
{
    let (a, at_b) = match read_octet_dot(text, 0) {
        Some(found) => found,
        None => {
            return None;
        },
    };
    let (b, at_c) = match read_octet_dot(text, at_b) {
        Some(found) => found,
        None => {
            return None;
        },
    };
    let (c, at_d) = match read_octet_dot(text, at_c) {
        Some(found) => found,
        None => {
            return None;
        },
    };
    let (d, end) = match read_octet(text, at_d) {
        Some(found) => found,
        None => {
            return None;
        },
    };
    if end != text.len() {
        return None;
    }
    let ip: [u8; 4] = [a, b, c, d];
    assert(ip@ =~= seq![a, b, c, d]);
    Some(ip)
}

/// What a tracker answered to an announce.
#[derive(Debug, PartialEq, Eq)]
pub struct AnnounceResponse {
    /// The value under `peers`.
    pub peers_data: Value,
    /// Seconds to wait before the next announce.
    pub interval: Option<i64>,
}

/// What an answer says, or why it is none: malformed where it is no dictionary, has
/// no `peers` or an `interval` that is no integer; a failure where it carries a
/// `failure reason`.
pub open spec fn read_response(doc: Bencode) -> Result<(Bencode, Option<int>), Fault> {
    if !(doc is Dict) {
        Err(Fault::TrackerMalformed)
    } else if doc.get(KEY_FAILURE@) is Some {
        Err(Fault::TrackerFailure)
    } else if doc.get(KEY_PEERS@) is None {
        Err(Fault::TrackerMalformed)
    } else {
        match doc.get(KEY_INTERVAL@) {
            None => Ok((doc.get(KEY_PEERS@).unwrap(), None)),
            Some(Bencode::Int(n)) => Ok((doc.get(KEY_PEERS@).unwrap(), Some(n))),
            Some(_) => Err(Fault::TrackerMalformed),
        }
    }
}

impl AnnounceResponse {
    /// Reads the answer of a tracker from its bytes.
    pub fn from_bytes(raw: &[u8]) -> (r: Result<AnnounceResponse, ApplicationError>)
        ensures
            match parse(raw@) {
                None => r matches Err(e) && e == ApplicationError::TrackerError(
                    Fault::TrackerMalformed,
                ),
                Some(doc) => match read_response(doc) {
                    Ok((peers, interval)) => r matches Ok(a) && a.peers_data@ == peers && (
                    match a.interval {
                        Some(n) => Some(n as int),
                        None => None,
                    }) == interval,
                    Err(f) => r matches Err(e) && e == ApplicationError::TrackerError(f),
                },
            },
    {
        let malformed = ApplicationError::TrackerError(Fault::TrackerMalformed);
        let doc = match decode(raw) {
            Ok(doc) => doc,
            Err(_) => {
                return Err(malformed);
            },
        };
        match &doc {
            Value::Dict(_) => {},
            _ => {
                return Err(malformed);
            },
        }
        if doc.get(KEY_FAILURE.as_slice()).is_some() {
            return Err(ApplicationError::TrackerError(Fault::TrackerFailure));
        }
        let interval: Option<i64> = match doc.get(KEY_INTERVAL.as_slice()) {
            Some(found) => match found.as_int() {
                Some(n) => Some(n),
                None => {
                    return Err(malformed);
                },
            },
            None => None,
        };
        match doc.take(KEY_PEERS.as_slice()) {
            Some(peers_data) => Ok(AnnounceResponse { peers_data, interval }),
            None => Err(malformed),
        }
    }

    /// The roster of peers that the answer gives.
    pub fn peers(&self) -> (r: Vec<Peer>)
        ensures
            peer_views(r@) == roster(self.peers_data@),
    {
        let mut result: Vec<Peer> = Vec::new();
        match &self.peers_data {
            Value::Bytes(data) => {
                let count: usize = data.len() / 6;
                let mut i: usize = 0;
                while i < count
                    invariant
                        i <= count,
                        count == data@.len() / 6,
                        data@.len() <= usize::MAX,
                        result@.len() == i,
                        forall|k: int|
                            0 <= k < i ==> (#[trigger] result@[k])@ == compact_peers(data@)[k],
                    decreases count - i,
                {
                    let base: usize = 6 * i;
                    let ip: [u8; 4] = [data[base], data[base + 1], data[base + 2], data[base + 3]];
                    let port: u16 = (data[base + 4] as u16) * 256 + data[base + 5] as u16;
                    assert(ip@ =~= data@.subrange(6 * i, 6 * i + 4));
                    result.push(Peer { ip: IpAddress::V4(ip), port });
                    i += 1;
                }
                assert(peer_views(result@) =~= compact_peers(data@));
            },
            Value::List(list) => {
                let ghost items = list_view(list@, list@.len() as int);
                proof {
                    lemma_list_view(list@, list@.len() as int);
                }
                let mut i: usize = 0;
                assert(peer_views(result@) =~= listed_peers(items, 0));
                while i < list.len()
                    invariant
                        i <= list.len(),
                        items.len() == list@.len(),
                        forall|k: int| 0 <= k < items.len() ==> #[trigger] items[k] == list@[k]@,
                        peer_views(result@) == listed_peers(items, i as int),
                    decreases list.len() - i,
                {
                    let ghost before = peer_views(result@);
                    match Self::listed(&list[i]) {
                        Some(peer) => {
                            result.push(peer);
                            assert(peer_views(result@) =~= before.push(peer@));
                        },
                        None => {},
                    }
                    i += 1;
                }
            },
            _ => {
                assert(peer_views(result@) =~= Seq::<PeerView>::empty());
            },
        }
        result
    }

    /// The peer that an entry of a peer list describes.
    fn listed(item: &Value) -> (r: Option<Peer>)
        ensures
            match r {
                Some(p) => listed_peer(item@) == Some(p@),
                None => listed_peer(item@) is None,
            },
    {
        let ip = match item.get(KEY_IP.as_slice()) {
            Some(found) => match found.as_bytes() {
                Some(text) => match parse_ipv4(text.as_slice()) {
                    Some(ip) => ip,
                    None => {
                        return None;
                    },
                },
                None => {
                    return None;
                },
            },
            None => {
                return None;
            },
        };
        let port: u16 = match item.get(KEY_PORT.as_slice()) {
            Some(found) => match found.as_int() {
                Some(n) => #[verifier::truncate]
                (n as u16),
                None => {
                    return None;
                },
            },
            None => {
                return None;
            },
        };
        Some(Peer { ip: IpAddress::V4(ip), port })
    }
}

/// The upper-case hexadecimal digit of `n`, which is below 16.
pub open spec fn hex_upper(n: int) -> char {
    if n < 10 {
        (48 + n) as char
    } else {
        (55 + n) as char
    }
}

/// The bytes written for a query: each byte as a percent sign and its two
/// hexadecimal digits in upper case.
pub open spec fn percent_encoding(bytes: Seq<u8>) -> Seq<char>
    decreases bytes.len(),
{
    if bytes.len() == 0 {
        Seq::empty()
    } else {
        percent_encoding(bytes.drop_last()) + seq![
            '%',
            hex_upper(bytes.last() as int / 16),
            hex_upper(bytes.last() as int % 16),
        ]
    }
}

/// The decimal digits of `n` as characters.
pub open spec fn decimal_text(n: nat) -> Seq<char> {
    Seq::new(digits_of(n).len(), |i: int| digits_of(n)[i] as char)
}

/// The query of an announce: the info-hash and the peer id percent-encoded byte by
/// byte, the port and the three counters in decimal, and the event `started` on
/// the first announce.
pub open spec fn query_text(
    info_hash: Seq<u8>,
    peer_id: Seq<u8>,
    port: u16,
    uploaded: u64,
    downloaded: u64,
    left: u64,
    started: bool,
) -> Seq<char> {
    "info_hash="@ + percent_encoding(info_hash) + "&peer_id="@ + percent_encoding(peer_id)
        + "&port="@ + decimal_text(port as nat) + "&uploaded="@ + decimal_text(uploaded as nat)
        + "&downloaded="@ + decimal_text(downloaded as nat) + "&left="@ + decimal_text(
        left as nat,
    ) + if started {
        "&event=started"@
    } else {
        Seq::empty()
    }
}

/// The serialization of the URL that `text` is parsed to, if it is the text of an
/// absolute URL.
pub uninterp spec fn url_serialization(text: Seq<char>) -> Option<Seq<char>>;

/// The error of `Url::parse` of the crate `url`: it is carried through and never
/// looked into.
#[verifier::external_type_specification]
#[verifier::external_body]
pub struct ExUrlParseError(url::ParseError);

/// Parses `text` as an absolute URL and gives the URL back as text.
///
/// Trusted: calls `Url::parse` of the crate `url` and converts the URL to its
/// serialization. The contract gives the outcome the name [`url_serialization`] and
/// claims nothing else of it.
#[verifier::external_body]
fn parse_url(text: &str) -> (r: Result<String, url::ParseError>)
    ensures
        match r {
            Ok(u) => url_serialization(text@) == Some(u@),
            Err(_) => url_serialization(text@) is None,
        },
{
    Url::parse(text).map(String::from)
}

/// Appends the percent-encoding of `bytes` to `out`.
pub fn percent_encode_into(bytes: &[u8], out: &mut String)
    ensures
        final(out)@ == old(out)@ + percent_encoding(bytes@),
{
    let ghost start = out@;
    let mut i: usize = 0;
    assert(bytes@.take(0) =~= Seq::<u8>::empty());
    while i < bytes.len()
        invariant
            i <= bytes@.len(),
            out@ == start + percent_encoding(bytes@.take(i as int)),
        decreases bytes@.len() - i,
    {
        let b: u8 = bytes[i];
        let high: u8 = b / 16;
        let low: u8 = b % 16;
        let ghost before = out@;
        push_char(out, '%');
        push_char(
            out,
            if high < 10 {
                (48 + high) as char
            } else {
                (55 + high) as char
            },
        );
        push_char(
            out,
            if low < 10 {
                (48 + low) as char
            } else {
                (55 + low) as char
            },
        );
        proof {
            assert(bytes@.take(i + 1).drop_last() =~= bytes@.take(i as int));
            assert(bytes@.take(i + 1).last() == b);
            assert(out@ =~= before + seq!['%', hex_upper(b as int / 16), hex_upper(b as int % 16)]);
        }
        i += 1;
    }
    assert(bytes@.take(i as int) =~= bytes@);
}

/// Appends the decimal digits of `n` to `out`.
pub fn append_decimal(n: u64, out: &mut String)
    ensures
        final(out)@ == old(out)@ + decimal_text(n as nat),
{
    let ghost start = out@;
    let mut digits: Vec<u8> = Vec::new();
    write_decimal(n, &mut digits);
    assert(digits@ =~= digits_of(n as nat));
    let mut i: usize = 0;
    while i < digits.len()
        invariant
            i <= digits@.len(),
            digits@ == digits_of(n as nat),
            out@ == start + decimal_text(n as nat).take(i as int),
        decreases digits@.len() - i,
    {
        let ghost before = out@;
        push_char(out, digits[i] as char);
        assert(out@ =~= start + decimal_text(n as nat).take(i + 1));
        i += 1;
    }
    assert(decimal_text(n as nat).take(i as int) =~= decimal_text(n as nat));
}

/// The query of an announce.
pub fn query(
    info_hash: &[u8; 20],
    peer_id: &[u8; 20],
    port: u16,
    uploaded: u64,
    downloaded: u64,
    left: u64,
    started: bool,
) -> (q: String)
    ensures
        q@ == query_text(info_hash@, peer_id@, port, uploaded, downloaded, left, started),
{
    let mut q = String::new();
    q.append("info_hash=");
    percent_encode_into(info_hash.as_slice(), &mut q);
    q.append("&peer_id=");
    percent_encode_into(peer_id.as_slice(), &mut q);
    q.append("&port=");
    append_decimal(port as u64, &mut q);
    q.append("&uploaded=");
    append_decimal(uploaded, &mut q);
    q.append("&downloaded=");
    append_decimal(downloaded, &mut q);
    q.append("&left=");
    append_decimal(left, &mut q);
    if started {
        q.append("&event=started");
    }
    assert(q@ =~= query_text(info_hash@, peer_id@, port, uploaded, downloaded, left, started));
    q
}

/// The URL of a request: the tracker's URL, a question mark, the query.
pub fn request_url(base: &str, query: &str) -> (url: String)
    ensures
        url@ == base@ + seq!['?'] + query@,
{
    let mut url = String::new();
    url.append(base);
    push_char(&mut url, '?');
    url.append(query);
    assert(url@ =~= base@ + seq!['?'] + query@);
    url
}

/// The URL to fetch for an announce to the tracker at `announce` with `query`.
///
/// The tracker's address is normalised by parsing it as a URL; an address that is
/// no absolute URL makes the tracker unreachable.
pub fn announce_url(announce: &str, query: &str) -> (r: Result<String, ApplicationError>)
    ensures
        match r {
            Ok(url) => url_serialization(announce@) matches Some(base) && url@ == base + seq!['?']
                + query@,
            Err(e) => url_serialization(announce@) is None && e == ApplicationError::TrackerError(
                Fault::TrackerUnreachable,
            ),
        },
{
    match parse_url(announce) {
        Ok(base) => Ok(request_url(base.as_str(), query)),
        Err(_) => Err(ApplicationError::TrackerError(Fault::TrackerUnreachable)),
    }
}

/// The client's side of the exchange with a tracker.
#[derive(Debug, Clone, Copy, PartialEq, Eq)]
pub struct Tracker;

impl Tracker {
    /// The percent-encoding of twenty bytes.
    pub fn percent_encode(bytes: &[u8; 20]) -> (s: String)
        ensures
            s@ == percent_encoding(bytes@),
    {
        let mut s = String::new();
        percent_encode_into(bytes.as_slice(), &mut s);
        assert(s@ =~= percent_encoding(bytes@));
        s
    }

    /// The URL of the first announce for `torrent`: nothing is uploaded or
    /// downloaded yet, and all of the content is left.
    pub fn announce_url(&self, torrent: &Torrent) -> (r: Result<String, ApplicationError>)
        requires
            torrent.wf(),
        ensures
            match r {
                Ok(url) => url_serialization(torrent.announce@) matches Some(base) && url@ == base
                    + seq!['?'] + query_text(
                    sha1_digest(torrent.info_raw_bytes@),
                    PEER_ID@,
                    LISTEN_PORT,
                    0,
                    0,
                    torrent.info.total() as u64,
                    true,
                ),
                Err(e) => url_serialization(torrent.announce@) is None && e
                    == ApplicationError::TrackerError(Fault::TrackerUnreachable),
            },
    {
        proof {
            lemma_total_not_negative(torrent.info.lengths());
        }
        let info_hash = torrent.info_hash();
        let left: u64 = torrent.total_size() as u64;
        let q = query(&info_hash, &PEER_ID, LISTEN_PORT, 0, 0, left, true);
        announce_url(torrent.announce.as_str(), q.as_str())
    }

    /// The roster of peers in the bytes that a tracker answered.
    pub fn read_peers(&self, raw: &[u8]) -> (r: Result<Vec<Peer>, ApplicationError>)
        ensures
            match parse(raw@) {
                None => r matches Err(e) && e == ApplicationError::TrackerError(
                    Fault::TrackerMalformed,
                ),
                Some(doc) => match read_response(doc) {
                    Ok((peers, _)) => r matches Ok(list) && peer_views(list@) == roster(peers),
                    Err(f) => r matches Err(e) && e == ApplicationError::TrackerError(f),
                },
            },
    {
        match AnnounceResponse::from_bytes(raw) {
            Ok(answer) => Ok(answer.peers()),
            Err(e) => Err(e),
        }
    }
}

} // verus!
