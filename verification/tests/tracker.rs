use leech::bencode::{encode, Value};
use leech::error::{ApplicationError, Fault};
use leech::peer::{IpAddress, Peer};
use leech::torrent::{Info, Torrent};
use leech::tracker::{
    announce_url, append_decimal, parse_ipv4, percent_encode_into, query, request_url,
    AnnounceResponse, Tracker, LISTEN_PORT, PEER_ID,
};
use sha1::{Digest, Sha1};

fn bytes(s: &str) -> Value {
    Value::Bytes(s.as_bytes().to_vec())
}

fn entry(k: &str, v: Value) -> (Vec<u8>, Value) {
    (k.as_bytes().to_vec(), v)
}

fn v4(a: u8, b: u8, c: u8, d: u8, port: u16) -> Peer {
    Peer { ip: IpAddress::V4([a, b, c, d]), port }
}

fn answer(peers: Value) -> Vec<u8> {
    encode(&Value::Dict(vec![entry("interval", Value::Int(1800)), entry("peers", peers)]))
}

fn listed(ip: &str, port: i64) -> Value {
    Value::Dict(vec![entry("ip", bytes(ip)), entry("port", Value::Int(port))])
}

#[test]
fn compact_peer_list_gives_address_and_port() {
    let raw = answer(Value::Bytes(vec![0xC0, 0xA8, 0x01, 0x01, 0x1A, 0xE1]));
    let response = AnnounceResponse::from_bytes(&raw).unwrap();
    assert_eq!(response.interval, Some(1800));
    assert_eq!(response.peers(), vec![v4(192, 168, 1, 1, 6881)]);
    assert_eq!(Tracker.read_peers(&raw), Ok(vec![v4(192, 168, 1, 1, 6881)]));
}

#[test]
fn compact_peer_list_with_several_peers() {
    let data = vec![10, 0, 0, 1, 0x00, 0x50, 10, 0, 0, 2, 0xC8, 0xD5, 1, 2, 3, 4, 0xFF, 0xFF];
    let response = AnnounceResponse { peers_data: Value::Bytes(data), interval: None };
    assert_eq!(
        response.peers(),
        vec![v4(10, 0, 0, 1, 80), v4(10, 0, 0, 2, 51413), v4(1, 2, 3, 4, 65535)]
    );
}

#[test]
fn bytes_that_fill_no_group_of_six_are_left_out() {
    let data = vec![10, 0, 0, 1, 0x1A, 0xE1, 10, 0, 0, 2, 0x1A];
    let response = AnnounceResponse { peers_data: Value::Bytes(data), interval: None };
    assert_eq!(response.peers(), vec![v4(10, 0, 0, 1, 6881)]);
    let short = AnnounceResponse { peers_data: Value::Bytes(vec![1, 2, 3]), interval: None };
    assert_eq!(short.peers(), vec![]);
    let none = AnnounceResponse { peers_data: Value::Bytes(vec![]), interval: None };
    assert_eq!(none.peers(), vec![]);
}

#[test]
fn listed_peers_are_read_from_dictionaries() {
    let raw = answer(Value::List(vec![listed("192.168.1.1", 6881), listed("10.0.0.2", 51413)]));
    assert_eq!(
        Tracker.read_peers(&raw),
        Ok(vec![v4(192, 168, 1, 1, 6881), v4(10, 0, 0, 2, 51413)])
    );
}

#[test]
fn listed_peers_that_describe_none_are_left_out() {
    let list = Value::List(vec![
        listed("999.1.1.1", 1),
        listed("1.2.3.4", 2),
        listed("01.2.3.4", 3),
        Value::Int(5),
        Value::Dict(vec![entry("ip", bytes("5.6.7.8"))]),
        Value::Dict(vec![entry("port", Value::Int(9))]),
        Value::Dict(vec![entry("ip", Value::Int(1)), entry("port", Value::Int(9))]),
        Value::Dict(vec![entry("ip", bytes("5.6.7.8")), entry("port", bytes("9"))]),
        listed("example.com", 4),
        listed("9.8.7.6", 10),
    ]);
    let response = AnnounceResponse { peers_data: list, interval: None };
    assert_eq!(response.peers(), vec![v4(1, 2, 3, 4, 2), v4(9, 8, 7, 6, 10)]);
}

#[test]
fn of_a_listed_port_the_low_sixteen_bits_count() {
    let list = Value::List(vec![listed("1.1.1.1", 70000), listed("1.1.1.2", -1), listed("1.1.1.3", 65536)]);
    let response = AnnounceResponse { peers_data: list, interval: None };
    assert_eq!(
        response.peers(),
        vec![v4(1, 1, 1, 1, 4464), v4(1, 1, 1, 2, 65535), v4(1, 1, 1, 3, 0)]
    );
}

#[test]
fn other_encodings_of_the_peers_give_an_empty_roster() {
    assert_eq!(Tracker.read_peers(&answer(Value::Int(7))), Ok(vec![]));
    assert_eq!(Tracker.read_peers(&answer(Value::Dict(vec![]))), Ok(vec![]));
    assert_eq!(Tracker.read_peers(&answer(Value::List(vec![]))), Ok(vec![]));
}

#[test]
fn a_failure_reason_is_a_tracker_failure() {
    let raw = encode(&Value::Dict(vec![entry("failure reason", bytes("unregistered torrent"))]));
    assert_eq!(
        AnnounceResponse::from_bytes(&raw),
        Err(ApplicationError::TrackerError(Fault::TrackerFailure))
    );
    let both = encode(&Value::Dict(vec![
        entry("failure reason", bytes("no")),
        entry("peers", Value::Bytes(vec![])),
    ]));
    assert_eq!(
        Tracker.read_peers(&both),
        Err(ApplicationError::TrackerError(Fault::TrackerFailure))
    );
}

#[test]
fn answers_that_are_no_announce_response_are_malformed() {
    let malformed = Err(ApplicationError::TrackerError(Fault::TrackerMalformed));
    assert_eq!(Tracker.read_peers(b""), malformed);
    assert_eq!(Tracker.read_peers(b"<html>"), malformed);
    assert_eq!(Tracker.read_peers(b"i1e"), malformed);
    assert_eq!(Tracker.read_peers(b"de"), malformed);
    assert_eq!(Tracker.read_peers(b"d8:intervali1800ee"), malformed);
    assert_eq!(Tracker.read_peers(b"d8:interval2:185:peers0:e"), malformed);
    assert_eq!(Tracker.read_peers(b"d5:peers0:e"), Ok(vec![]));
    let no_interval = AnnounceResponse::from_bytes(b"d5:peers0:e").unwrap();
    assert_eq!(no_interval.interval, None);
}

#[test]
fn dotted_quads_are_read() {
    assert_eq!(parse_ipv4(b"192.168.1.1"), Some([192, 168, 1, 1]));
    assert_eq!(parse_ipv4(b"0.0.0.0"), Some([0, 0, 0, 0]));
    assert_eq!(parse_ipv4(b"255.255.255.255"), Some([255, 255, 255, 255]));
    assert_eq!(parse_ipv4(b"10.20.30.40"), Some([10, 20, 30, 40]));
}

#[test]
fn what_is_no_dotted_quad_is_refused() {
    let bad: Vec<&[u8]> = vec![
        b"", b"1", b"1.2.3", b"1.2.3.", b"1.2.3.4.", b"1.2.3.4.5", b".1.2.3", b"1..2.3",
        b"256.1.1.1", b"1.1.1.256", b"01.1.1.1", b"1.1.1.01", b"1.1.1.00", b"1000.1.1.1",
        b"a.b.c.d", b"1.2.3.4 ", b" 1.2.3.4", b"1,2,3,4", b"-1.2.3.4", b"1.2.3.4\n",
    ];
    for text in bad {
        assert_eq!(parse_ipv4(text), None, "{:?}", String::from_utf8_lossy(text));
    }
}

#[test]
fn octets_with_a_leading_zero_are_refused() {
    assert_eq!(parse_ipv4(b"192.168.001.1"), None);
    assert_eq!(parse_ipv4(b"127.0.0.1"), Some([127, 0, 0, 1]));
    assert_eq!(parse_ipv4(b"8.8.8.8"), Some([8, 8, 8, 8]));
    assert_eq!(parse_ipv4(b"1.2.3.a"), None);
    assert_eq!(parse_ipv4(b"300.1.1.1"), None);
}

#[test]
fn bytes_are_percent_encoded_in_upper_case() {
    assert_eq!(
        Tracker::percent_encode(&PEER_ID),
        "%2D%52%55%30%30%30%31%2D%31%32%33%34%35%36%37%38%39%30%31%30"
    );
    let mut all = [0u8; 20];
    for i in 0..20 {
        all[i] = (i * 13) as u8;
    }
    let expected: String = all.iter().map(|b| format!("%{:02X}", b)).collect();
    assert_eq!(Tracker::percent_encode(&all), expected);
    let mut out = String::from("x=");
    percent_encode_into(&[0x00, 0x0f, 0xa0, 0xff, b'a'], &mut out);
    assert_eq!(out, "x=%00%0F%A0%FF%61");
}

#[test]
fn the_peer_id_is_the_client_name() {
    assert_eq!(&PEER_ID[..], b"-RU0001-123456789010");
    assert_eq!(LISTEN_PORT, 6881);
}

#[test]
fn numbers_are_appended_in_decimal() {
    let mut out = String::new();
    append_decimal(0, &mut out);
    out.push(',');
    append_decimal(7, &mut out);
    out.push(',');
    append_decimal(6881, &mut out);
    out.push(',');
    append_decimal(u64::MAX, &mut out);
    assert_eq!(out, "0,7,6881,18446744073709551615");
}

#[test]
fn the_query_names_every_parameter() {
    let q = query(&[0xAB; 20], &PEER_ID, 6881, 1, 22, 40000, true);
    assert_eq!(
        q,
        "info_hash=%AB%AB%AB%AB%AB%AB%AB%AB%AB%AB%AB%AB%AB%AB%AB%AB%AB%AB%AB%AB\
&peer_id=%2D%52%55%30%30%30%31%2D%31%32%33%34%35%36%37%38%39%30%31%30\
&port=6881&uploaded=1&downloaded=22&left=40000&event=started"
    );
    let later = query(&[0u8; 20], &[1u8; 20], 80, 0, 0, 0, false);
    assert!(later.ends_with("&port=80&uploaded=0&downloaded=0&left=0"));
    assert!(!later.contains("event"));
}

#[test]
fn the_request_url_joins_address_and_query() {
    assert_eq!(request_url("http://t/", "a=1&b=2"), "http://t/?a=1&b=2");
    assert_eq!(request_url("", ""), "?");
}

#[test]
fn the_announce_url_is_the_normalised_address_with_the_query() {
    assert_eq!(
        announce_url("http://tracker.example.com", "a=1"),
        Ok(String::from("http://tracker.example.com/?a=1"))
    );
    assert_eq!(
        announce_url("HTTP://Tracker.Example.COM:80/announce", "a=1"),
        Ok(String::from("http://tracker.example.com/announce?a=1"))
    );
    let theirs = url::Url::parse("http://tracker.example.com:6969/a b").unwrap();
    assert_eq!(
        announce_url("http://tracker.example.com:6969/a b", "q"),
        Ok(format!("{}?q", theirs))
    );
}

#[test]
fn an_address_that_is_no_url_makes_the_tracker_unreachable() {
    let unreachable = Err(ApplicationError::TrackerError(Fault::TrackerUnreachable));
    assert_eq!(announce_url("not a url", "a=1"), unreachable);
    assert_eq!(announce_url("", "a=1"), unreachable);
    assert_eq!(announce_url("/relative/path", "a=1"), unreachable);
}

#[test]
fn the_first_announce_of_a_torrent() {
    let t = Torrent {
        announce: String::from("http://tracker.example.com/announce"),
        info: Info {
            name: String::from("file.bin"),
            piece_length: 32768,
            pieces: vec![0u8; 40],
            length: Some(40000),
            files: None,
        },
        info_raw_bytes: b"d4:name8:file.bine".to_vec(),
    };
    assert!(t.check());
    let hash: [u8; 20] = Sha1::digest(b"d4:name8:file.bine").into();
    let expected = format!(
        "http://tracker.example.com/announce?info_hash={}&peer_id={}&port=6881&uploaded=0&downloaded=0&left=40000&event=started",
        Tracker::percent_encode(&hash),
        Tracker::percent_encode(&PEER_ID)
    );
    assert_eq!(Tracker.announce_url(&t), Ok(expected));
}
