use serde_json::Value;
use tcp_gateway::address::{make_address, split_route};
use tcp_gateway::escape::{encode_ascii, hex_escape};
use tcp_gateway::framing::{Channel, PeerClosed};
use tcp_gateway::gateway::{Gateway, UPSTREAM};
use tcp_gateway::table::ConnectionTable;

fn chars(s: &str) -> Vec<char> {
    s.chars().collect()
}

fn json(s: &str) -> Value {
    serde_json::from_str(s).unwrap()
}

fn decode_in_chunks(data: &[u8], chunk: usize) -> Vec<Value> {
    let mut ch = Channel::new();
    let mut out = Vec::new();
    for piece in data.chunks(chunk) {
        ch.receive(piece);
        out.extend(ch.read().unwrap());
    }
    out
}

#[test]
fn framing_round_trip_any_chunking() {
    let data = b"{\"a\":1}\n{\"b\":[1,2]}\n\n{\"c\":\"x\"}\n";
    let whole = decode_in_chunks(data, data.len());
    let bytewise = decode_in_chunks(data, 1);
    let threes = decode_in_chunks(data, 3);
    let expected = vec![json("{\"a\":1}"), json("{\"b\":[1,2]}"), json("{\"c\":\"x\"}")];
    assert_eq!(whole, expected);
    assert_eq!(bytewise, expected);
    assert_eq!(threes, expected);
}

#[test]
fn partial_line_is_kept_for_the_next_read() {
    let mut ch = Channel::new();
    ch.receive(b"{\"a\":1}\n{\"b\":2");
    assert_eq!(ch.read().unwrap(), vec![json("{\"a\":1}")]);
    ch.receive(b"}\n");
    assert_eq!(ch.read().unwrap(), vec![json("{\"b\":2}")]);
}

#[test]
fn malformed_line_is_dropped() {
    let mut ch = Channel::new();
    ch.receive(b"{\"a\":1}\nnot json\n{\"b\":2}\n");
    assert_eq!(ch.read().unwrap(), vec![json("{\"a\":1}"), json("{\"b\":2}")]);
}

#[test]
fn empty_buffer_reports_peer_closed() {
    let mut ch = Channel::new();
    assert_eq!(ch.read(), Err(PeerClosed));
    ch.receive(b"{\"a\":1}\n");
    assert_eq!(ch.read().unwrap().len(), 1);
    assert_eq!(ch.read(), Err(PeerClosed));
}

#[test]
fn only_partial_line_yields_no_message() {
    let mut ch = Channel::new();
    ch.receive(b"{\"a\"");
    assert_eq!(ch.read().unwrap(), Vec::<Value>::new());
    assert_eq!(ch.read().unwrap(), Vec::<Value>::new());
}

#[test]
fn non_ascii_is_escaped() {
    assert_eq!(encode_ascii(&chars("é")), b"\\u00E9".to_vec());
    assert_eq!(encode_ascii(&chars("aé\n")), b"a\\u00E9\n".to_vec());
    assert_eq!(encode_ascii(&chars("\u{1F600}")), b"\\uD83D\\uDE00".to_vec());
    assert_eq!(encode_ascii(&chars("\u{10FFFF}")), b"\\uDBFF\\uDFFF".to_vec());
    assert_eq!(encode_ascii(&chars("\u{10000}")), b"\\uD800\\uDC00".to_vec());
    assert_eq!(encode_ascii(&chars("\u{FFFF}")), b"\\uFFFF".to_vec());
    assert_eq!(encode_ascii(&chars("\u{3A9}")), b"\\u03A9".to_vec());
    assert_eq!(hex_escape(&chars("aé")), b"\\u0061\\u00E9".to_vec());
    assert_eq!(encode_ascii(&[]), Vec::<u8>::new());
}

#[test]
fn escaped_message_decodes_to_the_same_character() {
    let mut gw = Gateway::new(chars("tcp"));
    let i = gw.accept();
    gw.receive(i, "{\"from\":{\"channel\":\"caf\u{e9}\"}}\n".as_bytes());
    let out = gw.route_client(i).unwrap();
    assert!(out.iter().all(|b| *b < 128));
    let text = String::from_utf8(out).unwrap();
    assert!(text.contains("\\u00E9"));
    let back: Value = serde_json::from_str(text.trim_end()).unwrap();
    assert_eq!(back["from"]["channel"], Value::String("tcp:1:caf\u{e9}".to_string()));
}

#[test]
fn client_address_is_prefixed() {
    let mut gw = Gateway::new(chars("tcp"));
    assert_eq!(gw.accept(), 1);
    assert_eq!(gw.accept(), 2);
    assert_eq!(gw.accept(), 3);
    gw.receive(3, b"{\"from\":{\"channel\":\"room1\"}}\n");
    let out = gw.route_client(3).unwrap();
    assert_eq!(out, b"{\"from\":{\"channel\":\"tcp:3:room1\"}}\n".to_vec());
}

#[test]
fn router_message_reaches_the_client() {
    let mut gw = Gateway::new(chars("tcp"));
    gw.accept();
    gw.accept();
    gw.accept();
    gw.receive(UPSTREAM, b"{\"to\":{\"channel\":\"tcp:3:room1\"}}\n");
    let ds = gw.route_upstream().unwrap();
    assert_eq!(ds.len(), 1);
    assert_eq!(ds[0].index, 3);
    let text: String = ds[0].text.iter().collect();
    assert_eq!(text, "{\"to\":{\"channel\":\"room1\"}}\n");
}

#[test]
fn router_message_keeps_nested_rest_and_unicode() {
    let mut gw = Gateway::new(chars("tcp"));
    gw.accept();
    gw.receive(UPSTREAM, "{\"to\":{\"channel\":\"tcp:1:sub:2:\u{e9}\"}}\n".as_bytes());
    let ds = gw.route_upstream().unwrap();
    assert_eq!(ds.len(), 1);
    let text: String = ds[0].text.iter().collect();
    assert_eq!(text, "{\"to\":{\"channel\":\"sub:2:\u{e9}\"}}\n");
}

#[test]
fn bad_router_addresses_are_dropped() {
    let mut gw = Gateway::new(chars("tcp"));
    gw.accept();
    gw.receive(
        UPSTREAM,
        b"{\"to\":{\"channel\":\"tcp:1\"}}\n{\"to\":{\"channel\":\"tcp:x:a\"}}\n{\"to\":{\"channel\":\"tcp:9:a\"}}\n{\"x\":1}\n{\"to\":{\"channel\":\"tcp:1:ok\"}}\n",
    );
    let ds = gw.route_upstream().unwrap();
    assert_eq!(ds.len(), 1);
    assert_eq!(ds[0].index, 1);
}

#[test]
fn client_message_without_from_is_dropped() {
    let mut gw = Gateway::new(chars("gw"));
    let i = gw.accept();
    gw.receive(i, b"{\"x\":1}\nnot json\n{\"from\":{\"channel\":\"a\"}}\n");
    let out = gw.route_client(i).unwrap();
    assert_eq!(out, b"{\"from\":{\"channel\":\"gw:1:a\"}}\n".to_vec());
}

#[test]
fn closed_client_index_is_reused() {
    let mut gw = Gateway::new(chars("tcp"));
    assert_eq!(gw.accept(), 1);
    assert_eq!(gw.accept(), 2);
    assert_eq!(gw.accept(), 3);
    assert_eq!(gw.route_client(2), None);
    assert!(!gw.in_use(2));
    assert_eq!(gw.accept(), 2);
    assert_eq!(gw.accept(), 4);
}

#[test]
fn upstream_loss_is_fatal() {
    let mut gw = Gateway::new(chars("tcp"));
    let i = gw.accept();
    gw.receive(i, b"{\"from\":{\"channel\":\"a\"}}\n");
    assert!(gw.route_upstream().is_err());
    assert!(gw.in_use(UPSTREAM));
    assert!(gw.in_use(i));
}

#[test]
fn table_takes_lowest_free_index() {
    let mut t = ConnectionTable::new();
    assert_eq!(t.insert(Channel::new()), 0);
    assert_eq!(t.insert(Channel::new()), 1);
    assert_eq!(t.insert(Channel::new()), 2);
    t.remove(0);
    t.remove(2);
    assert!(!t.in_use_at(0));
    assert_eq!(t.insert(Channel::new()), 0);
    assert_eq!(t.insert(Channel::new()), 2);
    assert_eq!(t.insert(Channel::new()), 3);
}

#[test]
fn addresses_split_and_join() {
    assert_eq!(make_address(&chars("tcp"), 3, &chars("room1")), chars("tcp:3:room1"));
    assert_eq!(make_address(&chars(""), 0, &chars("")), chars(":0:"));
    assert_eq!(make_address(&chars("p"), 1203, &chars("x")), chars("p:1203:x"));
    assert_eq!(split_route(&chars("tcp:3:room1")), Some((3, chars("room1"))));
    assert_eq!(split_route(&chars("tcp:007:a:b")), Some((7, chars("a:b"))));
    assert_eq!(split_route(&chars("tcp:3:")), Some((3, chars(""))));
    assert_eq!(split_route(&chars("tcp:3")), None);
    assert_eq!(split_route(&chars("tcp::a")), None);
    assert_eq!(split_route(&chars("tcp:+3:a")), None);
    assert_eq!(split_route(&chars("tcp:99999999999999999999999:a")), None);
    assert_eq!(split_route(&chars("")), None);
}

#[test]
fn escapes_above_the_basic_plane_decode_back() {
    let text = "a\u{e9}\u{1F600}\u{10FFFF}\u{10000}z";
    let mut quoted = b"\"".to_vec();
    quoted.extend(encode_ascii(&chars(text)));
    quoted.push(b'"');
    assert!(quoted.iter().all(|b| *b < 128));
    let back: String = serde_json::from_slice(&quoted).unwrap();
    assert_eq!(back, text);
}

#[test]
fn router_message_for_the_router_slot_is_dropped() {
    let mut gw = Gateway::new(chars("tcp"));
    gw.accept();
    gw.receive(UPSTREAM, b"{\"to\":{\"channel\":\"tcp:0:x\"}}\n{\"to\":{\"channel\":\"tcp:1:y\"}}\n");
    let ds = gw.route_upstream().unwrap();
    assert_eq!(ds.len(), 1);
    assert_eq!(ds[0].index, 1);
}

#[test]
fn closed_client_frees_its_slot() {
    let mut gw = Gateway::new(chars("tcp"));
    assert_eq!(gw.accept(), 1);
    assert_eq!(gw.accept(), 2);
    gw.receive(1, b"{\"from\":{\"channel\":\"a\"}}\n");
    gw.close(1);
    assert!(!gw.in_use(1));
    assert!(gw.in_use(2));
    assert_eq!(gw.accept(), 1);
}
