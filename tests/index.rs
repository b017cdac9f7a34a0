use xdcc::index::{peer_entries, peer_table, search_records, PeerSpan};

fn text(s: &str, a: usize, b: usize) -> &str {
    &s[a..b]
}

#[test]
fn search_records_are_read_in_order() {
    let body = r#"{"content":[{"id":1,"botId":12,"number":345,"name":"Show - 01 [720p].mkv","size":"350M","sizekbits":1},{"botId":7,"number":8,"name":"a","size":"1G"}]}"#;
    let records = search_records(body.as_bytes()).unwrap();
    assert_eq!(records.len(), 2);
    assert_eq!((records[0].bot_id, records[0].pack), (12, 345));
    assert_eq!(text(body, records[0].name_start, records[0].name_end), "Show - 01 [720p].mkv");
    assert_eq!(text(body, records[0].size_start, records[0].size_end), "350M");
    assert_eq!((records[1].bot_id, records[1].pack), (7, 8));
    assert_eq!(text(body, records[1].name_start, records[1].name_end), "a");
    assert_eq!(text(body, records[1].size_start, records[1].size_end), "1G");
}

#[test]
fn fields_are_shortest_matches() {
    let body = r#""botId":1,"number":2,"name":"x","size":"","size":"9""#;
    let records = search_records(body.as_bytes()).unwrap();
    assert_eq!(records.len(), 1);
    assert_eq!(text(body, records[0].name_start, records[0].name_end), "x");
    assert_eq!(text(body, records[0].size_start, records[0].size_end), "\",");
}

#[test]
fn oversized_numbers_refuse_the_response() {
    assert!(search_records(br#""botId":70000,"number":1,"name":"a","size":"b""#).is_none());
    assert!(peer_entries(br#""id":65536,"name":"a""#).is_none());
}

#[test]
fn no_records_in_unrelated_text() {
    assert_eq!(search_records(b"{\"content\":[]}").unwrap().len(), 0);
    assert_eq!(search_records(b"\"botId\":1,\"number\":2,\"name\":\"\n\",\"size\":\"b\"").unwrap().len(), 0);
}

#[test]
fn peers_are_read_and_last_entry_wins() {
    let body = r#"[{"id":5,"name":"Arutha","owner":"x"},{"id":6,"name":"Other"},{"id":5,"name":"Arutha|NEW"}]"#;
    let peers = peer_entries(body.as_bytes()).unwrap();
    assert_eq!(peers.len(), 3);
    let table = peer_table(&peers);
    assert_eq!(table.len(), 2);
    let p: PeerSpan = *table.get(&5).unwrap();
    assert_eq!(text(body, p.name_start, p.name_end), "Arutha|NEW");
    let q = table[&6];
    assert_eq!(text(body, q.name_start, q.name_end), "Other");
    assert!(table.get(&9).is_none());
}
