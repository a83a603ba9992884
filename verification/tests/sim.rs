use serde_json::Value;
use rustdecks::sim::{
    api_version, capabilities_url, command_id, dataref_meta, json_to_value, parse_beacon,
    parse_update_text, parse_updates, read_json, request_json, split_ref, ws_url, DataValue,
    DatarefMeta, Json, JsonNumber, Request, Sim,
    Update,
};

/// Read JSON text into the library's document model.
fn json(text: &str) -> Json {
    read_json(text).unwrap()
}

#[test]
fn beacon_parsing() {
    let mut pkt = Vec::new();
    pkt.extend_from_slice(b"BECN\x00");
    pkt.push(1); // major
    pkt.push(1); // minor
    pkt.extend_from_slice(&1i32.to_le_bytes()); // host_id = X-Plane
    pkt.extend_from_slice(&121400i32.to_le_bytes()); // version
    pkt.extend_from_slice(&1u32.to_le_bytes()); // role
    pkt.extend_from_slice(&49000u16.to_le_bytes()); // udp port
    assert_eq!(parse_beacon(&pkt), Some(121400));

    // PlaneMaker (host_id 2) is rejected
    pkt[7] = 2;
    assert_eq!(parse_beacon(&pkt), None);

    assert_eq!(parse_beacon(b"junk"), None);
}

#[test]
fn parse_update_message() {
    let text = r#"{"type":"dataref_update_values","data":{"42":3.5,"7":[1.0,0.0,2.0],"9":true}}"#;
    let mut ups = parse_update_text(text);
    ups.sort_by_key(|u| u.id);
    assert_eq!(ups.len(), 3);
    assert!(matches!(ups[0], Update { id: 7, value: DataValue::Array(_) }));
    assert_eq!(ups[1].value.scalar(None), Some(1.0f64.to_bits())); // id 9 = true
    assert_eq!(ups[2].value.scalar(None), Some(3.5f64.to_bits())); // id 42
}

#[test]
fn ignores_non_updates() {
    assert!(parse_update_text(r#"{"type":"result","req_id":1,"success":true}"#).is_empty());
}

#[test]
fn array_indexing() {
    let v = DataValue::Array(vec![10.0f64.to_bits(), 20.0f64.to_bits(), 30.0f64.to_bits()]);
    assert_eq!(v.scalar(Some(1)), Some(20.0f64.to_bits()));
    assert_eq!(v.scalar(Some(9)), None);
    assert_eq!(DataValue::Num(5.0f64.to_bits()).scalar(Some(2)), Some(5.0f64.to_bits()));
}

#[test]
fn ref_splitting() {
    assert_eq!(split_ref("sim/foo/bar"), ("sim/foo/bar", None));
    assert_eq!(split_ref("sim/foo/bar[3]"), ("sim/foo/bar", Some(3)));
    assert_eq!(split_ref("sim/foo[x]"), ("sim/foo[x]", None));
}

#[test]
fn ref_splitting_edges() {
    assert_eq!(split_ref("a[1][2]"), ("a[1]", Some(2)));
    assert_eq!(split_ref("a[]"), ("a[]", None));
    assert_eq!(split_ref("a[+4]"), ("a", Some(4)));
    assert_eq!(split_ref("a[-1]"), ("a[-1]", None));
    assert_eq!(split_ref("[0]"), ("", Some(0)));
    assert_eq!(split_ref("a[3"), ("a[3", None));
    assert_eq!(split_ref(""), ("", None));
}

#[test]
fn beacon_edges() {
    let mut pkt = b"BECN\x00\x01\x01".to_vec();
    pkt.extend_from_slice(&1i32.to_le_bytes());
    pkt.extend_from_slice(&(-5i32).to_le_bytes());
    pkt.extend_from_slice(&[0; 6]);
    assert_eq!(pkt.len(), 21);
    assert_eq!(parse_beacon(&pkt), Some(-5));
    assert_eq!(parse_beacon(&pkt[..20]), None);
    pkt[4] = b'!';
    assert_eq!(parse_beacon(&pkt), None);
}

#[test]
fn update_values_of_every_kind() {
    let msg = json(
        r#"{"type":"dataref_update_values","data":{"1":"text","x":2.0,"3":[1,"a",2.5],"-4":false,"5":null}}"#,
    );
    let ups = parse_updates(&msg);
    // member order is kept; the string, the non-numeric key and null are skipped
    assert_eq!(ups.len(), 2);
    assert_eq!(ups[0].id, -4);
    assert_eq!(ups[0].value.scalar(None), Some(0));
    assert_eq!(ups[1].id, 3);
    assert_eq!(ups[1].value.scalar(Some(0)), Some(1.0f64.to_bits()));
    assert_eq!(ups[1].value.scalar(Some(1)), Some(2.5f64.to_bits()));
    assert_eq!(ups[1].value.scalar(Some(2)), None);
    assert!(parse_updates(&json(r#"{"type":"dataref_update_values","data":[1]}"#)).is_empty());
    assert!(parse_updates(&json(r#"[1,2]"#)).is_empty());
    assert!(json_to_value(&json(r#""s""#)).is_none());
    assert!(matches!(json_to_value(&json("[]")), Some(DataValue::Array(a)) if a.is_empty()));
    assert_eq!(DataValue::Array(vec![]).scalar(None), None);
}

#[test]
fn rest_replies() {
    let body = json(r#"{"data":[{"id":77,"name":"sim/x","is_writable":true},{"id":5}]}"#);
    assert_eq!(dataref_meta(&body), Some(DatarefMeta { id: 77, writable: true }));
    assert_eq!(command_id(&body), Some(77));
    let ro = json(r#"{"data":[{"id":8}]}"#);
    assert_eq!(dataref_meta(&ro), Some(DatarefMeta { id: 8, writable: false }));
    assert_eq!(dataref_meta(&json(r#"{"data":[]}"#)), None);
    assert_eq!(command_id(&json(r#"{"data":[{"id":1.5}]}"#)), None);
    assert_eq!(command_id(&json(r#"{"error":"nope"}"#)), None);
}

#[test]
fn api_version_picks_last_or_v2() {
    let caps = json(r#"{"api":{"versions":["v1","v2","v3"]}}"#);
    assert_eq!(api_version(Some(&caps)), "v3");
    assert_eq!(api_version(Some(&json(r#"{"api":{"versions":[]}}"#))), "v2");
    assert_eq!(api_version(Some(&json(r#"{"api":{"versions":["v1",3]}}"#))), "v2");
    assert_eq!(api_version(None), "v2");
}

#[test]
fn addresses() {
    assert_eq!(capabilities_url("10.0.0.2", 8086), "http://10.0.0.2:8086/api/capabilities");
    assert_eq!(ws_url("127.0.0.1", 8086, "v2"), "ws://127.0.0.1:8086/api/v2");
    let sim = Sim::new("localhost", 80, "v3");
    assert_eq!(sim.rest_base(), "http://localhost:80/api/v3");
    assert_eq!(
        sim.dataref_url("sim/cockpit/x"),
        "http://localhost:80/api/v3/datarefs?filter[name]=sim/cockpit/x"
    );
    assert_eq!(
        sim.command_url("sim/engines/go"),
        "http://localhost:80/api/v3/commands?filter[name]=sim/engines/go"
    );
}

#[test]
fn requests_number_consecutively() {
    let mut sim = Sim::new("h", 1, "v2");
    assert!(sim.subscribe(&[]).is_none());
    match sim.subscribe(&[4, 9]) {
        Some(Request::Subscribe { req_id, ids }) => {
            assert_eq!(req_id, 1);
            assert_eq!(ids, vec![4, 9]);
        }
        other => panic!("{other:?}"),
    }
    match sim.set_dataref(12, 0.5f64.to_bits()) {
        Request::SetDataref { req_id, id, value } => {
            assert_eq!((req_id, id, value), (2, 12, 0.5f64.to_bits()));
        }
        other => panic!("{other:?}"),
    }
    match sim.run_command(30) {
        (
            Request::CommandActive { req_id: a, id: x, active: true },
            Request::CommandActive { req_id: b, id: y, active: false },
        ) => {
            assert_eq!((a, b, x, y), (3, 4, 30, 30));
        }
        other => panic!("{other:?}"),
    }
}

#[test]
fn text_that_is_not_json_carries_no_updates() {
    assert!(read_json("{not json").is_none());
    assert!(parse_update_text("{not json").is_empty());
    assert!(parse_update_text("").is_empty());
    assert!(matches!(json("7"), Json::Number(JsonNumber { int: Some(7), uint: Some(7), float_bits: Some(b) }) if b == 7.0f64.to_bits()));
    assert!(matches!(json("-1.5"), Json::Number(JsonNumber { int: None, uint: None, .. })));
}

fn to_value(j: &Json) -> Value {
    match j {
        Json::Null => Value::Null,
        Json::Bool(b) => Value::Bool(*b),
        Json::Number(n) => match (n.uint, n.int, n.float_bits) {
            (Some(u), _, _) => Value::from(u),
            (None, Some(i), _) => Value::from(i),
            (None, None, Some(bits)) => Value::from(f64::from_bits(bits)),
            (None, None, None) => Value::Null,
        },
        Json::Str(s) => Value::String(s.clone()),
        Json::Array(a) => Value::Array(a.iter().map(to_value).collect()),
        Json::Object(m) => Value::Object(m.iter().map(|(k, v)| (k.clone(), to_value(v))).collect()),
    }
}

#[test]
fn requests_in_the_web_api_json() {
    let sub = Request::Subscribe { req_id: 1, ids: vec![4, 9] };
    assert_eq!(
        to_value(&request_json(&sub)).to_string(),
        r#"{"params":{"datarefs":[{"id":4},{"id":9}]},"req_id":1,"type":"dataref_subscribe_values"}"#
    );
    let set = Request::SetDataref { req_id: 2, id: 12, value: 0.5f64.to_bits() };
    assert_eq!(
        to_value(&request_json(&set)).to_string(),
        r#"{"params":{"datarefs":[{"id":12,"value":0.5}]},"req_id":2,"type":"dataref_set_values"}"#
    );
    let press = Request::CommandActive { req_id: 3, id: 30, active: true };
    assert_eq!(
        to_value(&request_json(&press)).to_string(),
        r#"{"params":{"commands":[{"duration":0.0,"id":30,"is_active":true}]},"req_id":3,"type":"command_set_is_active"}"#
    );
    let release = Request::CommandActive { req_id: 4, id: 30, active: false };
    assert_eq!(
        to_value(&request_json(&release)).to_string(),
        r#"{"params":{"commands":[{"id":30,"is_active":false}]},"req_id":4,"type":"command_set_is_active"}"#
    );
    let big = Request::Subscribe { req_id: u64::MAX, ids: vec![-3] };
    assert_eq!(
        to_value(&request_json(&big)).to_string(),
        format!(r#"{{"params":{{"datarefs":[{{"id":-3}}]}},"req_id":{},"type":"dataref_subscribe_values"}}"#, u64::MAX)
    );
}

#[test]
fn split_ref_reads_back_name_and_index() {
    for &(name, i) in &[("sim/a/b", 0usize), ("x", 7), ("sim/c[2]", 123456)] {
        let text = format!("{}[{}]", name, i);
        assert_eq!(split_ref(&text), (name, Some(i)));
    }
}
