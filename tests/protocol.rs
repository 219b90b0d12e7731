use aeterno::protocol::{
    body_length, decode_reply, decode_request, decode_request_frame, encode_reply,
    encode_request, Reply, Request, UnitId, MAX_BODY,
};
use aeterno::slave::{counterpart_version, helo_request, register_request, register_unit, Unit};

fn id(b: u8) -> UnitId {
    let mut bytes = [0u8; 16];
    for (i, x) in bytes.iter_mut().enumerate() {
        *x = b.wrapping_add(i as u8);
    }
    UnitId { bytes }
}

#[test]
fn request_frames_round_trip() {
    let reqs = vec![
        Request::Helo,
        Request::RegisterUnit,
        Request::UnitStartExecutable(id(9), "/bin/echo héllo".to_string()),
        Request::ProtocolError,
    ];
    for r in reqs {
        let f = encode_request(&r).unwrap();
        let back = decode_request_frame(&f).unwrap();
        assert_eq!(encode_request(&back).unwrap(), f);
    }
}

#[test]
fn start_executable_layout() {
    let f = encode_request(&Request::UnitStartExecutable(id(0), "ab".to_string())).unwrap();
    let mut want = vec![30u8, 0, 0, 0, 2, 0, 0, 0];
    want.extend_from_slice(&id(0).bytes);
    want.extend_from_slice(&[2, 0, 0, 0, 0, 0, 0, 0, b'a', b'b']);
    assert_eq!(f, want);
    match decode_request(&f) {
        Request::UnitStartExecutable(u, s) => {
            assert_eq!(u.bytes, id(0).bytes);
            assert_eq!(s, "ab");
        }
        _ => panic!("expected UnitStartExecutable"),
    }
}

#[test]
fn malformed_frames_are_protocol_errors() {
    let bad: Vec<Vec<u8>> = vec![
        vec![],
        vec![4, 0, 0],
        vec![4, 0, 0, 0, 9, 0, 0, 0],
        vec![5, 0, 0, 0, 0, 0, 0, 0, 0],
        vec![4, 0, 0, 0, 0, 0, 0],
        vec![3, 0, 0, 0, 0, 0, 0, 0],
    ];
    for f in bad {
        assert!(decode_request_frame(&f).is_none());
        assert!(matches!(decode_request(&f), Request::ProtocolError));
    }
}

#[test]
fn invalid_utf8_text_is_refused() {
    let mut f = encode_request(&Request::UnitStartExecutable(id(1), "xy".to_string())).unwrap();
    let n = f.len();
    f[n - 1] = 0xff;
    assert!(decode_request_frame(&f).is_none());
    let mut g = encode_reply(&Reply::Helo("ok".to_string())).unwrap();
    let m = g.len();
    g[m - 2] = 0xc3;
    g[m - 1] = 0x28;
    assert!(decode_reply(&g).is_none());
}

#[test]
fn reply_frames_round_trip() {
    let f = encode_reply(&Reply::UnitRegistered(id(3))).unwrap();
    assert_eq!(f.len(), 24);
    match decode_reply(&f) {
        Some(Reply::UnitRegistered(u)) => assert_eq!(u.bytes, id(3).bytes),
        _ => panic!("expected UnitRegistered"),
    }
    let g = encode_reply(&Reply::Helo("v1".to_string())).unwrap();
    assert_eq!(counterpart_version(&g), Some("v1".to_string()));
    assert_eq!(counterpart_version(&f), None);
}

#[test]
fn oversized_bodies_are_refused() {
    let long = "x".repeat(MAX_BODY);
    assert!(encode_request(&Request::UnitStartExecutable(id(0), long)).is_none());
    let fits = "x".repeat(MAX_BODY - 28);
    let f = encode_request(&Request::UnitStartExecutable(id(0), fits)).unwrap();
    assert_eq!(f.len(), MAX_BODY + 4);
    assert_eq!(body_length(&f[..4]), Some(MAX_BODY));
    assert_eq!(body_length(&[1, 0, 1, 0]), None);
}

#[test]
fn slave_frames() {
    assert_eq!(helo_request(), vec![4, 0, 0, 0, 0, 0, 0, 0]);
    assert_eq!(register_request(), vec![4, 0, 0, 0, 1, 0, 0, 0]);
}

#[test]
fn slave_stores_registered_id() {
    let mut u = Unit::new("web".to_string(), "/bin/web".to_string());
    assert_eq!(u.uuid.bytes, [0u8; 16]);
    let f = encode_reply(&Reply::UnitRegistered(id(5))).unwrap();
    assert!(register_unit(&mut u, &f));
    assert_eq!(u.uuid.bytes, id(5).bytes);
    let g = encode_reply(&Reply::Helo("x".to_string())).unwrap();
    assert!(!register_unit(&mut u, &g));
    assert_eq!(u.uuid.bytes, id(5).bytes);
    assert_eq!(u.name, "web");
}

#[test]
fn service_files() {
    let u = aeterno::config::parse_unit(
        "Name = \"web\"\nExecStart = \"/bin/web --listen 80\"\nDescription = \"ignored\"\n",
    )
    .unwrap();
    assert_eq!(u.name, "web");
    assert_eq!(u.exec_start, "/bin/web --listen 80");
    assert_eq!(u.uuid.bytes, [0u8; 16]);
    assert!(aeterno::config::parse_unit("Name = \"web\"\n").is_none());
    assert!(aeterno::config::parse_unit("Name = 3\nExecStart = \"x\"\n").is_none());
    assert!(aeterno::config::parse_unit("garbage").is_none());
}
