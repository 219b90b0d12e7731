use aeterno::master::{
    handle_request, mastering_granted, parse_sys_reply, register_slave, start_command,
    start_slaves, MasterAction, SlaveRegistry, SysError, SysReply, UnitRegistry,
};
use aeterno::protocol::{decode_reply, encode_request, Reply, Request, UnitId};

fn reply_frame(a: MasterAction) -> Vec<u8> {
    match a {
        MasterAction::Reply(f) => f,
        _ => panic!("expected a reply"),
    }
}

fn registered(units: &mut UnitRegistry) -> UnitId {
    match decode_reply(&reply_frame(handle_request(units, Request::RegisterUnit))) {
        Some(Reply::UnitRegistered(id)) => id,
        _ => panic!("expected UnitRegistered"),
    }
}

#[test]
fn register_unit_gives_fresh_ids() {
    let mut units = UnitRegistry::new();
    let a = registered(&mut units);
    let b = registered(&mut units);
    assert_ne!(a.bytes, b.bytes);
    assert!(units.contains(&a) && units.contains(&b));
    for id in [a, b] {
        assert_eq!(id.bytes[6] & 0xf0, 0x40);
        assert_eq!(id.bytes[8] & 0xc0, 0x80);
    }
}

#[test]
fn issue_avoids_taken_ids() {
    let mut units = UnitRegistry::new();
    let drawn = UnitId { bytes: [7u8; 16] };
    let first = units.issue(drawn);
    assert_eq!(first.bytes, drawn.bytes);
    let second = units.issue(drawn);
    assert_ne!(second.bytes, drawn.bytes);
    assert_eq!(&second.bytes[..8], &drawn.bytes[..8]);
    assert_eq!(&second.bytes[8..], &[0u8; 8]);
    let third = units.issue(drawn);
    assert_eq!(&third.bytes[8..], &[1u8, 0, 0, 0, 0, 0, 0, 0]);
}

#[test]
fn helo_gets_master_version() {
    let mut units = UnitRegistry::new();
    match decode_reply(&reply_frame(handle_request(&mut units, Request::Helo))) {
        Some(Reply::Helo(s)) => assert_eq!(s, "aeterno-master 0.0.1 - November 2018"),
        _ => panic!("expected Helo"),
    }
}

#[test]
fn protocol_error_closes() {
    let mut units = UnitRegistry::new();
    assert!(matches!(handle_request(&mut units, Request::ProtocolError), MasterAction::Close));
}

#[test]
fn start_executable_is_forwarded() {
    let mut units = UnitRegistry::new();
    let id = registered(&mut units);
    match handle_request(&mut units, Request::UnitStartExecutable(id, "/bin/true -x".to_string())) {
        MasterAction::Forward(l) => assert_eq!(l, b"START /bin/true -x\n".to_vec()),
        _ => panic!("expected a forward"),
    }
    let other = UnitId { bytes: [1u8; 16] };
    match handle_request(&mut units, Request::UnitStartExecutable(other, "/bin/true".to_string())) {
        MasterAction::Forward(l) => assert_eq!(l, b"START /bin/true\n".to_vec()),
        _ => panic!("expected a forward"),
    }
    assert!(matches!(
        handle_request(&mut units, Request::UnitStartExecutable(id, "  ".to_string())),
        MasterAction::Ignore
    ));
    assert!(matches!(
        handle_request(&mut units, Request::UnitStartExecutable(id, "/bin/a\nBYE".to_string())),
        MasterAction::Ignore
    ));
}

#[test]
fn start_command_line() {
    assert_eq!(start_command(&"/bin/x".to_string()), Some(b"START /bin/x\n".to_vec()));
    assert_eq!(start_command(&String::new()), None);
}

#[test]
fn sys_replies() {
    assert!(matches!(parse_sys_reply(b"OK 1234\n"), Ok(SysReply::Okay(1234))));
    assert!(matches!(parse_sys_reply(b"ERR -1\n"), Ok(SysReply::Error(-1))));
    assert!(matches!(parse_sys_reply(b"ERR 2\n"), Ok(SysReply::Error(2))));
    assert!(matches!(parse_sys_reply(b"OK -1\n"), Err(SysError::Malformed)));
    assert!(matches!(parse_sys_reply(b"YES 1\n"), Err(SysError::Malformed)));
    assert!(matches!(parse_sys_reply(b"OK"), Err(SysError::Malformed)));
    assert!(mastering_granted(b"OK 0\n"));
    assert!(!mastering_granted(b"ERR 16\n"));
    assert!(!mastering_granted(b""));
}

#[test]
fn slave_registry_records_successful_spawns() {
    let mut reg = SlaveRegistry::new();
    register_slave(&mut reg, 100);
    start_slaves(&mut reg, &vec![Some(101), None, Some(103)]);
    let pids: Vec<u64> = (0..reg.len()).map(|i| reg.pid_at(i)).collect();
    assert_eq!(pids, vec![100, 101, 103]);
}

#[test]
fn forwarded_frames_decode_on_the_master() {
    let frame = encode_request(&Request::RegisterUnit).unwrap();
    assert_eq!(frame, vec![4, 0, 0, 0, 1, 0, 0, 0]);
}

#[test]
fn master_configuration_file() {
    let c = aeterno::config::parse_master_config("slaves = [\"/sbin/default-slave\", \"/x\"]\n")
        .unwrap();
    assert_eq!(c.slaves, vec!["/sbin/default-slave".to_string(), "/x".to_string()]);
    assert!(aeterno::config::parse_master_config("slaves = \"/x\"\n").is_none());
    assert!(aeterno::config::parse_master_config("slaves = [1]\n").is_none());
    assert!(aeterno::config::parse_master_config("not toml [").is_none());
}
