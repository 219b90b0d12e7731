use aeterno::master::{parse_sys_version, SysError};
use aeterno::reaper::{
    parse_pid, parse_raw_query, process_wait_event, start_reply, Action, LineBuffer, MasterSlot,
    RawQuery, Session, WaitEvent,
};

fn sent(a: Option<Action>) -> Vec<u8> {
    match a {
        Some(Action::Send(b)) => b,
        _ => panic!("expected a reply to send"),
    }
}

fn is_close(a: &Option<Action>) -> bool {
    matches!(a, Some(Action::Close))
}

#[test]
fn helo_handshake() {
    let mut slot = MasterSlot::new();
    let mut s = Session::accept(3, &mut slot);
    let reply = sent(s.on_line(&mut slot, b"HELO\n"));
    let text = String::from_utf8(reply.clone()).unwrap();
    let mut words = text.split_whitespace();
    assert_eq!(words.next(), Some("Aeterno"));
    let version: Vec<&str> = words.next().unwrap().split('.').collect();
    assert_eq!(version.len(), 3);
    for part in version {
        part.parse::<u64>().unwrap();
    }
    assert_eq!(text, "Aeterno 0.0.1 - November 2018\n");
    let v = parse_sys_version(&reply).ok().unwrap();
    assert_eq!((v.major, v.minor, v.patch), (0, 0, 1));
}

#[test]
fn mastering_promotion() {
    let mut slot = MasterSlot::new();
    let mut a = Session::accept(10, &mut slot);
    let mut b = Session::accept(11, &mut slot);
    assert_eq!(slot.holder(), Some(10));
    assert_eq!(sent(a.on_line(&mut slot, b"MASTER\n")), b"OK 0\n".to_vec());
    assert_eq!(sent(b.on_line(&mut slot, b"MASTER\n")), b"ERR 16\n".to_vec());
    assert!(is_close(&a.on_end(&mut slot)));
    assert_eq!(slot.holder(), None);
    let mut c = Session::accept(12, &mut slot);
    assert_eq!(sent(c.on_line(&mut slot, b"MASTER\n")), b"OK 0\n".to_vec());
    assert_eq!(slot.holder(), Some(12));
}

#[test]
fn master_request_takes_empty_slot() {
    let mut slot = MasterSlot::new();
    let mut a = Session::accept(20, &mut slot);
    let mut b = Session::accept(21, &mut slot);
    assert!(is_close(&a.on_line(&mut slot, b"BYE\n")));
    assert_eq!(slot.holder(), None);
    assert_eq!(sent(b.on_line(&mut slot, b"MASTER\n")), b"OK 0\n".to_vec());
    assert_eq!(slot.holder(), Some(21));
}

#[test]
fn closing_a_non_master_keeps_the_slot() {
    let mut slot = MasterSlot::new();
    let _a = Session::accept(30, &mut slot);
    let mut b = Session::accept(31, &mut slot);
    assert!(is_close(&b.on_end(&mut slot)));
    assert_eq!(slot.holder(), Some(30));
}

#[test]
fn start_existing_binary() {
    let mut slot = MasterSlot::new();
    let mut peer = Session::accept(40, &mut slot);
    let mut client = Session::accept(41, &mut slot);
    match client.on_line(&mut slot, b"START /bin/true\n") {
        Some(Action::Spawn(path, args)) => {
            assert_eq!(path, b"/bin/true".to_vec());
            assert!(args.is_empty());
        }
        _ => panic!("expected a spawn"),
    }
    assert_eq!(start_reply(Ok(4321)), b"OK 4321\n".to_vec());
    let (fd, line) = process_wait_event(&slot, &WaitEvent::Exited(4321, 0)).unwrap();
    assert_eq!(fd, peer.fd());
    assert_eq!(line, b"Exited(4321, 0)\n".to_vec());
    assert!(String::from_utf8(line).unwrap().contains("4321"));
    assert!(peer.is_open());
    assert!(is_close(&peer.on_end(&mut slot)));
}

#[test]
fn start_with_arguments() {
    let mut slot = MasterSlot::new();
    let mut s = Session::accept(42, &mut slot);
    match s.on_line(&mut slot, b"START   /bin/sh  -c   true\n") {
        Some(Action::Spawn(path, args)) => {
            assert_eq!(path, b"/bin/sh".to_vec());
            assert_eq!(args, vec![b"-c".to_vec(), b"true".to_vec()]);
        }
        _ => panic!("expected a spawn"),
    }
}

#[test]
fn start_missing_binary() {
    let mut slot = MasterSlot::new();
    let mut s = Session::accept(50, &mut slot);
    assert_eq!(sent(s.on_line(&mut slot, b"START /no/such/file\n")), b"ERR -1\n".to_vec());
    assert!(s.is_open());
}

#[test]
fn start_relative_path_is_refused() {
    let mut slot = MasterSlot::new();
    let mut s = Session::accept(51, &mut slot);
    assert_eq!(sent(s.on_line(&mut slot, b"START bin/true\n")), b"ERR -1\n".to_vec());
    assert_eq!(sent(s.on_line(&mut slot, b"START\n")), b"ERR -1\n".to_vec());
}

#[test]
fn protocol_error_tolerance() {
    let mut slot = MasterSlot::new();
    let mut s = Session::accept(60, &mut slot);
    assert_eq!(sent(s.on_line(&mut slot, b"GARBAGE\n")), b"ERR -1\n".to_vec());
    let reply = sent(s.on_line(&mut slot, b"HELO\n"));
    assert!(reply.starts_with(b"Aeterno "));
}

#[test]
fn protocol_error_tolerance_in_one_read() {
    let mut buf = LineBuffer::new();
    let lines = buf.feed(b"GARBAGE\nHELO\n");
    assert_eq!(lines, vec![b"GARBAGE".to_vec(), b"HELO".to_vec()]);
    let mut slot = MasterSlot::new();
    let mut s = Session::accept(61, &mut slot);
    assert_eq!(sent(s.on_line(&mut slot, &lines[0])), b"ERR -1\n".to_vec());
    assert!(sent(s.on_line(&mut slot, &lines[1])).starts_with(b"Aeterno "));
}

#[test]
fn lines_split_across_reads() {
    let mut buf = LineBuffer::new();
    assert!(buf.feed(b"HE").is_empty());
    assert_eq!(buf.feed(b"LO\nST"), vec![b"HELO".to_vec()]);
    assert_eq!(buf.feed(b"OP 5\n\n"), vec![b"STOP 5".to_vec(), Vec::new()]);
    assert!(buf.feed(b"").is_empty());
}

#[test]
fn overlong_lines_are_refused() {
    let mut buf = LineBuffer::new();
    let mut long = b"HELO".to_vec();
    long.extend(std::iter::repeat(b' ').take(400));
    assert!(buf.feed(&long).is_empty());
    let lines = buf.feed(b"\nHELO\n");
    assert_eq!(lines.len(), 2);
    assert_eq!(lines[0].len(), 257);
    let mut slot = MasterSlot::new();
    let mut s = Session::accept(63, &mut slot);
    assert_eq!(sent(s.on_line(&mut slot, &lines[0])), b"ERR -1\n".to_vec());
    assert!(sent(s.on_line(&mut slot, &lines[1])).starts_with(b"Aeterno "));
    let mut exact = b"HELO".to_vec();
    exact.extend(std::iter::repeat(b' ').take(252));
    assert!(sent(s.on_line(&mut slot, &exact)).starts_with(b"Aeterno "));
}

#[test]
fn malformed_requests_get_err() {
    let mut slot = MasterSlot::new();
    let mut s = Session::accept(62, &mut slot);
    for line in [
        &b"HELO extra\n"[..],
        b"BYE now\n",
        b"STOP\n",
        b"STOP 1 2\n",
        b"\n",
        b"helo\n",
        b"HELO \xc3\xa9\n",
    ] {
        assert_eq!(sent(s.on_line(&mut slot, line)), b"ERR -1\n".to_vec());
    }
    assert!(s.is_open());
}

#[test]
fn close_happens_once() {
    let mut slot = MasterSlot::new();
    let mut s = Session::accept(70, &mut slot);
    assert!(is_close(&s.on_line(&mut slot, b"BYE\n")));
    assert!(!s.is_open());
    assert!(s.on_line(&mut slot, b"HELO\n").is_none());
    assert!(s.on_end(&mut slot).is_none());
    let mut t = Session::accept(71, &mut slot);
    assert!(is_close(&t.on_end(&mut slot)));
    assert!(t.on_end(&mut slot).is_none());
}

#[test]
fn stop_signalable_pid() {
    let mut slot = MasterSlot::new();
    let mut s = Session::accept(80, &mut slot);
    let line = format!("STOP {}\n", nix::unistd::getpid().as_raw());
    assert_eq!(sent(s.on_line(&mut slot, line.as_bytes())), b"OK 0\n".to_vec());
    let line = format!("STOP +{}\n", nix::unistd::getpid().as_raw());
    assert_eq!(sent(s.on_line(&mut slot, line.as_bytes())), b"OK 0\n".to_vec());
}

#[test]
fn stop_invalid_pid() {
    let mut slot = MasterSlot::new();
    let mut s = Session::accept(81, &mut slot);
    for line in [&b"STOP 0\n"[..], b"STOP -5\n", b"STOP abc\n", b"STOP 99999999999\n"] {
        assert_eq!(sent(s.on_line(&mut slot, line)), b"ERR -1\n".to_vec());
    }
}

#[test]
fn parse_pid_bounds() {
    assert_eq!(parse_pid(b"1"), Some(1));
    assert_eq!(parse_pid(b"2147483647"), Some(2147483647));
    assert_eq!(parse_pid(b"2147483648"), None);
    assert_eq!(parse_pid(b"0"), None);
    assert_eq!(parse_pid(b"-1"), None);
    assert_eq!(parse_pid(b"+7"), Some(7));
    assert_eq!(parse_pid(b""), None);
}

#[test]
fn start_reply_formats() {
    assert_eq!(start_reply(Ok(17)), b"OK 17\n".to_vec());
    assert_eq!(start_reply(Err(Some(2))), b"ERR 2\n".to_vec());
    assert_eq!(start_reply(Err(None)), b"ERR -1\n".to_vec());
    assert_eq!(start_reply(Ok(0)), b"OK 0\n".to_vec());
}

#[test]
fn raw_query_split() {
    let (cmd, rest) = parse_raw_query(b"  START  /bin/echo  a   b \n").unwrap();
    assert_eq!(cmd, b"START".to_vec());
    assert_eq!(rest, b"/bin/echo a b".to_vec());
    let (cmd, rest) = parse_raw_query(b"HELO").unwrap();
    assert_eq!(cmd, b"HELO".to_vec());
    assert!(rest.is_empty());
    assert!(parse_raw_query(b" \t\r\n").is_none());
}

#[test]
fn raw_query_kinds() {
    assert!(matches!(RawQuery::from_line(b"HELO\n"), RawQuery::Helo));
    assert!(matches!(RawQuery::from_line(b"BYE"), RawQuery::Bye));
    assert!(matches!(RawQuery::from_line(b"MASTER\r\n"), RawQuery::Master));
    match RawQuery::from_line(b"START /a  b\n") {
        RawQuery::Start(x) => assert_eq!(x, b"/a b".to_vec()),
        _ => panic!("expected START"),
    }
    match RawQuery::from_line(b"STOP 12\n") {
        RawQuery::Stop(x) => assert_eq!(x, b"12".to_vec()),
        _ => panic!("expected STOP"),
    }
    assert!(matches!(RawQuery::from_line(b"NOPE\n"), RawQuery::ProtocolError));
}

#[test]
fn wait_event_lines() {
    let mut slot = MasterSlot::new();
    assert!(process_wait_event(&slot, &WaitEvent::Exited(5, 1)).is_none());
    let _s = Session::accept(90, &mut slot);
    let cases: Vec<(WaitEvent, &str)> = vec![
        (WaitEvent::Exited(5, 1), "Exited(5, 1)\n"),
        (WaitEvent::Signaled(6, 9, true), "Signaled(6, 9, true)\n"),
        (WaitEvent::Signaled(6, 15, false), "Signaled(6, 15, false)\n"),
        (WaitEvent::Stopped(7, 19), "Stopped(7, 19)\n"),
        (WaitEvent::PtraceEvent(8, 5, 3), "PtraceEvent(8, 5, 3)\n"),
        (WaitEvent::PtraceSyscall(9), "PtraceSyscall(9)\n"),
        (WaitEvent::Continued(10), "Continued(10)\n"),
        (WaitEvent::Exited(11, -3), "Exited(11, -3)\n"),
        (WaitEvent::StillAlive, "StillAlive\n"),
    ];
    for (ev, text) in cases {
        let (fd, line) = process_wait_event(&slot, &ev).unwrap();
        assert_eq!(fd, 90);
        assert_eq!(String::from_utf8(line).unwrap(), text);
    }
}

#[test]
fn version_reply_errors() {
    assert!(matches!(parse_sys_version(b"Aeterno v0.0.1 - November 2018\n"), Err(SysError::Malformed)));
    assert!(matches!(parse_sys_version(b"Hello 1.2.3\n"), Err(SysError::NotAeterno)));
    assert!(matches!(parse_sys_version(b"Aeterno\n"), Err(SysError::NotAeterno)));
    let v = parse_sys_version(b"Aeterno 3.14.159").ok().unwrap();
    assert_eq!((v.major, v.minor, v.patch), (3, 14, 159));
}
