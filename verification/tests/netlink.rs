use sandlock_core::byte_order::ByteOrder;
use sandlock_core::cow::Reply;
use sandlock_core::netlink::handlers::{
    handle_bind, handle_getsockname, handle_netlink_recvmsg, handle_socket, read_room, NetlinkDo, NetlinkSeen,
    ReceiveCall,
};
use sandlock_core::netlink::state::{socket_cookie, NetlinkState, MAX_SOCKETS};
use sandlock_core::sys::{EAFNOSUPPORT, EFAULT, EIO, EMFILE, ENOMEM};

#[test]
fn socket_registration_is_bounded_and_capacity_is_released() {
    let mut state = NetlinkState::new();
    let mut registrations = Vec::new();
    for cookie in 0..MAX_SOCKETS as u64 {
        registrations.push(state.register(Ok(cookie), 123).unwrap());
    }
    let extra = 5_000_000;
    assert_eq!(state.register(Ok(extra), 123).err(), Some(Some(EMFILE)));
    state.release(registrations.pop().unwrap());
    let _registration = state.register(Ok(extra), 123).unwrap();
    assert_eq!(state.cookie_pid(Some(extra)), Some(123));
}

#[test]
fn socket_identity_survives_dup_but_not_fd_reuse_or_responder_exit() {
    let mut state = NetlinkState::new();
    assert!(state.is_empty());
    let registration = state.register(Ok(77), 123).unwrap();
    assert_eq!(state.cookie_pid(Some(77)), Some(123));
    assert_eq!(state.cookie_pid(Some(78)), None);
    assert_eq!(state.cookie_pid(None), None);
    state.release(registration);
    assert_eq!(state.cookie_pid(Some(77)), None);
}

#[test]
fn cookies_have_their_full_size() {
    assert_eq!(socket_cookie(Ok((9, 8))), Ok(9));
    assert_eq!(socket_cookie(Ok((9, 4))), Err(None));
    assert_eq!(socket_cookie(Err(9)), Err(Some(9)));
    let mut state = NetlinkState::new();
    assert_eq!(state.register(Err(None), 1).err(), Some(None));
}

fn unseen() -> NetlinkSeen {
    NetlinkSeen {
        port: None,
        is_paired: None,
        status: None,
        registered: None,
        header: None,
        room: None,
        is_written: None,
        is_told: None,
    }
}

fn answer_of(step: NetlinkDo) -> Option<Reply> {
    match step {
        NetlinkDo::Answer(reply) => Some(reply),
        _ => None,
    }
}

#[test]
fn only_plain_families_and_route_sockets_exist() {
    let answer = |domain: u64, protocol: u64| answer_of(handle_socket(9, &[domain, 3, protocol, 0, 0, 0], &unseen()));
    for domain in [1, 2, 10] {
        assert_eq!(answer(domain, 5), Some(Reply::Continue));
    }
    assert_eq!(answer(16, 15), Some(Reply::Errno(EAFNOSUPPORT)));
    assert_eq!(answer(38, 0), Some(Reply::Errno(EAFNOSUPPORT)));
}

#[test]
fn route_sockets_get_the_port_of_their_process() {
    let next = |seen: &NetlinkSeen| handle_socket(9, &[16, 3, 0, 0, 0, 0], seen);
    let mut seen = unseen();
    assert!(matches!(next(&seen), NetlinkDo::MakePair));
    seen.is_paired = Some(false);
    assert_eq!(answer_of(next(&seen)), Some(Reply::Errno(ENOMEM)));
    seen.is_paired = Some(true);
    assert!(matches!(next(&seen), NetlinkDo::ReadStatus { tid: 9 }));
    seen.status = Some(Some("Name:\tcat\nTgid:\t7\nPid:\t9\n".to_string()));
    assert!(matches!(next(&seen), NetlinkDo::Register { port: 7 }));
    seen.registered = Some(Err(Some(EMFILE)));
    assert_eq!(answer_of(next(&seen)), Some(Reply::Errno(EMFILE)));
    seen.registered = Some(Err(None));
    assert_eq!(answer_of(next(&seen)), Some(Reply::Errno(EIO)));
    seen.registered = Some(Ok(()));
    assert!(matches!(next(&seen), NetlinkDo::Inject { port: 7, newfd_flags: 0o2000000 }));
    seen.status = Some(None);
    assert!(matches!(next(&seen), NetlinkDo::Inject { port: 9, .. }));
}

#[test]
fn the_sender_of_a_virtual_socket_is_blanked() {
    let args = [5, 0x100, 0, 0, 0x2000, 0x3000];
    let next = |call: ReceiveCall, seen: &NetlinkSeen| handle_netlink_recvmsg(call, &args, ByteOrder::Little, seen);
    let mut seen = unseen();
    assert!(matches!(next(ReceiveCall::RecvMsg, &seen), NetlinkDo::FindPort { fd: 5 }));
    seen.port = Some(None);
    assert_eq!(answer_of(next(ReceiveCall::RecvMsg, &seen)), Some(Reply::Continue));
    seen.port = Some(Some(1));
    assert!(matches!(next(ReceiveCall::RecvMsg, &seen), NetlinkDo::ReadHeader { address: 0x100 }));
    seen.header = Some(Some((0x1000, 12)));
    assert!(matches!(
        next(ReceiveCall::RecvMsg, &seen),
        NetlinkDo::Write { address: 0x1000, bytes } if bytes == vec![0; 12]
    ));
    seen.header = Some(Some((0x1000, 11)));
    assert_eq!(answer_of(next(ReceiveCall::RecvMsg, &seen)), Some(Reply::Continue));
    assert!(matches!(next(ReceiveCall::RecvFrom, &seen), NetlinkDo::ReadRoom { address: 0x3000, size: 4 }));
    seen.room = Some(Some(vec![16, 0, 0, 0]));
    assert!(matches!(
        next(ReceiveCall::RecvFrom, &seen),
        NetlinkDo::Write { address: 0x2000, bytes } if bytes == vec![0; 12]
    ));
    seen.is_written = Some(true);
    assert_eq!(answer_of(next(ReceiveCall::RecvFrom, &seen)), Some(Reply::Continue));
    seen.is_written = None;
    seen.room = Some(None);
    assert_eq!(answer_of(next(ReceiveCall::RecvFrom, &seen)), Some(Reply::Continue));
    assert_eq!(answer_of(next(ReceiveCall::Other, &seen)), Some(Reply::Continue));
}

#[test]
fn virtual_sockets_are_bound_and_named() {
    let args = [5, 0x2000, 0x3000, 0, 0, 0];
    let mut seen = unseen();
    assert!(matches!(handle_bind(&args, &seen), NetlinkDo::FindPort { fd: 5 }));
    let next = |seen: &NetlinkSeen| handle_getsockname(&args, ByteOrder::Little, seen);
    assert!(matches!(next(&seen), NetlinkDo::FindPort { fd: 5 }));
    seen.port = Some(None);
    assert_eq!(answer_of(handle_bind(&args, &seen)), Some(Reply::Continue));
    assert_eq!(answer_of(next(&seen)), Some(Reply::Continue));
    seen.port = Some(Some(0x01020304));
    assert_eq!(answer_of(handle_bind(&args, &seen)), Some(Reply::Value(0)));
    assert!(matches!(next(&seen), NetlinkDo::ReadRoom { address: 0x3000, size: 4 }));
    seen.room = Some(None);
    assert_eq!(answer_of(next(&seen)), Some(Reply::Errno(EFAULT)));
    seen.room = Some(Some(vec![6, 0, 0, 0]));
    assert!(matches!(
        next(&seen),
        NetlinkDo::Write { address: 0x2000, bytes } if bytes == vec![16, 0, 0, 0, 4, 3]
    ));
    seen.room = Some(Some(vec![64, 0, 0, 0]));
    assert!(matches!(
        next(&seen),
        NetlinkDo::Write { address: 0x2000, bytes } if bytes == vec![16, 0, 0, 0, 4, 3, 2, 1, 0, 0, 0, 0]
    ));
    assert!(matches!(
        handle_getsockname(&args, ByteOrder::Big, &seen),
        NetlinkDo::Write { bytes, .. } if bytes == vec![0, 16, 0, 0, 1, 2, 3, 4, 0, 0, 0, 0]
    ));
    seen.is_written = Some(false);
    assert_eq!(answer_of(next(&seen)), Some(Reply::Errno(EFAULT)));
    seen.is_written = Some(true);
    assert!(matches!(
        next(&seen),
        NetlinkDo::TellLength { address: 0x3000, bytes } if bytes == vec![12, 0, 0, 0]
    ));
    seen.is_told = Some(false);
    assert_eq!(answer_of(next(&seen)), Some(Reply::Value(0)));
    assert_eq!(read_room(&[12, 1, 0, 0], ByteOrder::Little), 268);
    assert_eq!(read_room(&[0, 0, 1, 12], ByteOrder::Big), 268);
    assert_eq!(read_room(&[12], ByteOrder::Little), 0);
}
