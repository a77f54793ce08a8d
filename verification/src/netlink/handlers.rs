//! The calls on netlink sockets. A route socket is answered by one end of a pair
//! that the supervisor speaks to; other families beside the plain ones do not
//! exist.

use crate::byte_order;
use crate::byte_order::{read_u32, write_u16, write_u32, ByteOrder};
use crate::cow::Reply;
use crate::path::append_bytes;
use crate::sys::{EAFNOSUPPORT, EFAULT, EIO, ENOMEM, O_CLOEXEC};
use crate::task_stat;
use crate::task_stat::tgid_of;
use vstd::prelude::*;

verus! {

pub const AF_UNIX: u64 = 1;

pub const AF_INET: u64 = 2;

pub const AF_INET6: u64 = 10;

pub const AF_NETLINK: u64 = 16;

pub const NETLINK_ROUTE: u64 = 0;

/// How many bytes the address of a netlink socket has.
pub const ADDRESS_BYTES: u32 = 12;

/// Whether sockets of a family may exist.
pub open spec fn is_allowed(domain: u64) -> bool {
    domain == AF_UNIX || domain == AF_INET || domain == AF_INET6 || domain == AF_NETLINK
}

/// Whether sockets of a family may exist.
pub fn family_allowed(domain: u64) -> (allowed: bool)
    ensures
        allowed == is_allowed(domain),
{
    domain == AF_UNIX || domain == AF_INET || domain == AF_INET6 || domain == AF_NETLINK
}

/// What was learned so far of a call; each part is there once it was asked for.
#[derive(Debug)]
pub struct NetlinkSeen {
    /// The port of the virtual socket behind the descriptor; nothing where it is none.
    pub port: Option<Option<u32>>,
    /// Whether a pair of sockets was made.
    pub is_paired: Option<bool>,
    /// What the kernel tells of the task; nothing where it cannot be read.
    pub status: Option<Option<String>>,
    /// The error of the registration, which may have no number.
    pub registered: Option<Result<(), Option<i32>>>,
    /// Where a message wants the address, and its room; nothing where the header
    /// cannot be read.
    pub header: Option<Option<(u64, u32)>>,
    /// The bytes that tell the room of an address; nothing where they cannot be read.
    pub room: Option<Option<Vec<u8>>>,
    pub is_written: Option<bool>,
    /// Whether the length was told to the task.
    pub is_told: Option<bool>,
}

/// What is asked next.
#[verifier::ext_equal]
pub enum NetlinkAsk {
    Answer(Reply),
    FindPort { fd: i32 },
    MakePair,
    ReadStatus { tid: i32 },
    Register { port: u32 },
    Inject { port: u32, newfd_flags: u32 },
    ReadHeader { address: u64 },
    ReadRoom { address: u64, size: int },
    Write { address: u64, bytes: Seq<u8> },
    TellLength { address: u64, bytes: Seq<u8> },
}

/// What is done next.
#[derive(Debug)]
pub enum NetlinkDo {
    Answer(Reply),
    /// Tell the port of the virtual socket behind a descriptor of the task.
    FindPort { fd: i32 },
    /// Make a pair of sockets.
    MakePair,
    /// Read what the kernel tells of a task.
    ReadStatus { tid: i32 },
    /// Register the end that is handed out, under this port.
    Register { port: u32 },
    /// Let the other end answer for this port, and hand out the end with these flags.
    Inject { port: u32, newfd_flags: u32 },
    /// Read the header of a message.
    ReadHeader { address: u64 },
    /// Read the bytes that tell the room of an address.
    ReadRoom { address: u64, size: usize },
    /// Write bytes to the memory of the task.
    Write { address: u64, bytes: Vec<u8> },
    /// Write the length of an address to the memory of the task.
    TellLength { address: u64, bytes: Vec<u8> },
}

impl View for NetlinkDo {
    type V = NetlinkAsk;

    open spec fn view(&self) -> NetlinkAsk {
        match self {
            NetlinkDo::Answer(reply) => NetlinkAsk::Answer(*reply),
            NetlinkDo::FindPort { fd } => NetlinkAsk::FindPort { fd: *fd },
            NetlinkDo::MakePair => NetlinkAsk::MakePair,
            NetlinkDo::ReadStatus { tid } => NetlinkAsk::ReadStatus { tid: *tid },
            NetlinkDo::Register { port } => NetlinkAsk::Register { port: *port },
            NetlinkDo::Inject { port, newfd_flags } => NetlinkAsk::Inject { port: *port, newfd_flags: *newfd_flags },
            NetlinkDo::ReadHeader { address } => NetlinkAsk::ReadHeader { address: *address },
            NetlinkDo::ReadRoom { address, size } => NetlinkAsk::ReadRoom { address: *address, size: *size as int },
            NetlinkDo::Write { address, bytes } => NetlinkAsk::Write { address: *address, bytes: bytes@ },
            NetlinkDo::TellLength { address, bytes } => NetlinkAsk::TellLength { address: *address, bytes: bytes@ },
        }
    }
}

/// What is asked next of `socket(domain, type, protocol)`. The socket gets the port of
/// the process that the task belongs to.
pub open spec fn socket_ask(tid: i32, args: Seq<u64>, seen: NetlinkSeen) -> NetlinkAsk {
    if !is_allowed(args[0]) {
        NetlinkAsk::Answer(Reply::Errno(EAFNOSUPPORT))
    } else if args[0] != AF_NETLINK {
        NetlinkAsk::Answer(Reply::Continue)
    } else if args[2] != NETLINK_ROUTE {
        NetlinkAsk::Answer(Reply::Errno(EAFNOSUPPORT))
    } else {
        match (seen.is_paired, seen.status) {
            (None, _) => NetlinkAsk::MakePair,
            (Some(false), _) => NetlinkAsk::Answer(Reply::Errno(ENOMEM)),
            (Some(true), None) => NetlinkAsk::ReadStatus { tid },
            (Some(true), Some(status)) => {
                let port = task_stat::tgid_or_self(task_stat::optional_text(status), tid) as u32;
                match seen.registered {
                    None => NetlinkAsk::Register { port },
                    Some(Err(Some(errno))) => NetlinkAsk::Answer(Reply::Errno(errno)),
                    Some(Err(None)) => NetlinkAsk::Answer(Reply::Errno(EIO)),
                    Some(Ok(_)) => NetlinkAsk::Inject { port, newfd_flags: O_CLOEXEC as u32 },
                }
            },
        }
    }
}

/// Tells what is done next of a call for a socket.
pub fn handle_socket(tid: i32, args: &[u64; 6], seen: &NetlinkSeen) -> (step: NetlinkDo)
    ensures
        step@ == socket_ask(tid, args@, *seen),
{
    if !family_allowed(args[0]) {
        return NetlinkDo::Answer(Reply::Errno(EAFNOSUPPORT));
    }
    if args[0] != AF_NETLINK {
        return NetlinkDo::Answer(Reply::Continue);
    }
    if args[2] != NETLINK_ROUTE {
        return NetlinkDo::Answer(Reply::Errno(EAFNOSUPPORT));
    }
    match seen.is_paired {
        None => return NetlinkDo::MakePair,
        Some(false) => return NetlinkDo::Answer(Reply::Errno(ENOMEM)),
        Some(true) => {},
    }
    let port: u32 = match &seen.status {
        None => return NetlinkDo::ReadStatus { tid },
        Some(status) => tgid_of(status, tid) as u32,
    };
    match seen.registered {
        None => NetlinkDo::Register { port },
        Some(Err(Some(errno))) => NetlinkDo::Answer(Reply::Errno(errno)),
        Some(Err(None)) => NetlinkDo::Answer(Reply::Errno(EIO)),
        Some(Ok(_)) => NetlinkDo::Inject { port, newfd_flags: O_CLOEXEC as u32 },
    }
}

/// The calls that receive from a socket.
#[derive(Clone, Copy, Debug, PartialEq, Eq, Structural)]
pub enum ReceiveCall {
    /// `recvmsg(fd, header, flags)`.
    RecvMsg,
    /// `recvfrom(fd, buffer, size, flags, address, room)`.
    RecvFrom,
    Other,
}

/// The bytes that tell the room of an address.
pub const ROOM_BYTES: usize = 4;

/// The room that a call tells; none where it is not told in full.
pub open spec fn told_room(bytes: Seq<u8>, order: ByteOrder) -> u32 {
    if bytes.len() == ROOM_BYTES {
        byte_order::u32_in(bytes, order)
    } else {
        0
    }
}

/// The room that a call tells.
pub fn read_room(bytes: &[u8], order: ByteOrder) -> (room: u32)
    ensures
        room == told_room(bytes@, order),
{
    if bytes.len() == ROOM_BYTES {
        read_u32(bytes, order)
    } else {
        0
    }
}

/// An address without any content.
pub open spec fn blank_address() -> Seq<u8> {
    Seq::new(ADDRESS_BYTES as nat, |i: int| 0u8)
}

/// What follows where an address has room: it is blanked once, and the call goes on.
pub open spec fn blanked(address: u64, room: u32, seen: NetlinkSeen) -> NetlinkAsk {
    if room >= ADDRESS_BYTES && seen.is_written is None {
        NetlinkAsk::Write { address, bytes: blank_address() }
    } else {
        NetlinkAsk::Answer(Reply::Continue)
    }
}

fn blank(address: u64, room: u32, seen: &NetlinkSeen) -> (step: NetlinkDo)
    ensures
        step@ == blanked(address, room, *seen),
{
    if room >= ADDRESS_BYTES && seen.is_written.is_none() {
        let mut bytes: Vec<u8> = Vec::new();
        let mut i: u32 = 0;
        while i < ADDRESS_BYTES
            invariant
                i <= ADDRESS_BYTES,
                bytes@.len() == i,
                forall|j: int| 0 <= j < i ==> bytes@[j] == 0u8,
            decreases ADDRESS_BYTES - i,
        {
            bytes.push(0);
            i = i + 1;
        }
        proof {
            assert(bytes@ =~= blank_address());
        }
        NetlinkDo::Write { address, bytes }
    } else {
        NetlinkDo::Answer(Reply::Continue)
    }
}

/// What is asked next of a call that receives: on a virtual socket the address of the
/// sender is blanked before the call runs, so that the sender counts as the kernel.
pub open spec fn receive_ask(call: ReceiveCall, args: Seq<u64>, order: ByteOrder, seen: NetlinkSeen) -> NetlinkAsk {
    match seen.port {
        None => NetlinkAsk::FindPort { fd: args[0] as i32 },
        Some(None) => NetlinkAsk::Answer(Reply::Continue),
        Some(Some(_)) => match call {
            ReceiveCall::RecvMsg => match seen.header {
                None => NetlinkAsk::ReadHeader { address: args[1] },
                Some(Some((address, room))) if address != 0 => blanked(address, room, seen),
                Some(_) => NetlinkAsk::Answer(Reply::Continue),
            },
            ReceiveCall::RecvFrom => if args[4] == 0 || args[5] == 0 {
                NetlinkAsk::Answer(Reply::Continue)
            } else {
                match seen.room {
                    None => NetlinkAsk::ReadRoom { address: args[5], size: ROOM_BYTES as int },
                    Some(None) => NetlinkAsk::Answer(Reply::Continue),
                    Some(Some(bytes)) => blanked(args[4], told_room(bytes@, order), seen),
                }
            },
            ReceiveCall::Other => NetlinkAsk::Answer(Reply::Continue),
        },
    }
}

/// Tells what is done next of a call that receives.
pub fn handle_netlink_recvmsg(call: ReceiveCall, args: &[u64; 6], order: ByteOrder, seen: &NetlinkSeen) -> (step:
    NetlinkDo)
    ensures
        step@ == receive_ask(call, args@, order, *seen),
{
    match seen.port {
        None => return NetlinkDo::FindPort { fd: args[0] as i32 },
        Some(None) => return NetlinkDo::Answer(Reply::Continue),
        Some(Some(_)) => {},
    }
    match call {
        ReceiveCall::RecvMsg => match seen.header {
            None => NetlinkDo::ReadHeader { address: args[1] },
            Some(None) => NetlinkDo::Answer(Reply::Continue),
            Some(Some((address, room))) => {
                if address == 0 {
                    NetlinkDo::Answer(Reply::Continue)
                } else {
                    blank(address, room, seen)
                }
            },
        },
        ReceiveCall::RecvFrom => {
            if args[4] == 0 || args[5] == 0 {
                return NetlinkDo::Answer(Reply::Continue);
            }
            match &seen.room {
                None => NetlinkDo::ReadRoom { address: args[5], size: ROOM_BYTES },
                Some(None) => NetlinkDo::Answer(Reply::Continue),
                Some(Some(bytes)) => blank(args[4], read_room(bytes.as_slice(), order), seen),
            }
        },
        ReceiveCall::Other => NetlinkDo::Answer(Reply::Continue),
    }
}

/// What is asked next of `bind(fd, ..)`: binding a virtual socket succeeds at once.
pub open spec fn bind_ask(args: Seq<u64>, seen: NetlinkSeen) -> NetlinkAsk {
    match seen.port {
        None => NetlinkAsk::FindPort { fd: args[0] as i32 },
        Some(Some(_)) => NetlinkAsk::Answer(Reply::Value(0)),
        Some(None) => NetlinkAsk::Answer(Reply::Continue),
    }
}

/// Tells what is done next of binding a socket.
pub fn handle_bind(args: &[u64; 6], seen: &NetlinkSeen) -> (step: NetlinkDo)
    ensures
        step@ == bind_ask(args@, *seen),
{
    match seen.port {
        None => NetlinkDo::FindPort { fd: args[0] as i32 },
        Some(Some(_)) => NetlinkDo::Answer(Reply::Value(0)),
        Some(None) => NetlinkDo::Answer(Reply::Continue),
    }
}

/// The address of a netlink socket: its family, its port, and no groups.
pub open spec fn address_image(port: u32, order: ByteOrder) -> Seq<u8> {
    byte_order::u16_image(AF_NETLINK as u16, order) + seq![0u8, 0u8] + byte_order::u32_image(port, order) + seq![
        0u8,
        0u8,
        0u8,
        0u8,
    ]
}

/// As much of the address of a netlink socket as there is room for.
pub open spec fn shown_address(port: u32, room: u32, order: ByteOrder) -> Seq<u8> {
    address_image(port, order).take(
        if room < ADDRESS_BYTES {
            room as int
        } else {
            ADDRESS_BYTES as int
        },
    )
}

fn show_address(port: u32, room: u32, order: ByteOrder) -> (shown: Vec<u8>)
    ensures
        shown@ == shown_address(port, room, order),
{
    let mut address = write_u16(AF_NETLINK as u16, order);
    address.push(0);
    address.push(0);
    let number = write_u32(port, order);
    append_bytes(&mut address, number.as_slice());
    address.push(0);
    address.push(0);
    address.push(0);
    address.push(0);
    proof {
        assert(address@ =~= address_image(port, order));
    }
    let count: usize = if room < ADDRESS_BYTES {
        room as usize
    } else {
        ADDRESS_BYTES as usize
    };
    let part = vstd::slice::slice_subrange(address.as_slice(), 0, count);
    proof {
        assert(part@ =~= shown_address(port, room, order));
    }
    vstd::slice::slice_to_vec(part)
}

/// What is asked next of `getsockname(fd, address, room)`: a virtual socket is named by
/// its port, and the whole length of the name is told.
pub open spec fn name_ask(args: Seq<u64>, order: ByteOrder, seen: NetlinkSeen) -> NetlinkAsk {
    match (seen.port, seen.room) {
        (None, _) => NetlinkAsk::FindPort { fd: args[0] as i32 },
        (Some(None), _) => NetlinkAsk::Answer(Reply::Continue),
        (Some(Some(_)), None) => NetlinkAsk::ReadRoom { address: args[2], size: ROOM_BYTES as int },
        (Some(Some(_)), Some(None)) => NetlinkAsk::Answer(Reply::Errno(EFAULT)),
        (Some(Some(port)), Some(Some(bytes))) => match (seen.is_written, seen.is_told) {
            (None, _) => NetlinkAsk::Write {
                address: args[1],
                bytes: shown_address(port, told_room(bytes@, order), order),
            },
            (Some(false), _) => NetlinkAsk::Answer(Reply::Errno(EFAULT)),
            (Some(true), None) => NetlinkAsk::TellLength {
                address: args[2],
                bytes: byte_order::u32_image(ADDRESS_BYTES, order),
            },
            (Some(true), Some(_)) => NetlinkAsk::Answer(Reply::Value(0)),
        },
    }
}

/// Tells what is done next of a call for the name of a socket.
pub fn handle_getsockname(args: &[u64; 6], order: ByteOrder, seen: &NetlinkSeen) -> (step: NetlinkDo)
    ensures
        step@ == name_ask(args@, order, *seen),
{
    let port: u32 = match seen.port {
        None => return NetlinkDo::FindPort { fd: args[0] as i32 },
        Some(None) => return NetlinkDo::Answer(Reply::Continue),
        Some(Some(port)) => port,
    };
    let room: u32 = match &seen.room {
        None => return NetlinkDo::ReadRoom { address: args[2], size: ROOM_BYTES },
        Some(None) => return NetlinkDo::Answer(Reply::Errno(EFAULT)),
        Some(Some(bytes)) => read_room(bytes.as_slice(), order),
    };
    match (seen.is_written, seen.is_told) {
        (None, _) => NetlinkDo::Write { address: args[1], bytes: show_address(port, room, order) },
        (Some(false), _) => NetlinkDo::Answer(Reply::Errno(EFAULT)),
        (Some(true), None) => NetlinkDo::TellLength { address: args[2], bytes: write_u32(ADDRESS_BYTES, order) },
        (Some(true), Some(_)) => NetlinkDo::Answer(Reply::Value(0)),
    }
}

/// Only sockets of the plain families reach the kernel; of netlink, only route
/// sockets exist, and those are virtual.
pub proof fn law_other_families_do_not_exist(tid: i32, args: Seq<u64>, seen: NetlinkSeen)
    ensures
        socket_ask(tid, args, seen) == NetlinkAsk::Answer(Reply::Continue) <==> (args[0] == AF_UNIX || args[0]
            == AF_INET || args[0] == AF_INET6),
        socket_ask(tid, args, seen) is Inject ==> args[0] == AF_NETLINK && args[2] == NETLINK_ROUTE,
{
}

/// The name of a virtual socket tells the port that it was registered under.
pub proof fn law_names_tell_the_port(tid: i32, args: Seq<u64>, seen: NetlinkSeen, port: u32, order: ByteOrder)
    requires
        socket_ask(tid, args, seen) matches NetlinkAsk::Inject { port: used, .. } && used == port,
    ensures
        seen.registered matches Some(Ok(_)),
        socket_ask(tid, args, NetlinkSeen { registered: None, ..seen }) == (NetlinkAsk::Register { port }),
        address_image(port, order).len() == ADDRESS_BYTES,
        byte_order::u32_in(address_image(port, order).subrange(4, 8), order) == port,
{
    byte_order::law_numbers_read_back(AF_NETLINK as u16, port, order);
    vstd::bytes::lemma_auto_spec_u16_to_from_le_bytes();
    vstd::bytes::lemma_auto_spec_u32_to_from_le_bytes();
    assert(address_image(port, order).subrange(4, 8) =~= byte_order::u32_image(port, order));
}

/// A socket of the route protocol is made step by step: a pair of sockets, the status of the
/// task, a registration under the number of its thread group, and then one end is handed
/// out, closed on exec. Every other protocol of the family does not exist, nor does any
/// other family but local and internet sockets, which go on.
pub proof fn law_route_sockets_are_made(
    tid: i32,
    args: Seq<u64>,
    seen: NetlinkSeen,
    status: Option<String>,
    errno: i32,
)
    ensures
        args[0] == 1 || args[0] == 2 || args[0] == 10 ==> socket_ask(tid, args, seen) == NetlinkAsk::Answer(Reply::Continue),
        args[0] != 1 && args[0] != 2 && args[0] != 10 && args[0] != 16 ==> socket_ask(tid, args, seen)
            == NetlinkAsk::Answer(Reply::Errno(97)),
        args[0] == 16 && args[2] != 0 ==> socket_ask(tid, args, seen) == NetlinkAsk::Answer(Reply::Errno(97)),
        args[0] == 16 && args[2] == 0 ==> {
            let ask = |seen: NetlinkSeen| socket_ask(tid, args, seen);
            let paired = NetlinkSeen { is_paired: Some(true), status: Some(status), ..seen };
            let port = task_stat::tgid_or_self(task_stat::optional_text(status), tid) as u32;
            &&& ask(NetlinkSeen { is_paired: None, ..seen }) is MakePair
            &&& ask(NetlinkSeen { is_paired: Some(false), ..seen }) == NetlinkAsk::Answer(Reply::Errno(12))
            &&& ask(NetlinkSeen { status: None, ..paired }) == (NetlinkAsk::ReadStatus { tid })
            &&& ask(NetlinkSeen { registered: None, ..paired }) == (NetlinkAsk::Register { port })
            &&& ask(NetlinkSeen { registered: Some(Err(Some(errno))), ..paired }) == NetlinkAsk::Answer(
                Reply::Errno(errno),
            )
            &&& ask(NetlinkSeen { registered: Some(Err(None)), ..paired }) == NetlinkAsk::Answer(Reply::Errno(5))
            &&& ask(NetlinkSeen { registered: Some(Ok(())), ..paired }) == (NetlinkAsk::Inject {
                port,
                newfd_flags: 0x80000,
            })
        },
{
}

/// Calls on a descriptor that is no virtual socket go on as they are. Of a virtual one, a
/// bind succeeds at once.
pub proof fn law_other_descriptors_go_on(args: Seq<u64>, order: ByteOrder, seen: NetlinkSeen, call: ReceiveCall, port: u32)
    ensures
        ({
            let unknown = NetlinkSeen { port: None, ..seen };
            let other = NetlinkSeen { port: Some(None), ..seen };
            let asks = NetlinkAsk::FindPort { fd: args[0] as i32 };
            let goes_on = NetlinkAsk::Answer(Reply::Continue);
            &&& bind_ask(args, unknown) == asks && bind_ask(args, other) == goes_on
            &&& receive_ask(call, args, order, unknown) == asks && receive_ask(call, args, order, other) == goes_on
            &&& name_ask(args, order, unknown) == asks && name_ask(args, order, other) == goes_on
            &&& bind_ask(args, NetlinkSeen { port: Some(Some(port)), ..seen }) == NetlinkAsk::Answer(Reply::Value(0))
        }),
{
}

/// Before a message is received from a virtual socket, the address that it will come from is
/// blanked where the call wants it and has room for it whole; whatever comes of that, the
/// call then goes on.
pub proof fn law_received_addresses_are_blanked(
    args: Seq<u64>,
    order: ByteOrder,
    seen: NetlinkSeen,
    address: u64,
    room: u32,
    bytes: Vec<u8>,
)
    requires
        seen.port matches Some(Some(_)),
        seen.is_written is None,
        bytes@.len() == 4,
        args.len() == 6,
    ensures
        ({
            let goes_on = NetlinkAsk::Answer(Reply::Continue);
            let of_message = NetlinkSeen { header: Some(Some((address, room))), ..seen };
            let of_datagram = NetlinkSeen { room: Some(Some(bytes)), ..seen };
            let told = byte_order::u32_in(bytes@, order);
            let message = |seen: NetlinkSeen| receive_ask(ReceiveCall::RecvMsg, args, order, seen);
            let datagram = |seen: NetlinkSeen| receive_ask(ReceiveCall::RecvFrom, args, order, seen);
            let zeros = Seq::new(12, |i: int| 0u8);
            &&& message(NetlinkSeen { header: None, ..seen }) == (NetlinkAsk::ReadHeader { address: args[1] })
            &&& message(of_message) == if address != 0 && room >= 12 {
                NetlinkAsk::Write { address, bytes: zeros }
            } else {
                goes_on
            }
            &&& message(NetlinkSeen { is_written: Some(true), ..of_message }) == goes_on
            &&& message(NetlinkSeen { is_written: Some(false), ..of_message }) == goes_on
            &&& args[4] == 0 || args[5] == 0 ==> datagram(seen) == goes_on
            &&& args[4] != 0 && args[5] != 0 ==> {
                &&& datagram(NetlinkSeen { room: None, ..seen }) == (NetlinkAsk::ReadRoom { address: args[5], size: 4 })
                &&& datagram(of_datagram) == if told >= 12 {
                    NetlinkAsk::Write { address: args[4], bytes: zeros }
                } else {
                    goes_on
                }
                &&& datagram(NetlinkSeen { is_written: Some(true), ..of_datagram }) == goes_on
            }
            &&& receive_ask(ReceiveCall::Other, args, order, seen) == goes_on
        }),
{
    assert(blank_address() =~= Seq::new(12, |i: int| 0u8));
}

/// The name of a virtual socket is its family and its port, cut to the room that the call
/// has; its whole length is told, and the call succeeds where both could be written.
pub proof fn law_names_are_cut_to_their_room(
    args: Seq<u64>,
    order: ByteOrder,
    seen: NetlinkSeen,
    port: u32,
    bytes: Vec<u8>,
)
    requires
        args.len() == 6,
        bytes@.len() == 4,
    ensures
        ({
            let ask = |seen: NetlinkSeen| name_ask(args, order, seen);
            let named = NetlinkSeen { port: Some(Some(port)), room: Some(Some(bytes)), is_written: None, ..seen };
            let room = byte_order::u32_in(bytes@, order);
            &&& ask(NetlinkSeen { room: None, ..named }) == (NetlinkAsk::ReadRoom { address: args[2], size: 4 })
            &&& ask(NetlinkSeen { room: Some(None), ..named }) == NetlinkAsk::Answer(Reply::Errno(14))
            &&& ask(named) matches NetlinkAsk::Write { address, bytes: shown } && address == args[1] && shown.len() == (
            if room < 12 {
                room as int
            } else {
                12int
            }) && (forall|i: int| 0 <= i < shown.len() ==> #[trigger] shown[i] == address_image(port, order)[i])
            &&& ask(NetlinkSeen { is_written: Some(false), ..named }) == NetlinkAsk::Answer(Reply::Errno(14))
            &&& ask(NetlinkSeen { is_written: Some(true), is_told: None, ..named }) == (NetlinkAsk::TellLength {
                address: args[2],
                bytes: byte_order::u32_image(12, order),
            })
            &&& ask(NetlinkSeen { is_written: Some(true), is_told: Some(true), ..named }) == NetlinkAsk::Answer(
                Reply::Value(0),
            )
            &&& ask(NetlinkSeen { is_written: Some(true), is_told: Some(false), ..named }) == NetlinkAsk::Answer(
                Reply::Value(0),
            )
            &&& address_image(port, order).len() == 12
            &&& address_image(port, order).take(2) == byte_order::u16_image(16, order)
            &&& address_image(port, order).subrange(4, 8) == byte_order::u32_image(port, order)
            &&& address_image(port, order)[2] == 0 && address_image(port, order)[3] == 0
            &&& address_image(port, order).skip(8) == seq![0u8, 0u8, 0u8, 0u8]
        }),
{
    law_names_are_shaped(port, order);
}

/// The shape of the address of a virtual socket.
pub proof fn law_names_are_shaped(port: u32, order: ByteOrder)
    ensures
        address_image(port, order).len() == 12,
        address_image(port, order).take(2) == byte_order::u16_image(16, order),
        address_image(port, order).subrange(4, 8) == byte_order::u32_image(port, order),
        address_image(port, order)[2] == 0,
        address_image(port, order)[3] == 0,
        address_image(port, order).skip(8) == seq![0u8, 0u8, 0u8, 0u8],
{
    let image = address_image(port, order);
    vstd::bytes::lemma_auto_spec_u16_to_from_le_bytes();
    vstd::bytes::lemma_auto_spec_u32_to_from_le_bytes();
    assert(byte_order::u16_image(16, order).len() == 2);
    assert(byte_order::u32_image(port, order).len() == 4);
    assert(image.take(2) =~= byte_order::u16_image(16, order));
    assert(image.subrange(4, 8) =~= byte_order::u32_image(port, order));
    assert(image.skip(8) =~= seq![0u8, 0u8, 0u8, 0u8]);
}

} // verus!
