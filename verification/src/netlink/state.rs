//! The virtual netlink sockets that are live, by the cookie that the kernel gives
//! a socket. Descriptors are used again; cookies are not.

use crate::sys::EMFILE;
use std::collections::HashMap;
use vstd::prelude::*;

verus! {

broadcast use vstd::std_specs::hash::group_hash_axioms;

/// The most sockets that are known at a time.
pub const MAX_SOCKETS: usize = 1024;

/// How many bytes a cookie has.
pub const COOKIE_BYTES: u32 = 8;

/// The virtual netlink sockets that are live.
#[derive(Debug)]
pub struct NetlinkState {
    cookies: HashMap<u64, u32>,
}

/// A socket that is known. What it holds is given back with it.
#[derive(Debug)]
pub struct Registration {
    cookie: u64,
}

impl Registration {
    /// The cookie of the socket.
    pub closed spec fn cookie(&self) -> u64 {
        self.cookie
    }
}

impl View for NetlinkState {
    type V = Map<u64, u32>;

    closed spec fn view(&self) -> Map<u64, u32> {
        self.cookies@
    }
}

/// Never are more sockets known than there is room for.
pub open spec fn sockets_wf(known: Map<u64, u32>) -> bool {
    known.dom().finite() && known.len() <= MAX_SOCKETS
}

/// Why a socket cannot be registered: the error of its cookie, or no room.
pub open spec fn register_fault(known: Map<u64, u32>, cookie: Result<u64, Option<i32>>) -> Option<Option<i32>> {
    match cookie {
        Err(error) => Some(error),
        Ok(_) => if known.len() >= MAX_SOCKETS {
            Some(Some(EMFILE))
        } else {
            None
        },
    }
}

/// The cookie of a socket, by what the kernel told: its error, or the cookie and
/// how many bytes of it were written.
pub fn socket_cookie(told: Result<(u64, u32), i32>) -> (cookie: Result<u64, Option<i32>>)
    ensures
        cookie == match told {
            Err(errno) => Err::<u64, Option<i32>>(Some(errno)),
            Ok((value, length)) => if length != COOKIE_BYTES {
                Err::<u64, Option<i32>>(None)
            } else {
                Ok::<u64, Option<i32>>(value)
            },
        },
{
    match told {
        Err(errno) => Err(Some(errno)),
        Ok((value, length)) => {
            if length != COOKIE_BYTES {
                Err(None)
            } else {
                Ok(value)
            }
        },
    }
}

impl NetlinkState {
    /// No socket is known.
    pub fn new() -> (state: NetlinkState)
        ensures
            sockets_wf(state@),
            state@ == Map::<u64, u32>::empty(),
    {
        NetlinkState { cookies: HashMap::new() }
    }

    /// Whether no socket is known: then none needs to be looked at.
    pub fn is_empty(&self) -> (empty: bool)
        requires
            sockets_wf(self@),
        ensures
            empty == (self@ == Map::<u64, u32>::empty()),
    {
        let empty = self.cookies.len() == 0;
        proof {
            if empty {
                assert(self@.dom() =~= Set::<u64>::empty());
                assert(self@ =~= Map::<u64, u32>::empty());
            }
        }
        empty
    }

    /// Registers a socket before it is handed out, with the port that it answers
    /// by.
    pub fn register(&mut self, cookie: Result<u64, Option<i32>>, reply_pid: u32) -> (result: Result<
        Registration,
        Option<i32>,
    >)
        requires
            sockets_wf(old(self)@),
        ensures
            sockets_wf(final(self)@),
            match register_fault(old(self)@, cookie) {
                Some(error) => result == Err::<Registration, Option<i32>>(error) && final(self)@ == old(self)@,
                None => {
                    &&& result matches Ok(registration) && Ok::<u64, Option<i32>>(registration.cookie()) == cookie
                    &&& final(self)@ == old(self)@.insert(cookie->Ok_0, reply_pid)
                },
            },
    {
        match cookie {
            Err(error) => Err(error),
            Ok(value) => {
                if self.cookies.len() >= MAX_SOCKETS {
                    return Err(Some(EMFILE));
                }
                self.cookies.insert(value, reply_pid);
                Ok(Registration { cookie: value })
            },
        }
    }

    /// Gives a registration back, once its responder is done.
    pub fn release(&mut self, registration: Registration)
        requires
            sockets_wf(old(self)@),
        ensures
            sockets_wf(final(self)@),
            final(self)@ == old(self)@.remove(registration.cookie()),
    {
        self.cookies.remove(&registration.cookie);
        proof {
            assert(self@.dom().subset_of(old(self)@.dom()));
            vstd::set_lib::lemma_len_subset(self@.dom(), old(self)@.dom());
        }
    }

    /// The port of a socket, by its cookie: nothing where it is not a virtual one,
    /// or its cookie could not be told.
    pub fn cookie_pid(&self, cookie: Option<u64>) -> (pid: Option<u32>)
        ensures
            pid == match cookie {
                Some(value) => if self@.dom().contains(value) {
                    Some(self@[value])
                } else {
                    None::<u32>
                },
                None => None::<u32>,
            },
    {
        match cookie {
            None => None,
            Some(value) => match self.cookies.get(&value) {
                Some(pid) => Some(*pid),
                None => None,
            },
        }
    }
}

/// A registration that is given back leaves things as they were: its socket is no
/// longer known, and its room is free again.
pub proof fn law_release_frees_the_registration(known: Map<u64, u32>, cookie: u64, reply_pid: u32)
    requires
        sockets_wf(known),
        !known.dom().contains(cookie),
        register_fault(known, Ok(cookie)) is None,
    ensures
        known.insert(cookie, reply_pid).remove(cookie) == known,
        register_fault(known.insert(cookie, reply_pid).remove(cookie), Ok(cookie)) is None,
        known.insert(cookie, reply_pid)[cookie] == reply_pid,
{
    assert(known.insert(cookie, reply_pid).remove(cookie) =~= known);
}

/// Where there is no room, nothing more is registered; the sockets that are known
/// stay known.
pub proof fn law_registrations_are_bounded(known: Map<u64, u32>, cookie: u64, reply_pid: u32)
    requires
        sockets_wf(known),
    ensures
        known.len() == MAX_SOCKETS ==> register_fault(known, Ok(cookie)) == Some(Some(EMFILE)),
        register_fault(known, Ok(cookie)) is None ==> sockets_wf(known.insert(cookie, reply_pid)),
{
}

/// A socket is registered exactly where its cookie is known and fewer than the most sockets
/// are registered; otherwise the error is that of the cookie, or that there are too many.
pub proof fn law_registrations_fail_for_a_reason(known: Map<u64, u32>, cookie: u64, error: Option<i32>)
    ensures
        register_fault(known, Err(error)) == Some(error),
        register_fault(known, Ok(cookie)) is None <==> known.len() < 1024,
        known.len() >= 1024 ==> register_fault(known, Ok(cookie)) == Some(Some(24i32)),
{
}

} // verus!
