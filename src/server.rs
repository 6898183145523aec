use std::sync::{Arc, Mutex};
use vstd::prelude::*;
use vstd::utf8::*;

use crate::command::{command_view, Command, CommandView};
use crate::frame::{view_of, Frame, FrameView};
use crate::store::Store;

verus! {

/// `std::sync::Mutex`, carried opaquely: the server keeps its store in one.
#[verifier::external_type_specification]
#[verifier::external_body]
#[verifier::reject_recursive_types(T)]
pub struct ExMutex<T: ?Sized>(std::sync::Mutex<T>);

/// Relies on `std::sync::Mutex::new`, which puts a value in a new mutex.
pub assume_specification<T>[ std::sync::Mutex::<T>::new ](t: T) -> std::sync::Mutex<T>;

pub open spec fn ok_text() -> Seq<u8> {
    encode_utf8(seq!['O', 'K'])
}

pub open spec fn lock_error_text() -> Seq<u8> {
    encode_utf8(seq!['l', 'o', 'c', 'k', ' ', 'e', 'r', 'r', 'o', 'r'])
}

/// The reply to `c` when the store holds `m`.
pub open spec fn reply_to(c: CommandView, m: Map<Seq<u8>, Seq<u8>>) -> FrameView {
    match c {
        CommandView::Get { key } => if m.contains_key(key) {
            FrameView::Bulk(m[key])
        } else {
            FrameView::Null
        },
        CommandView::SetValue { .. } => FrameView::Simple(ok_text()),
    }
}

/// What the store holds after `c` ran on `m`.
pub open spec fn apply(c: CommandView, m: Map<Seq<u8>, Seq<u8>>) -> Map<Seq<u8>, Seq<u8>> {
    match c {
        CommandView::Get { .. } => m,
        CommandView::SetValue { key, value } => m.insert(key, value),
    }
}

/// Runs `cmd` on the store and gives the reply: the value or null for a get,
/// `OK` for a set.
pub fn dispatch(cmd: Command, store: &mut Store) -> (r: Frame)
    ensures
        view_of(r) == reply_to(command_view(cmd), old(store)@),
        final(store)@ == apply(command_view(cmd), old(store)@),
{
    match cmd {
        Command::Get { key } => match store.get(&key) {
            Some(value) => Frame::Bulk(value),
            None => Frame::Null,
        },
        Command::SetValue { key, value } => {
            store.set(key, value);
            let ok = "OK".to_owned();
            proof {
                reveal_strlit("OK");
                assert(ok@ =~= seq!['O', 'K']);
            }
            Frame::Simple(ok)
        },
    }
}

/// The reply when the store's lock was left poisoned by a failed holder.
pub fn lock_error_reply() -> (r: Frame)
    ensures
        view_of(r) == FrameView::Error(lock_error_text()),
{
    let text = "lock error".to_owned();
    proof {
        reveal_strlit("lock error");
        assert(text@ =~= seq!['l', 'o', 'c', 'k', ' ', 'e', 'r', 'r', 'o', 'r']);
    }
    Frame::Error(text)
}

/// A server: the address it listens on, and the store that its connections
/// share behind one lock.
pub struct MiniRedisServer {
    pub addr: String,
    pub db: Arc<Mutex<Store>>,
}

impl MiniRedisServer {
    pub fn new(addr: String) -> (r: Self)
        ensures
            r.addr@ == addr@,
    {
        let db = Arc::new(Mutex::new(Store::new()));
        MiniRedisServer { addr, db }
    }
}

} // verus!
