//! Requests and responses of the wire protocol, and their dispatch to a
//! store. Framing them on a connection is left to the caller.

use vstd::prelude::*;
use vstd::utf8::encode_utf8;
use crate::codec::{Cmd, encode};
use crate::store::KvStore;

verus! {

/// A client request.
#[derive(Debug, PartialEq, Eq)]
pub enum Request {
    Get { key: String },
    /// Sets `key` to `value` (`Set` on the wire).
    Put { key: String, value: String },
    Remove { key: String },
}

#[derive(Debug, PartialEq, Eq)]
pub enum GetResponse {
    Success(Option<String>),
    Failure(String),
}

#[derive(Debug, PartialEq, Eq)]
pub enum SetResponse {
    Success(()),
    Failure(String),
}

#[derive(Debug, PartialEq, Eq)]
pub enum RemoveResponse {
    Success(()),
    Failure(String),
}

/// The response to one request, by the request's kind.
#[derive(Debug, PartialEq, Eq)]
pub enum Response {
    Get(GetResponse),
    Put(SetResponse),
    Remove(RemoveResponse),
}

/// `g` gives the value that `key` has in `s`.
pub open spec fn get_answers(s: KvStore, key: Seq<char>, g: GetResponse) -> bool {
    match g {
        GetResponse::Success(Some(v)) => s.value_of(key) == Some(v@),
        GetResponse::Success(None) => s.value_of(key) is None,
        GetResponse::Failure(_) => false,
    }
}

/// A set succeeds exactly when the key already holds the value or the log
/// has room for its record; it then leaves `key` at `value` and every other
/// key as it was. A failed set leaves the log as it was.
pub open spec fn set_answers(before: KvStore, after: KvStore, key: Seq<char>, value: Seq<char>, r: SetResponse) -> bool {
    &&& r is Success <==> before.value_of(key) == Some(value) || before.room_for(
        encode(Cmd::Put { key: encode_utf8(key), value: encode_utf8(value) }).len(),
    )
    &&& r is Success ==> after.value_of(key) == Some(value)
    &&& r is Success ==> forall|k: Seq<char>| k != key ==> #[trigger] after.value_of(k) == before.value_of(k)
    &&& r is Failure ==> after.log() == before.log()
}

/// A remove succeeds exactly when the key has a value and the log has room
/// for the tombstone; it then leaves `key` without a value and every other
/// key as it was. Removing a key that has no value fails, and a failed
/// remove leaves the log as it was.
pub open spec fn remove_answers(before: KvStore, after: KvStore, key: Seq<char>, r: RemoveResponse) -> bool {
    &&& r is Success <==> before.value_of(key) is Some && before.room_for(
        encode(Cmd::Remove { key: encode_utf8(key) }).len(),
    )
    &&& r is Success ==> after.value_of(key) is None
    &&& r is Success ==> forall|k: Seq<char>| k != key ==> #[trigger] after.value_of(k) == before.value_of(k)
    &&& before.value_of(key) is None ==> r is Failure
    &&& r is Failure ==> after.log() == before.log()
}

/// Answers a `Get`.
pub fn handle_get(store: &mut KvStore, key: String) -> (r: GetResponse)
    requires
        old(store).wf(),
    ensures
        final(store).wf(),
        final(store).log() == old(store).log(),
        final(store).flushed() == old(store).flushed(),
        final(store).pending_effects() == old(store).pending_effects(),
        final(store).compaction_threshold() == old(store).compaction_threshold(),
        get_answers(*old(store), key@, r),
{
    match store.get(key) {
        Ok(v) => GetResponse::Success(v),
        Err(e) => GetResponse::Failure(e.message()),
    }
}

/// Answers a `Set`; a failure of the store becomes an error response.
pub fn handle_set(store: &mut KvStore, key: String, value: String) -> (r: SetResponse)
    requires
        old(store).wf(),
    ensures
        final(store).wf(),
        final(store).flushed() == old(store).flushed(),
        final(store).compaction_threshold() == old(store).compaction_threshold(),
        set_answers(*old(store), *final(store), key@, value@, r),
        r is Failure ==> r->Failure_0@ == "Storage full"@,
{
    match store.set(key, value) {
        Ok(()) => SetResponse::Success(()),
        Err(e) => SetResponse::Failure(e.message()),
    }
}

/// Answers a `Remove`; a missing key becomes an error response that names it.
pub fn handle_remove(store: &mut KvStore, key: String) -> (r: RemoveResponse)
    requires
        old(store).wf(),
    ensures
        final(store).wf(),
        final(store).flushed() == old(store).flushed(),
        final(store).compaction_threshold() == old(store).compaction_threshold(),
        remove_answers(*old(store), *final(store), key@, r),
        old(store).value_of(key@) is None <==> (r is Failure && r->Failure_0@ == "Non-existent key: "@
            + key@),
        r is Failure && old(store).value_of(key@) is Some ==> r->Failure_0@ == "Storage full"@,
{
    let ghost k = key@;
    match store.remove(key) {
        Ok(()) => RemoveResponse::Success(()),
        Err(e) => {
            proof {
                reveal_strlit("Non-existent key: ");
                reveal_strlit("Storage full");
                if e is StorageFull {
                    assert("Storage full"@ != "Non-existent key: "@ + k) by {
                        assert("Storage full"@[0] != ("Non-existent key: "@ + k)[0]);
                    }
                }
            }
            RemoveResponse::Failure(e.message())
        },
    }
}

/// Answers one request. The store stays usable for the next one, whatever
/// the outcome.
pub fn dispatch(store: &mut KvStore, req: Request) -> (r: Response)
    requires
        old(store).wf(),
    ensures
        final(store).wf(),
        final(store).flushed() == old(store).flushed(),
        final(store).compaction_threshold() == old(store).compaction_threshold(),
        match req {
            Request::Get { key } => r is Get && final(store).log() == old(store).log() && get_answers(
                *old(store),
                key@,
                r->Get_0,
            ),
            Request::Put { key, value } => r is Put && set_answers(
                *old(store),
                *final(store),
                key@,
                value@,
                r->Put_0,
            ),
            Request::Remove { key } => r is Remove && remove_answers(
                *old(store),
                *final(store),
                key@,
                r->Remove_0,
            ),
        },
{
    match req {
        Request::Get { key } => Response::Get(handle_get(store, key)),
        Request::Put { key, value } => Response::Put(handle_set(store, key, value)),
        Request::Remove { key } => Response::Remove(handle_remove(store, key)),
    }
}

} // verus!
