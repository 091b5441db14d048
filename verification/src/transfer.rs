use crate::in_memory_loader::{chunk_of, InMemoryLoader};
use crate::keys::{chars_of, string_of};
use crate::loader_trait::{string_views, PrefixLoader};
use vstd::prelude::*;

verus! {

/// How many bytes one download chunk carries at most.
pub const CHUNK_SIZE: usize = 8192;

/// One step of a chunked download.
pub enum TransferStep {
    /// The next chunk of the object's bytes; `done` when the chunk reaches
    /// the object's current end.
    Chunk { bytes: Vec<u8>, done: bool },
    /// The object is no longer stored: the name was deleted mid-transfer.
    Gone,
}

/// Computes one step of a chunked download: the object's bytes from offset
/// `sent` on, at most `CHUNK_SIZE` of them, and whether the object's current
/// end was reached. The object is resolved anew on every call — never through
/// a handle kept from an earlier chunk — so a concurrent delete is observed
/// at the next chunk boundary and reported as `Gone`, and a concurrently
/// growing object keeps the download running until it drains the bytes
/// present when it catches up.
pub fn next_chunk(loader: &InMemoryLoader, name: &String, sent: usize) -> (r: TransferStep)
    ensures
        match r {
            TransferStep::Gone => !loader@.dom().contains(name@),
            TransferStep::Chunk { bytes, done } => {
                &&& loader@.dom().contains(name@)
                &&& bytes@ == chunk_of(loader@[name@].0, sent as int, CHUNK_SIZE as int)
                &&& done == (sent + CHUNK_SIZE > loader@[name@].0.len())
            },
        },
{
    match loader.read_chunk(name, sent, CHUNK_SIZE) {
        None => TransferStep::Gone,
        Some((bytes, total)) => {
            let done = if sent >= total {
                true
            } else {
                total - sent < CHUNK_SIZE
            };
            TransferStep::Chunk { bytes, done }
        }
    }
}

/// Law: chunks tile the object. A download that has delivered the first
/// `sent` bytes of an object and receives one more chunk has delivered,
/// again, a prefix of the object's bytes: what a reader collects is never
/// torn, whatever chunk size each step used.
pub proof fn lemma_chunks_tile(data: Seq<u8>, sent: int, cap: int)
    requires
        0 <= sent,
        0 <= cap,
    ensures
        ({
            let lo = if sent < data.len() {
                sent
            } else {
                data.len() as int
            };
            let hi = if sent + cap < data.len() {
                sent + cap
            } else {
                data.len() as int
            };
            data.subrange(0, lo) + chunk_of(data, sent, cap) == data.subrange(0, hi)
        }),
{
    let lo = if sent < data.len() {
        sent
    } else {
        data.len() as int
    };
    let hi = if sent + cap < data.len() {
        sent + cap
    } else {
        data.len() as int
    };
    assert(data.subrange(0, lo) + data.subrange(lo, hi) =~= data.subrange(0, hi));
}

/// The reply to one LIST request.
pub enum ListReply {
    /// The names that start with the requested prefix.
    Listing(Vec<String>),
    /// The path names a stored object; it is echoed back.
    Found(String),
    /// The path names nothing stored and asks for no listing.
    Missing,
}

/// Whether a path asks for a prefix listing: it ends in a star.
pub open spec fn asks_listing(path: Seq<char>) -> bool {
    path.len() > 0 && path.last() == '*'
}

/// Decides one LIST request against the loader. A path ending in `'*'` asks
/// for every stored name that starts with the prefix before the star; any
/// other path is echoed back when an object is stored under it, and reported
/// missing otherwise.
pub fn list_request(loader: &InMemoryLoader, path: &String) -> (r: ListReply)
    ensures
        asks_listing(path@) ==> (r matches ListReply::Listing(keys) && {
            &&& forall|t: Seq<char>| #[trigger]
                string_views(keys@).contains(t) <==> loader@.dom().contains(t)
                    && path@.drop_last().is_prefix_of(t)
            &&& string_views(keys@).no_duplicates()
        }),
        !asks_listing(path@) && loader@.dom().contains(path@) ==> (r matches ListReply::Found(p)
            && p@ == path@),
        !asks_listing(path@) && !loader@.dom().contains(path@) ==> r is Missing,
{
    let chars = chars_of(path.as_str());
    let n = chars.len();
    if n > 0 && chars[n - 1] == '*' {
        let prefix = string_of(&chars, n - 1);
        proof {
            assert(prefix@ =~= path@.drop_last());
        }
        let keys = loader.get_keys_for_prefix(&prefix);
        ListReply::Listing(keys)
    } else if loader.is_stored(path) {
        ListReply::Found(path.clone())
    } else {
        ListReply::Missing
    }
}

} // verus!
