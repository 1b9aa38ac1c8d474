//! Serialization of snapshots to byte streams and back.

use vstd::prelude::*;
use crate::snapshot::{Snapshot, pairs_view, sorted_unique, snapshot_from_entries};

verus! {

/// The byte stream that encodes an entry list: a function of the entries'
/// paths and digests alone.
pub uninterp spec fn encode_of(entries: Seq<(Seq<char>, Seq<char>)>) -> Seq<u8>;

/// Relies on bincode::serialize: the encoding is deterministic and depends on
/// the entries' contents alone. Serializing a vector of string pairs into a
/// fresh byte vector cannot fail, so the unwrap never panics.
#[verifier::external_body]
fn bincode_encode(entries: &Vec<(String, String)>) -> (r: Vec<u8>)
    ensures
        r@ == encode_of(pairs_view(entries@)),
{
    bincode::serialize(entries).unwrap()
}

/// Relies on bincode::deserialize: decoding inverts bincode::serialize, so a
/// byte stream that bincode::serialize produced decodes to the value that was
/// serialized; any decoding failure is reported as None.
#[verifier::external_body]
fn bincode_decode(bytes: &Vec<u8>) -> (r: Option<Vec<(String, String)>>)
    ensures
        forall|e: Seq<(Seq<char>, Seq<char>)>| bytes@ == encode_of(e)
            ==> r is Some && pairs_view(r.unwrap()@) == e,
{
    bincode::deserialize::<Vec<(String, String)>>(&bytes[..]).ok()
}

/// The record file's bytes do not encode a valid snapshot.
#[derive(Clone, Copy, PartialEq, Eq, Debug)]
pub struct DecodeError;

/// Serializes a snapshot to the byte stream that encodes its entries.
pub fn save_snapshot(s: &Snapshot) -> (bytes: Vec<u8>)
    ensures
        bytes@ == encode_of(s@),
{
    bincode_encode(s.entry_list())
}

/// Decodes a byte stream back into the snapshot it encodes. Any byte stream
/// produced by `save_snapshot` from a well-formed snapshot loads back to a
/// snapshot with exactly the saved entries; malformed bytes are an error.
pub fn load_snapshot(bytes: &Vec<u8>) -> (r: Result<Snapshot, DecodeError>)
    ensures
        forall|e: Seq<(Seq<char>, Seq<char>)>| bytes@ == encode_of(e) && sorted_unique(e)
            ==> r is Ok && r.unwrap()@ == e,
        r is Ok ==> r.unwrap().wf(),
{
    match bincode_decode(bytes) {
        None => Err(DecodeError),
        Some(entries) => {
            match snapshot_from_entries(entries) {
                None => Err(DecodeError),
                Some(s) => Ok(s),
            }
        },
    }
}

/// Law: round-trip — serializing a well-formed snapshot and decoding the
/// bytes back yields a snapshot with exactly the same entries: the same
/// paths, each with the same digest.
pub fn save_then_load(s: &Snapshot) -> (r: Snapshot)
    requires
        s.wf(),
    ensures
        r.wf(),
        r@ == s@,
{
    let bytes = save_snapshot(s);
    match load_snapshot(&bytes) {
        Ok(r) => r,
        Err(_) => {
            proof {
                assert(bytes@ == encode_of(s@) && sorted_unique(s@));
                assert(false);
            }
            Snapshot::new()
        },
    }
}

} // verus!
