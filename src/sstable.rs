//! Flushing a table's buffer into an immutable, sorted level-0 run: runs of
//! consecutive entries with the same payload collapse to their first entry,
//! and each surviving (key, payload) pair is written as the key's eight
//! big-endian bytes, so that byte order follows key order, followed by the
//! payload encoded with bincode's default format, one pair after another.
use vstd::prelude::*;
use vstd::utf8::encode_utf8;

use crate::err::FmError;
use crate::memtable::entry_views;
use crate::path::{join, join_path, numbered, numbered_name, LEVEL0_DIR, RUN_EXT};

verus! {

/// The eight big-endian bytes of `n`.
pub open spec fn be_bytes(n: u64) -> Seq<u8> {
    seq![
        (n >> 56u64) as u8,
        (n >> 48u64) as u8,
        (n >> 40u64) as u8,
        (n >> 32u64) as u8,
        (n >> 24u64) as u8,
        (n >> 16u64) as u8,
        (n >> 8u64) as u8,
        n as u8,
    ]
}

/// The eight little-endian bytes of `n`.
pub open spec fn le_bytes(n: u64) -> Seq<u8> {
    seq![
        n as u8,
        (n >> 8u64) as u8,
        (n >> 16u64) as u8,
        (n >> 24u64) as u8,
        (n >> 32u64) as u8,
        (n >> 40u64) as u8,
        (n >> 48u64) as u8,
        (n >> 56u64) as u8,
    ]
}

/// bincode's encoding of a string: the byte length of its UTF-8 form as a
/// fixed-width little-endian integer, then that form.
pub open spec fn payload_bytes(payload: Seq<char>) -> Seq<u8> {
    le_bytes(encode_utf8(payload).len() as u64) + encode_utf8(payload)
}

/// One entry of a run: the key big-endian, then the encoded payload.
pub open spec fn entry_bytes(key: u64, payload: Seq<char>) -> Seq<u8> {
    be_bytes(key) + payload_bytes(payload)
}

/// The entries in order, with every entry that repeats the payload of the
/// entry just before it left out.
pub open spec fn collapse(s: Seq<(u64, Seq<char>)>) -> Seq<(u64, Seq<char>)>
    decreases s.len(),
{
    if s.len() == 0 {
        s
    } else if s.len() >= 2 && s[s.len() - 2].1 == s.last().1 {
        collapse(s.drop_last())
    } else {
        collapse(s.drop_last()).push(s.last())
    }
}

/// The bytes of a run holding `entries`, in order.
pub open spec fn run_bytes(entries: Seq<(u64, Seq<char>)>) -> Seq<u8>
    decreases entries.len(),
{
    if entries.len() == 0 {
        Seq::<u8>::empty()
    } else {
        run_bytes(entries.drop_last()) + entry_bytes(entries.last().0, entries.last().1)
    }
}

/// The path of run number `n` of the table at `table_path`.
pub open spec fn run_path(table_path: Seq<char>, n: nat) -> Seq<char> {
    join(join(table_path, LEVEL0_DIR@), numbered(n, RUN_EXT@))
}

/// Relies on `bincode::serialize` (bincode 1): with its default options,
/// fixed-width little-endian integers and no size limit, a `&str` is written
/// as its byte length followed by its UTF-8 bytes, into a `Vec`, which
/// cannot fail.
#[verifier::external_body]
fn encode_payload(payload: &str) -> (r: Result<Vec<u8>, String>)
    ensures
        r is Ok,
        r->Ok_0@ == payload_bytes(payload@),
{
    bincode::serialize(payload).map_err(|e| e.to_string())
}

/// The eight big-endian bytes of `n`.
pub fn key_bytes(n: u64) -> (r: Vec<u8>)
    ensures
        r@ == be_bytes(n),
{
    let r = vec![
        (n >> 56u64) as u8,
        (n >> 48u64) as u8,
        (n >> 40u64) as u8,
        (n >> 32u64) as u8,
        (n >> 24u64) as u8,
        (n >> 16u64) as u8,
        (n >> 8u64) as u8,
        n as u8,
    ];
    proof {
        assert(r@ =~= be_bytes(n));
    }
    r
}

/// Builds the immutable level-0 runs of flushed buffers.
pub struct SStable;

impl SStable {
    /// The entries of `data` with consecutive repeats of a payload collapsed
    /// to the first of them.
    pub fn collapse(data: &Vec<(u64, String)>) -> (r: Vec<(u64, String)>)
        ensures
            entry_views(r@) == collapse(entry_views(data@)),
    {
        let mut out: Vec<(u64, String)> = Vec::new();
        let mut i: usize = 0;
        while i < data.len()
            invariant
                i <= data@.len(),
                entry_views(out@) == collapse(entry_views(data@.take(i as int))),
            decreases data@.len() - i,
        {
            let ghost pre = entry_views(data@.take(i as int + 1));
            proof {
                assert(pre.drop_last() =~= entry_views(data@.take(i as int)));
                assert(pre.last() == (data@[i as int].0, data@[i as int].1@));
                if i >= 1 {
                    assert(pre[pre.len() - 2] == (data@[i - 1].0, data@[i - 1].1@));
                }
            }
            if i == 0 || data[i - 1].1 != data[i].1 {
                let ghost prev = out@;
                out.push((data[i].0, data[i].1.clone()));
                proof {
                    assert(entry_views(out@) =~= entry_views(prev).push(pre.last()));
                }
            }
            i = i + 1;
        }
        proof {
            assert(data@.take(i as int) =~= data@);
        }
        out
    }

    /// The path and bytes of the next run of the table at `table_path`,
    /// which already has `existing_runs` runs: the collapsed entries of
    /// `data`, encoded in order. Building a run never fails.
    pub fn to_sstable(data: &Vec<(u64, String)>, table_path: &str, existing_runs: u64) -> (r:
        Result<(String, Vec<u8>), FmError>)
        ensures
            r matches Ok((p, b)) && p@ == run_path(table_path@, existing_runs as nat) && b@
                == run_bytes(collapse(entry_views(data@))),
    {
        let survivors = SStable::collapse(data);
        let mut bytes: Vec<u8> = Vec::new();
        let mut i: usize = 0;
        while i < survivors.len()
            invariant
                i <= survivors@.len(),
                bytes@ == run_bytes(entry_views(survivors@.take(i as int))),
            decreases survivors@.len() - i,
        {
            let mut key = key_bytes(survivors[i].0);
            let mut encoded = encode_payload(survivors[i].1.as_str()).unwrap();
            proof {
                let pre = entry_views(survivors@.take(i as int + 1));
                assert(pre.drop_last() =~= entry_views(survivors@.take(i as int)));
                assert(bytes@ + be_bytes(survivors@[i as int].0) + payload_bytes(
                    survivors@[i as int].1@,
                ) =~= bytes@ + entry_bytes(survivors@[i as int].0, survivors@[i as int].1@));
            }
            bytes.append(&mut key);
            bytes.append(&mut encoded);
            i = i + 1;
        }
        proof {
            assert(survivors@.take(i as int) =~= survivors@);
        }
        let dir = join_path(table_path, LEVEL0_DIR);
        let name = numbered_name(existing_runs, RUN_EXT);
        let path = join_path(dir.as_str(), name.as_str());
        Ok((path, bytes))
    }
}

} // verus!
