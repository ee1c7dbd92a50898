//! What holds of the store across several operations, stated over the model
//! that the operations' contracts use: a log of records, the contents it
//! stands for, and the offsets the index keeps.

use vstd::prelude::*;

use crate::codec::Cmd;
use crate::store::{
    KvStore, contents, lemma_indexed_record, lemma_push, log_bytes, offsets, put_record, replays_to,
};

verus! {

/// After a `Put` of `k` to `v` is appended, reading `k` gives `v`: the
/// index points `k` at the start of that record, and the log holds the
/// record there.
pub proof fn law_round_trip(cmds: Seq<Cmd>, k: Seq<char>, v: Seq<char>)
    ensures
        ({
            let after = cmds.push(Cmd::Put { key: k, value: v });
            &&& contents(after).contains_key(k)
            &&& contents(after)[k] == v
            &&& offsets(after)[k] == log_bytes(cmds).len()
            &&& log_bytes(after).subrange(
                offsets(after)[k],
                offsets(after)[k] + put_record(k, v).len(),
            ) == put_record(k, v)
        }),
{
    let after = cmds.push(Cmd::Put { key: k, value: v });
    lemma_push(cmds, Cmd::Put { key: k, value: v });
    lemma_indexed_record(after, k);
}

/// Two `Put`s of one key: reading it gives the second value, the log holds
/// both records, and the index points at the second.
pub proof fn law_overwrite(cmds: Seq<Cmd>, k: Seq<char>, v1: Seq<char>, v2: Seq<char>)
    ensures
        ({
            let first = cmds.push(Cmd::Put { key: k, value: v1 });
            let second = first.push(Cmd::Put { key: k, value: v2 });
            &&& contents(second)[k] == v2
            &&& offsets(second)[k] == log_bytes(first).len()
            &&& log_bytes(second) == log_bytes(cmds) + put_record(k, v1) + put_record(k, v2)
        }),
{
    let first = cmds.push(Cmd::Put { key: k, value: v1 });
    lemma_push(cmds, Cmd::Put { key: k, value: v1 });
    lemma_push(first, Cmd::Put { key: k, value: v2 });
}

/// A `Put` and then an `Rm` of one key: the store no longer holds the key,
/// so reading it gives nothing and removing it again is `KeyNotFound`.
pub proof fn law_removal(cmds: Seq<Cmd>, k: Seq<char>, v: Seq<char>)
    ensures
        !contents(cmds.push(Cmd::Put { key: k, value: v }).push(Cmd::Rm { key: k })).contains_key(
            k,
        ),
        !offsets(cmds.push(Cmd::Put { key: k, value: v }).push(Cmd::Rm { key: k })).contains_key(
            k,
        ),
{
    let first = cmds.push(Cmd::Put { key: k, value: v });
    lemma_push(cmds, Cmd::Put { key: k, value: v });
    lemma_push(first, Cmd::Rm { key: k });
}

/// An empty log holds no key.
pub proof fn law_absence(k: Seq<char>)
    ensures
        !contents(Seq::<Cmd>::empty()).contains_key(k),
{
}

/// The bytes of a store's log replay to that very log; so `open` on them
/// gives a store with the same records and the same value for every key.
pub proof fn law_replay(s: &KvStore)
    requires
        s.wf(),
    ensures
        replays_to(s.log(), s.file()),
{
    s.lemma_wf(Seq::empty());
}

} // verus!
