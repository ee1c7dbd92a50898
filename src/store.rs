//! The engine: the index over a log of records, and the write marker where
//! the next record goes.

use vstd::prelude::*;
use vstd::slice::slice_subrange;

use crate::codec::{
    Cmd, KvAction, WalCommand, decode, encodable, encode, encode_spec, json_quoted, no_newline,
    rm_head, set_head, value_sep,
};
use crate::error::KvsError;
use crate::index::Index;

verus! {

/// The bytes of a log that holds `cmds`, in order.
pub open spec fn log_bytes(cmds: Seq<Cmd>) -> Seq<u8>
    decreases cmds.len(),
{
    if cmds.len() == 0 {
        Seq::empty()
    } else {
        log_bytes(cmds.drop_last()) + encode_spec(cmds.last())
    }
}

/// What one record does to the stored contents.
pub open spec fn apply(m: Map<Seq<char>, Seq<char>>, c: Cmd) -> Map<Seq<char>, Seq<char>> {
    match c {
        Cmd::Put { key, value } => m.insert(key, value),
        Cmd::Rm { key } => m.remove(key),
    }
}

/// The contents that a log holding `cmds` stands for: its records applied
/// in order to an empty store.
pub open spec fn contents(cmds: Seq<Cmd>) -> Map<Seq<char>, Seq<char>>
    decreases cmds.len(),
{
    if cmds.len() == 0 {
        Map::empty()
    } else {
        apply(contents(cmds.drop_last()), cmds.last())
    }
}

/// For each key that a log holding `cmds` has, where in its bytes the record
/// that last set the key begins.
pub open spec fn offsets(cmds: Seq<Cmd>) -> Map<Seq<char>, int>
    decreases cmds.len(),
{
    if cmds.len() == 0 {
        Map::empty()
    } else {
        let prev = cmds.drop_last();
        match cmds.last() {
            Cmd::Put { key, .. } => offsets(prev).insert(key, log_bytes(prev).len() as int),
            Cmd::Rm { key } => offsets(prev).remove(key),
        }
    }
}

pub open spec fn all_encodable(cmds: Seq<Cmd>) -> bool {
    forall|i: int| 0 <= i < cmds.len() ==> encodable(#[trigger] cmds[i])
}

/// `log` is the bytes of a log that holds `cmds`, each record encodable.
pub open spec fn replays_to(cmds: Seq<Cmd>, log: Seq<u8>) -> bool {
    log_bytes(cmds) == log && all_encodable(cmds)
}

/// The record that sets `k` to `v`.
pub open spec fn put_record(k: Seq<char>, v: Seq<char>) -> Seq<u8> {
    encode_spec(Cmd::Put { key: k, value: v })
}

/// The line of an encodable record holds one newline, at its end.
pub proof fn lemma_line_ends_once(c: Cmd)
    requires
        encodable(c),
    ensures
        encode_spec(c).len() >= 2,
        encode_spec(c).last() == 10u8,
        no_newline(encode_spec(c).drop_last()),
{
    let l = encode_spec(c);
    match c {
        Cmd::Put { key, value } => {
            let qk = json_quoted(key);
            let qv = json_quoted(value);
            let body = set_head() + qk + value_sep() + qv;
            assert(l.drop_last() =~= body + seq![125u8]);
            assert forall|i: int| 0 <= i < l.drop_last().len() implies l.drop_last()[i] != 10u8 by {
                if i < 22 {
                    assert(body[i] == set_head()[i]);
                } else if i < 22 + qk.len() {
                    assert(body[i] == qk[i - 22]);
                } else if i < 31 + qk.len() {
                    assert(body[i] == value_sep()[i - 22 - qk.len()]);
                } else if i < 31 + qk.len() + qv.len() {
                    assert(body[i] == qv[i - 31 - qk.len()]);
                }
            }
        },
        Cmd::Rm { key } => {
            let qk = json_quoted(key);
            let body = rm_head() + qk;
            assert(l.drop_last() =~= body + seq![125u8]);
            assert forall|i: int| 0 <= i < l.drop_last().len() implies l.drop_last()[i] != 10u8 by {
                if i < 21 {
                    assert(body[i] == rm_head()[i]);
                } else if i < 21 + qk.len() {
                    assert(body[i] == qk[i - 21]);
                }
            }
        },
    }
}

/// The keys that have an offset are the keys that have a value.
pub proof fn lemma_offsets_dom(cmds: Seq<Cmd>)
    ensures
        offsets(cmds).dom() == contents(cmds).dom(),
    decreases cmds.len(),
{
    if cmds.len() > 0 {
        lemma_offsets_dom(cmds.drop_last());
    }
    assert(offsets(cmds).dom() =~= contents(cmds).dom());
}

/// The offset of each key is the start of the record that gives its value.
pub proof fn lemma_indexed_record(cmds: Seq<Cmd>, k: Seq<char>)
    requires
        contents(cmds).contains_key(k),
    ensures
        offsets(cmds).contains_key(k),
        0 <= offsets(cmds)[k],
        offsets(cmds)[k] + put_record(k, contents(cmds)[k]).len() <= log_bytes(cmds).len(),
        log_bytes(cmds).subrange(
            offsets(cmds)[k],
            offsets(cmds)[k] + put_record(k, contents(cmds)[k]).len(),
        ) == put_record(k, contents(cmds)[k]),
    decreases cmds.len(),
{
    lemma_offsets_dom(cmds);
    let prev = cmds.drop_last();
    let c = cmds.last();
    if c.key() == k {
        let lp = log_bytes(prev);
        assert(log_bytes(cmds).subrange(lp.len() as int, log_bytes(cmds).len() as int)
            =~= encode_spec(c));
    } else {
        lemma_indexed_record(prev, k);
        let o = offsets(prev)[k];
        let r = put_record(k, contents(prev)[k]);
        assert(log_bytes(cmds).subrange(o, o + r.len()) =~= log_bytes(prev).subrange(o, o + r.len()));
    }
}

/// The bytes of the first `m` records are a prefix of the bytes of all.
pub proof fn lemma_log_prefix(cmds: Seq<Cmd>, m: int)
    requires
        0 <= m <= cmds.len(),
    ensures
        log_bytes(cmds.take(m)).len() <= log_bytes(cmds).len(),
        log_bytes(cmds).subrange(0, log_bytes(cmds.take(m)).len() as int) == log_bytes(cmds.take(m)),
    decreases cmds.len(),
{
    if m == cmds.len() {
        assert(cmds.take(m) =~= cmds);
        assert(log_bytes(cmds).subrange(0, log_bytes(cmds).len() as int) =~= log_bytes(cmds));
    } else {
        let prev = cmds.drop_last();
        lemma_log_prefix(prev, m);
        assert(prev.take(m) =~= cmds.take(m));
        let p = log_bytes(cmds.take(m));
        assert(log_bytes(cmds).subrange(0, p.len() as int) =~= log_bytes(prev).subrange(0, p.len() as int));
    }
}

/// The log of `cmds` with one record more.
pub proof fn lemma_push(cmds: Seq<Cmd>, c: Cmd)
    ensures
        log_bytes(cmds.push(c)) == log_bytes(cmds) + encode_spec(c),
        contents(cmds.push(c)) == apply(contents(cmds), c),
        offsets(cmds.push(c)) == match c {
            Cmd::Put { key, .. } => offsets(cmds).insert(key, log_bytes(cmds).len() as int),
            Cmd::Rm { key } => offsets(cmds).remove(key),
        },
{
    assert(cmds.push(c).drop_last() =~= cmds);
}

/// A record ready to be appended to the log, with the bytes that stand for it.
/// The store takes it into account only once it is committed, after the
/// bytes were written and flushed.
pub struct Append {
    cmd: WalCommand,
    bytes: Vec<u8>,
}

impl Append {
    /// What the record does.
    pub closed spec fn record(&self) -> Cmd {
        self.cmd@
    }

    /// The bytes to append.
    pub closed spec fn line(&self) -> Seq<u8> {
        self.bytes@
    }

    pub closed spec fn wf(&self) -> bool {
        &&& self.cmd.wf()
        &&& self.bytes@ == encode_spec(self.cmd@)
        &&& encodable(self.cmd@)
    }

    /// A well-formed append holds the encoding of its record.
    pub proof fn lemma_line(&self)
        requires
            self.wf(),
        ensures
            self.line() == encode_spec(self.record()),
            encodable(self.record()),
    {
    }

    fn from_command(cmd: WalCommand) -> (r: Result<Append, KvsError>)
        requires
            cmd.wf(),
        ensures
            r is Ok,
            r matches Ok(a) ==> a.wf() && a.record() == cmd@,
    {
        let bytes = encode(&cmd)?;
        Ok(Append { cmd, bytes })
    }

    /// The bytes to append to the log.
    pub fn bytes(&self) -> (r: &[u8])
        ensures
            r@ == self.line(),
    {
        self.bytes.as_slice()
    }
}

/// The store: an index over a log of records, and the write marker, which is
/// where the next record will begin. The log's bytes live with the caller;
/// the store keeps only what they stand for.
pub struct KvStore {
    index: Index,
    write_marker: u64,
    log: Ghost<Seq<Cmd>>,
}

impl View for KvStore {
    type V = Map<Seq<char>, Seq<char>>;

    /// The value of each key.
    open spec fn view(&self) -> Map<Seq<char>, Seq<char>> {
        contents(self.log())
    }
}

impl KvStore {
    /// The records of the log, in order.
    pub closed spec fn log(&self) -> Seq<Cmd> {
        self.log@
    }

    /// The bytes of the log.
    pub open spec fn file(&self) -> Seq<u8> {
        log_bytes(self.log())
    }

    /// Where the record that gives the value of `k` begins.
    pub open spec fn offset_of(&self, k: Seq<char>) -> int {
        offsets(self.log())[k]
    }

    pub closed spec fn wf(&self) -> bool {
        &&& self.index.wf()
        &&& self.write_marker == log_bytes(self.log@).len()
        &&& all_encodable(self.log@)
        &&& self.index@.dom() == offsets(self.log@).dom()
        &&& forall|k: Seq<char>| #[trigger]
            self.index@.contains_key(k) ==> self.index@[k] as int == offsets(self.log@)[k]
    }

    /// What a well-formed store promises of its log: each record holds its
    /// one newline at its end, and for each key the log holds, at the key's
    /// offset, the record that sets it to its value.
    pub proof fn lemma_wf(&self, k: Seq<char>)
        requires
            self.wf(),
        ensures
            all_encodable(self.log()),
            self@.contains_key(k) ==> {
                &&& 0 <= self.offset_of(k)
                &&& self.offset_of(k) + put_record(k, self@[k]).len() <= self.file().len()
                &&& self.file().subrange(
                    self.offset_of(k),
                    self.offset_of(k) + put_record(k, self@[k]).len(),
                ) == put_record(k, self@[k])
                &&& encodable(Cmd::Put { key: k, value: self@[k] })
            },
    {
        if self@.contains_key(k) {
            lemma_indexed_record(self.log@, k);
            lemma_put_encodable(self.log@, k);
        }
    }

    /// An empty store over an empty log.
    pub fn new() -> (r: KvStore)
        ensures
            r.wf(),
            r.log() == Seq::<Cmd>::empty(),
            r@ == Map::<Seq<char>, Seq<char>>::empty(),
            r.file() == Seq::<u8>::empty(),
    {
        KvStore { index: Index::new(), write_marker: 0, log: Ghost(Seq::empty()) }
    }

    /// The end of the log: where the next record will begin.
    pub fn write_marker(&self) -> (r: u64)
        requires
            self.wf(),
        ensures
            r == self.file().len(),
    {
        self.write_marker
    }

    /// Where the record that gives the value of `key` begins, if the store
    /// holds `key`.
    pub fn locate(&self, key: &String) -> (r: Option<u64>)
        requires
            self.wf(),
        ensures
            r == (if self@.contains_key(key@) {
                Some(self.offset_of(key@) as u64)
            } else {
                None
            }),
    {
        proof {
            lemma_offsets_dom(self.log@);
        }
        self.index.lookup(key)
    }

    /// The record that sets `key` to `value`, to append. The store changes
    /// only when it is committed.
    ///
    /// `Io` if the log would grow past `u64::MAX` bytes.
    pub fn set(&self, key: String, value: String) -> (r: Result<Append, KvsError>)
        requires
            self.wf(),
        ensures
            r is Ok <==> self.fits(Cmd::Put { key: key@, value: value@ }),
            r matches Ok(a) ==> a.wf() && a.record() == (Cmd::Put { key: key@, value: value@ })
                && self.file().len() + a.line().len() <= u64::MAX,
            r matches Err(e) ==> e == KvsError::Io,
    {
        let a = Append::from_command(WalCommand::new(KvAction::Put, key, Some(value)))?;
        self.check_fits(a)
    }

    /// Whether the log has room for the record of `c`.
    pub open spec fn fits(&self, c: Cmd) -> bool {
        self.file().len() + encode_spec(c).len() <= u64::MAX
    }

    /// `a` itself if the log has room for it, else `Io`.
    fn check_fits(&self, a: Append) -> (r: Result<Append, KvsError>)
        requires
            self.wf(),
            a.wf(),
        ensures
            r is Ok <==> self.fits(a.record()),
            r matches Ok(b) ==> b == a && self.file().len() + b.line().len() <= u64::MAX,
            r matches Err(e) ==> e == KvsError::Io,
    {
        if (a.bytes.len() as u128) + (self.write_marker as u128) > (u64::MAX as u128) {
            return Err(KvsError::Io);
        }
        Ok(a)
    }

    /// The record that removes `key`, to append; `KeyNotFound` if the store
    /// does not hold `key`, `Io` if the log would grow past `u64::MAX` bytes.
    /// The store changes only when it is committed.
    pub fn remove(&self, key: String) -> (r: Result<Append, KvsError>)
        requires
            self.wf(),
        ensures
            !self@.contains_key(key@) <==> r == Err::<Append, KvsError>(KvsError::KeyNotFound),
            self@.contains_key(key@) ==> (r is Ok <==> self.fits(Cmd::Rm { key: key@ })),
            r matches Ok(a) ==> a.wf() && a.record() == (Cmd::Rm { key: key@ })
                && self.file().len() + a.line().len() <= u64::MAX,
            r matches Err(e) ==> e == KvsError::KeyNotFound || e == KvsError::Io,
    {
        proof {
            lemma_offsets_dom(self.log@);
        }
        if self.index.lookup(&key).is_none() {
            return Err(KvsError::KeyNotFound);
        }
        let a = Append::from_command(WalCommand::new(KvAction::Rm, key, None))?;
        self.check_fits(a)
    }

    /// The value of `key`. `None` when the store does not hold `key`, without
    /// a look at `record`. Otherwise `record` is what the caller read from the
    /// log at `locate(key)` up to and including the first newline: the value
    /// comes from it, `CorruptRecord` if it does not decode, and
    /// `IndexCorruption` if it is not a `Put` of `key`.
    pub fn get(&self, key: &String, record: &[u8]) -> (r: Result<Option<String>, KvsError>)
        requires
            self.wf(),
        ensures
            !self@.contains_key(key@) <==> (r matches Ok(None)),
            self@.contains_key(key@) && !crate::codec::framed(record@) ==> r == Err::<
                Option<String>,
                KvsError,
            >(KvsError::CorruptRecord),
            self@.contains_key(key@) && record@ == put_record(key@, self@[key@]) ==> (r matches Ok(
                Some(v),
            ) && v@ == self@[key@]),
            forall|c: Cmd| #[trigger]
                encode_spec(c) == record@ && self@.contains_key(key@) && !(c is Put && c.key()
                    == key@) ==> r == Err::<Option<String>, KvsError>(KvsError::IndexCorruption),
            r matches Ok(Some(v)) ==> self@.contains_key(key@),
            r matches Err(e) ==> e == KvsError::CorruptRecord || e == KvsError::IndexCorruption,
    {
        if self.locate(key).is_none() {
            return Ok(None);
        }
        let cmd = decode(record)?;
        match cmd.action {
            KvAction::Put => {
                if cmd.key != *key {
                    return Err(KvsError::IndexCorruption);
                }
                Ok(cmd.value)
            },
            KvAction::Rm => Err(KvsError::IndexCorruption),
        }
    }

    /// Replays `log`, the bytes of a log file, in order into a fresh store:
    /// each `Put` points its key at the record's first byte, each `Rm` takes
    /// its key out, and the write marker ends at the end of `log`. A record
    /// that does not decode, lacks its newline, or is not written the way
    /// this store writes it, is `CorruptRecord`: it is never skipped.
    pub fn open(log: &[u8]) -> (r: Result<KvStore, KvsError>)
        requires
            log@.len() <= u64::MAX,
        ensures
            r matches Ok(s) ==> s.wf() && s.file() == log@,
            r matches Err(e) ==> e == KvsError::CorruptRecord,
            forall|cmds: Seq<Cmd>| #[trigger]
                replays_to(cmds, log@) ==> (r matches Ok(s) && s.log() == cmds),
            (forall|cmds: Seq<Cmd>| !#[trigger] replays_to(cmds, log@)) ==> r == Err::<
                KvStore,
                KvsError,
            >(KvsError::CorruptRecord),
    {
        let n = log.len();
        let ghost has = exists|cmds: Seq<Cmd>| #[trigger] replays_to(cmds, log@);
        let ghost target = if has {
            choose|cmds: Seq<Cmd>| #[trigger] replays_to(cmds, log@)
        } else {
            Seq::empty()
        };
        let mut store = KvStore::new();
        let mut pos: usize = 0;
        while pos < n
            invariant
                n == log@.len(),
                n <= u64::MAX,
                pos <= n,
                store.wf(),
                store.file() == log@.subrange(0, pos as int),
                has == exists|cmds: Seq<Cmd>| #[trigger] replays_to(cmds, log@),
                has ==> replays_to(target, log@),
                has ==> store.log().len() <= target.len() && store.log() == target.take(
                    store.log().len() as int,
                ),
                forall|c2: Seq<Cmd>| #[trigger]
                    replays_to(c2, log@) ==> store.log().len() <= c2.len()
                        && store.log() == c2.take(store.log().len() as int),
            decreases n - pos,
        {
            let ghost m = store.log().len() as int;
            let ghost e = if has && m < target.len() {
                encode_spec(target[m])
            } else {
                Seq::empty()
            };
            proof {
                if has {
                    if m == target.len() {
                        assert(target.take(m) =~= target);
                    }
                    lemma_next_record(target, m);
                    assert(encodable(target[m]));
                    lemma_line_ends_once(target[m]);
                    assert forall|i: int| 0 <= i < e.len() implies log@[pos + i] == e[i] by {
                        assert(log@.subrange(0, pos + e.len())[pos + i] == log@[pos + i]);
                    }
                }
            }
            let mut end: usize = pos;
            while end < n && log[end] != 10u8
                invariant
                    pos <= end <= n,
                    n == log@.len(),
                    has ==> end <= pos + e.len() - 1 && e.len() >= 2 && pos + e.len() <= n,
                    has ==> log@[pos + e.len() - 1] == 10u8,
                decreases n - end,
            {
                proof {
                    if has && end == pos + e.len() - 1 {
                        assert(e.last() == 10u8);
                    }
                }
                end = end + 1;
            }
            if end == n {
                proof {
                    assert(!has);
                }
                return Err(KvsError::CorruptRecord);
            }
            let line = slice_subrange(log, pos, end + 1);
            proof {
                if has {
                    if end < pos + e.len() - 1 {
                        assert(e.drop_last()[end - pos] == e[end - pos]);
                    }
                    assert(line@ =~= e);
                }
            }
            let cmd = match decode(line) {
                Ok(c) => c,
                Err(_) => {
                    proof {
                        assert(!has);
                    }
                    return Err(KvsError::CorruptRecord);
                },
            };
            let a = Append::from_command(cmd)?;
            if !same_bytes(a.bytes(), line) {
                proof {
                    assert(!has);
                }
                return Err(KvsError::CorruptRecord);
            }
            proof {
                a.lemma_line();
                assert(log@.subrange(0, end + 1) =~= log@.subrange(0, pos as int) + line@);
                if has {
                    assert(target.take(m + 1) =~= target.take(m).push(target[m]));
                }
                assert forall|c2: Seq<Cmd>| #[trigger]
                    replays_to(c2, log@) implies c2.len() > m && c2.take(m + 1) == store.log().push(
                        a.record(),
                    ) by {
                    assert(has);
                    lemma_first_line(c2, m, pos as int, log@);
                    let e2 = encode_spec(c2[m]);
                    if e2.len() < e.len() {
                        assert(e.drop_last()[e2.len() - 1] == e[e2.len() - 1]);
                        assert(log@[pos + e2.len() - 1] == e2[e2.len() - 1]);
                    }
                    if e2.len() > e.len() {
                        assert(e2.drop_last()[e.len() - 1] == e2[e.len() - 1]);
                        assert(log@[pos + e.len() - 1] == e[e.len() - 1]);
                    }
                    assert(e2 =~= line@);
                    assert(c2.take(m + 1) =~= c2.take(m).push(c2[m]));
                }
            }
            store.commit(a);
            pos = end + 1;
        }
        proof {
            assert(log@.subrange(0, n as int) =~= log@);
            store.lemma_wf(Seq::empty());
            assert(replays_to(store.log(), log@));
            assert forall|c2: Seq<Cmd>| #[trigger] replays_to(c2, log@) implies store.log() == c2 by {
                let m = store.log().len() as int;
                if m < c2.len() {
                    lemma_next_record(c2, m);
                    assert(encodable(c2[m]));
                    lemma_line_ends_once(c2[m]);
                }
                assert(c2.take(m) =~= c2);
            }
        }
        Ok(store)
    }

    /// Takes an appended record into account, once its bytes stand durably
    /// at the end of the log: the write marker moves past it and the index
    /// follows it. A `Put` points its key at the record's first byte.
    pub fn commit(&mut self, a: Append)
        requires
            old(self).wf(),
            a.wf(),
            old(self).file().len() + a.line().len() <= u64::MAX,
        ensures
            final(self).wf(),
            final(self).log() == old(self).log().push(a.record()),
            final(self).file() == old(self).file() + a.line(),
            old(self).file().len() < final(self).file().len(),
            final(self)@ == apply(old(self)@, a.record()),
            a.record() matches Cmd::Put { key, .. } ==> final(self).offset_of(key) == old(
                self,
            ).file().len(),
    {
        let ghost c = a.cmd@;
        let ghost prev = self.log@;
        proof {
            lemma_push(prev, c);
            lemma_line_ends_once(c);
        }
        let start = self.write_marker;
        self.write_marker = start + a.bytes.len() as u64;
        self.log = Ghost(prev.push(c));
        match a.cmd.action {
            KvAction::Put => {
                self.index.put(a.cmd.key, start);
            },
            KvAction::Rm => {
                let _ = self.index.delete(&a.cmd.key);
            },
        }
        proof {
            assert forall|i: int| 0 <= i < self.log@.len() implies encodable(#[trigger] self.log@[i]) by {
                if i < prev.len() {
                    assert(self.log@[i] == prev[i]);
                }
            }
            assert(self.index@.dom() =~= offsets(self.log@).dom());
        }
    }
}

/// The record after the first `m` of `cmds` follows their bytes.
proof fn lemma_next_record(cmds: Seq<Cmd>, m: int)
    requires
        0 <= m < cmds.len(),
    ensures
        log_bytes(cmds.take(m + 1)) == log_bytes(cmds.take(m)) + encode_spec(cmds[m]),
        log_bytes(cmds.take(m + 1)).len() <= log_bytes(cmds).len(),
        log_bytes(cmds).subrange(0, log_bytes(cmds.take(m + 1)).len() as int) == log_bytes(
            cmds.take(m + 1),
        ),
{
    lemma_log_prefix(cmds, m + 1);
    assert(cmds.take(m + 1) =~= cmds.take(m).push(cmds[m]));
    lemma_push(cmds.take(m), cmds[m]);
}

/// Whether `a` and `b` hold the same bytes.
fn same_bytes(a: &[u8], b: &[u8]) -> (r: bool)
    ensures
        r == (a@ == b@),
{
    if a.len() != b.len() {
        return false;
    }
    let mut i: usize = 0;
    while i < a.len()
        invariant
            a@.len() == b@.len(),
            i <= a@.len(),
            forall|j: int| 0 <= j < i ==> a@[j] == b@[j],
        decreases a@.len() - i,
    {
        if a[i] != b[i] {
            return false;
        }
        i = i + 1;
    }
    assert(a@ =~= b@);
    true
}

/// In a log of encodable records, the record after the first `m` begins
/// where their bytes end and runs to the first newline after that.
proof fn lemma_first_line(cmds: Seq<Cmd>, m: int, pos: int, log: Seq<u8>)
    requires
        log_bytes(cmds) == log,
        all_encodable(cmds),
        0 <= m <= cmds.len(),
        0 <= pos < log.len(),
        log_bytes(cmds.take(m)) == log.subrange(0, pos),
    ensures
        m < cmds.len(),
        encode_spec(cmds[m]).len() >= 2,
        pos + encode_spec(cmds[m]).len() <= log.len(),
        encode_spec(cmds[m]).last() == 10u8,
        no_newline(encode_spec(cmds[m]).drop_last()),
        forall|i: int| 0 <= i < encode_spec(cmds[m]).len() ==> log[pos + i] == #[trigger] encode_spec(cmds[m])[i],
{
    if m == cmds.len() {
        assert(cmds.take(m) =~= cmds);
    }
    lemma_next_record(cmds, m);
    assert(encodable(cmds[m]));
    lemma_line_ends_once(cmds[m]);
    let e = encode_spec(cmds[m]);
    assert forall|i: int| 0 <= i < e.len() implies log[pos + i] == #[trigger] e[i] by {
        assert(log.subrange(0, pos + e.len())[pos + i] == log[pos + i]);
    }
}

proof fn lemma_put_encodable(cmds: Seq<Cmd>, k: Seq<char>)
    requires
        all_encodable(cmds),
        contents(cmds).contains_key(k),
    ensures
        encodable(Cmd::Put { key: k, value: contents(cmds)[k] }),
    decreases cmds.len(),
{
    let prev = cmds.drop_last();
    assert(encodable(cmds[cmds.len() - 1]));
    if cmds.last().key() != k {
        assert forall|i: int| 0 <= i < prev.len() implies encodable(#[trigger] prev[i]) by {
            assert(prev[i] == cmds[i]);
        }
        lemma_put_encodable(prev, k);
    }
}

} // verus!
