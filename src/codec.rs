//! One log record as one line of bytes:
//! `{"action":"Set","key":K,"value":V}` or `{"action":"Rm","key":K}`,
//! each followed by a newline, where `K` and `V` are JSON string literals.

use vstd::prelude::*;
use vstd::slice::slice_subrange;

use crate::error::KvsError;

verus! {

/// What a record does.
#[derive(Clone, Copy, Debug, PartialEq, Eq, Structural)]
pub enum KvAction {
    Put,
    Rm,
}

/// The meaning of a record.
pub enum Cmd {
    Put { key: Seq<char>, value: Seq<char> },
    Rm { key: Seq<char> },
}

impl Cmd {
    /// The key the record is about.
    pub open spec fn key(self) -> Seq<char> {
        match self {
            Cmd::Put { key, .. } => key,
            Cmd::Rm { key } => key,
        }
    }
}

/// A record of the log. A `Put` carries a value, an `Rm` none.
#[derive(Debug)]
pub struct WalCommand {
    pub action: KvAction,
    pub key: String,
    pub value: Option<String>,
}

impl View for WalCommand {
    type V = Cmd;

    open spec fn view(&self) -> Cmd {
        match self.action {
            KvAction::Put => Cmd::Put {
                key: self.key@,
                value: match self.value {
                    Some(v) => v@,
                    None => Seq::empty(),
                },
            },
            KvAction::Rm => Cmd::Rm { key: self.key@ },
        }
    }
}

impl WalCommand {
    /// A record of `action` on `key`, with `value` for a `Put`.
    pub fn new(action: KvAction, key: String, value: Option<String>) -> (r: Self)
        ensures
            r.action == action,
            r.key == key,
            r.value == value,
    {
        WalCommand { action, key, value }
    }

    /// A `Put` has a value and an `Rm` has none.
    pub open spec fn wf(&self) -> bool {
        (self.action == KvAction::Put) == self.value.is_some()
    }
}

/// The bytes of `s` as serde_json writes it: one JSON string literal.
pub uninterp spec fn json_quoted(s: Seq<char>) -> Seq<u8>;

pub open spec fn no_newline(b: Seq<u8>) -> bool {
    forall|i: int| 0 <= i < b.len() ==> b[i] != 10u8
}

/// `{"action":"Set","key":`
pub open spec fn set_head() -> Seq<u8> {
    seq![123u8, 34u8, 97u8, 99u8, 116u8, 105u8, 111u8, 110u8, 34u8, 58u8, 34u8,
        83u8, 101u8, 116u8, 34u8, 44u8, 34u8, 107u8, 101u8, 121u8, 34u8, 58u8]
}

/// `{"action":"Rm","key":`
pub open spec fn rm_head() -> Seq<u8> {
    seq![123u8, 34u8, 97u8, 99u8, 116u8, 105u8, 111u8, 110u8, 34u8, 58u8, 34u8,
        82u8, 109u8, 34u8, 44u8, 34u8, 107u8, 101u8, 121u8, 34u8, 58u8]
}

/// `,"value":`
pub open spec fn value_sep() -> Seq<u8> {
    seq![44u8, 34u8, 118u8, 97u8, 108u8, 117u8, 101u8, 34u8, 58u8]
}

/// `}` and the newline that ends every record.
pub open spec fn record_end() -> Seq<u8> {
    seq![125u8, 10u8]
}

/// The line that stands for `c` in the log.
pub open spec fn encode_spec(c: Cmd) -> Seq<u8> {
    match c {
        Cmd::Put { key, value } => set_head() + json_quoted(key) + value_sep() + json_quoted(
            value,
        ) + record_end(),
        Cmd::Rm { key } => rm_head() + json_quoted(key) + record_end(),
    }
}

/// The string literals of `c` hold no newline, so its line holds exactly one.
pub open spec fn encodable(c: Cmd) -> bool {
    match c {
        Cmd::Put { key, value } => no_newline(json_quoted(key)) && no_newline(json_quoted(value)),
        Cmd::Rm { key } => no_newline(json_quoted(key)),
    }
}

#[verifier::external_type_specification]
#[verifier::external_body]
pub struct ExJsonError(serde_json::Error);

/// Relies on serde_json::to_vec on a `String`: it writes one JSON string
/// literal, and escapes every control character, the newline among them.
/// It writes into a `Vec`, which never fails, so it never returns `Err`.
#[verifier::external_body]
fn quote(s: &String) -> (r: Result<Vec<u8>, serde_json::Error>)
    ensures
        r is Ok,
        r matches Ok(b) ==> b@ == json_quoted(s@) && no_newline(b@),
{
    serde_json::to_vec(s)
}

/// Relies on serde_json's StreamDeserializer over a slice: `next` reads the
/// one JSON string at the start of `b`, and `byte_offset` is where it ended.
/// What serde_json wrote for a string it reads back as that string.
#[verifier::external_body]
fn unquote_prefix(b: &[u8]) -> (r: Option<(String, usize)>)
    ensures
        r is Some ==> (r->0).1 <= b@.len(),
        forall|s: Seq<char>, rest: Seq<u8>|
            b@ == #[trigger] (json_quoted(s) + rest) ==> r is Some && (r->0).0@ == s && (r->0).1
                == json_quoted(s).len(),
{
    let mut items = serde_json::Deserializer::from_slice(b).into_iter::<String>();
    match items.next() {
        Some(Ok(s)) => Some((s, items.byte_offset())),
        _ => None,
    }
}

fn set_head_bytes() -> (r: Vec<u8>)
    ensures
        r@ == set_head(),
{
    let r = vec![123u8, 34u8, 97u8, 99u8, 116u8, 105u8, 111u8, 110u8, 34u8, 58u8, 34u8,
        83u8, 101u8, 116u8, 34u8, 44u8, 34u8, 107u8, 101u8, 121u8, 34u8, 58u8];
    assert(r@ =~= set_head());
    r
}

fn rm_head_bytes() -> (r: Vec<u8>)
    ensures
        r@ == rm_head(),
{
    let r = vec![123u8, 34u8, 97u8, 99u8, 116u8, 105u8, 111u8, 110u8, 34u8, 58u8, 34u8,
        82u8, 109u8, 34u8, 44u8, 34u8, 107u8, 101u8, 121u8, 34u8, 58u8];
    assert(r@ =~= rm_head());
    r
}

fn value_sep_bytes() -> (r: Vec<u8>)
    ensures
        r@ == value_sep(),
{
    let r = vec![44u8, 34u8, 118u8, 97u8, 108u8, 117u8, 101u8, 34u8, 58u8];
    assert(r@ =~= value_sep());
    r
}

fn record_end_bytes() -> (r: Vec<u8>)
    ensures
        r@ == record_end(),
{
    let r = vec![125u8, 10u8];
    assert(r@ =~= record_end());
    r
}

/// Whether `lit` stands in `line` at `pos`.
fn stands_at(line: &[u8], pos: usize, lit: &Vec<u8>) -> (r: bool)
    ensures
        r == (pos + lit@.len() <= line@.len() && line@.subrange(pos as int, pos + lit@.len())
            == lit@),
{
    if pos > line.len() || lit.len() > line.len() - pos {
        return false;
    }
    let mut i: usize = 0;
    while i < lit.len()
        invariant
            pos + lit@.len() <= line@.len(),
            line@.len() == line.len(),
            i <= lit@.len(),
            forall|j: int| 0 <= j < i ==> line@[pos + j] == lit@[j],
        decreases lit@.len() - i,
    {
        if line[pos + i] != lit[i] {
            assert(line@.subrange(pos as int, pos + lit@.len())[i as int] != lit@[i as int]);
            return false;
        }
        i = i + 1;
    }
    assert(line@.subrange(pos as int, pos + lit@.len()) =~= lit@);
    true
}

/// The line of `cmd`, newline included.
pub fn encode(cmd: &WalCommand) -> (r: Result<Vec<u8>, KvsError>)
    requires
        cmd.wf(),
    ensures
        r is Ok,
        r matches Ok(b) ==> b@ == encode_spec(cmd@) && encodable(cmd@),
        r matches Err(e) ==> e == KvsError::Serialization,
{
    let mut out = match cmd.action {
        KvAction::Put => set_head_bytes(),
        KvAction::Rm => rm_head_bytes(),
    };
    let mut k = match quote(&cmd.key) {
        Ok(b) => b,
        Err(_) => return Err(KvsError::Serialization),
    };
    out.append(&mut k);
    if let Some(value) = &cmd.value {
        let mut sep = value_sep_bytes();
        out.append(&mut sep);
        let mut v = match quote(value) {
            Ok(b) => b,
            Err(_) => return Err(KvsError::Serialization),
        };
        out.append(&mut v);
    }
    let mut end = record_end_bytes();
    out.append(&mut end);
    Ok(out)
}

/// How the line of `Put { key: k, value: v }` splits at its field boundaries.
pub open spec fn put_shape(l: Seq<u8>, k: Seq<char>, v: Seq<char>) -> bool {
    let qk = json_quoted(k);
    let qv = json_quoted(v);
    &&& l.len() == 33 + qk.len() as int + qv.len() as int
    &&& l.subrange(0, 22) == set_head()
    &&& l.subrange(22, l.len() as int) == qk + (value_sep() + qv + record_end())
    &&& l.subrange(22 + qk.len() as int, 31 + qk.len() as int) == value_sep()
    &&& l.subrange(31 + qk.len() as int, l.len() as int) == qv + record_end()
    &&& l.subrange(31 + qk.len() as int + qv.len() as int, l.len() as int) == record_end()
}

/// How the line of `Rm { key: k }` splits at its field boundaries.
pub open spec fn rm_shape(l: Seq<u8>, k: Seq<char>) -> bool {
    let qk = json_quoted(k);
    &&& l.len() == 23 + qk.len() as int
    &&& l.subrange(0, 21) == rm_head()
    &&& l.subrange(0, 22) != set_head()
    &&& l.subrange(21, l.len() as int) == qk + record_end()
    &&& l.subrange(21 + qk.len() as int, l.len() as int) == record_end()
}

proof fn lemma_encode_shape(c: Cmd)
    ensures
        match c {
            Cmd::Put { key, value } => put_shape(encode_spec(c), key, value),
            Cmd::Rm { key } => rm_shape(encode_spec(c), key),
        },
{
    let l = encode_spec(c);
    match c {
        Cmd::Put { key, value } => {
            let qk = json_quoted(key);
            let qv = json_quoted(value);
            assert(l.subrange(0, 22) =~= set_head());
            assert(l.subrange(22, l.len() as int) =~= qk + (value_sep() + qv + record_end()));
            assert(l.subrange(22 + qk.len() as int, 31 + qk.len() as int) =~= value_sep());
            assert(l.subrange(31 + qk.len() as int, l.len() as int) =~= qv + record_end());
            assert(l.subrange(31 + qk.len() as int + qv.len() as int, l.len() as int) =~= record_end());
        },
        Cmd::Rm { key } => {
            let qk = json_quoted(key);
            assert(l.subrange(0, 21) =~= rm_head());
            assert(l.subrange(21, l.len() as int) =~= qk + record_end());
            assert(l.subrange(21 + qk.len() as int, l.len() as int) =~= record_end());
            if l.len() >= 22 {
                assert(l.subrange(0, 22)[11] != set_head()[11]);
            }
        },
    }
}

/// Whether `line` starts with the head of a `Put` or of an `Rm` record and
/// ends with the `}` and newline that end every record.
pub open spec fn framed(line: Seq<u8>) -> bool {
    &&& line.len() >= 2
    &&& line.subrange(line.len() - 2, line.len() as int) == record_end()
    &&& (line.len() >= 22 && line.subrange(0, 22) == set_head()) || (line.len() >= 21
        && line.subrange(0, 21) == rm_head())
}

/// Reads one record from `line`, its bytes with the newline that ends it.
/// What `encode` wrote, `decode` gives back.
pub fn decode(line: &[u8]) -> (r: Result<WalCommand, KvsError>)
    ensures
        r matches Ok(c) ==> c.wf(),
        !framed(line@) ==> r == Err::<WalCommand, KvsError>(KvsError::CorruptRecord),
        r matches Err(e) ==> e == KvsError::CorruptRecord,
        forall|c: Cmd| #[trigger] encode_spec(c) == line@ ==> (r matches Ok(w) && w@ == c),
{
    proof {
        assert forall|c: Cmd| #[trigger] encode_spec(c) == line@ implies match c {
            Cmd::Put { key, value } => put_shape(line@, key, value),
            Cmd::Rm { key } => rm_shape(line@, key),
        } by {
            lemma_encode_shape(c);
        }
    }
    let n = line.len();
    let is_put = stands_at(line, 0, &set_head_bytes());
    let start: usize;
    if is_put {
        start = 22;
    } else if stands_at(line, 0, &rm_head_bytes()) {
        start = 21;
    } else {
        return Err(KvsError::CorruptRecord);
    }
    let (key, key_len) = match unquote_prefix(slice_subrange(line, start, n)) {
        Some(p) => p,
        None => return Err(KvsError::CorruptRecord),
    };
    let mut pos = start + key_len;
    let mut value: Option<String> = None;
    if is_put {
        if !stands_at(line, pos, &value_sep_bytes()) {
            return Err(KvsError::CorruptRecord);
        }
        pos = pos + 9;
        let (v, value_len) = match unquote_prefix(slice_subrange(line, pos, n)) {
            Some(p) => p,
            None => return Err(KvsError::CorruptRecord),
        };
        pos = pos + value_len;
        value = Some(v);
    }
    if !stands_at(line, pos, &record_end_bytes()) || pos + 2 != n {
        return Err(KvsError::CorruptRecord);
    }
    let action = if is_put {
        KvAction::Put
    } else {
        KvAction::Rm
    };
    Ok(WalCommand::new(action, key, value))
}

} // verus!
