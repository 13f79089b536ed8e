//! Log records and their encoding.
//!
//! A record is one of
//! `{"Set":{"key":<string>,"value":<string>}}` and `{"Remove":{"key":<string>}}`,
//! where `<string>` is a JSON string literal. A log file is a concatenation of
//! records; each record ends where its last `}` stands, so a record's end is
//! the start of the next one.
use crate::error::KvsError;
use vstd::prelude::*;

verus! {

/// A log record.
#[derive(Debug)]
pub enum Command {
    /// `key` maps to `value` (tagged `Set` in the log).
    Put { key: String, value: String },
    /// `key` is deleted.
    Remove { key: String },
}

/// What a record asserts, over the text of its strings.
pub enum CommandModel {
    Put { key: Seq<char>, value: Seq<char> },
    Remove { key: Seq<char> },
}

impl View for Command {
    type V = CommandModel;

    open spec fn view(&self) -> CommandModel {
        match self {
            Command::Put { key, value } => CommandModel::Put { key: key@, value: value@ },
            Command::Remove { key } => CommandModel::Remove { key: key@ },
        }
    }
}

impl CommandModel {
    pub open spec fn key(self) -> Seq<char> {
        match self {
            CommandModel::Put { key, .. } => key,
            CommandModel::Remove { key } => key,
        }
    }
}

/// The bytes that serde_json writes for a string.
pub uninterp spec fn json_string_of(s: Seq<char>) -> Seq<u8>;

/// The string that serde_json reads from a JSON string literal, if any.
pub uninterp spec fn json_string_value(lit: Seq<u8>) -> Option<Seq<char>>;

pub open spec fn quote() -> u8 {
    34u8
}

pub open spec fn backslash() -> u8 {
    92u8
}

/// Scanning the inside of a string literal from position `i`: the position
/// just after its closing quote. A backslash escapes the byte after it.
pub open spec fn literal_end(b: Seq<u8>, i: int) -> Option<int>
    decreases b.len() - i,
{
    if i < 0 || i >= b.len() {
        None
    } else if b[i] == quote() {
        Some(i + 1)
    } else if b[i] == backslash() {
        if i + 1 >= b.len() {
            None
        } else {
            literal_end(b, i + 2)
        }
    } else {
        literal_end(b, i + 1)
    }
}

/// The end of the string literal that starts at `p`, if one does.
pub open spec fn literal_at(b: Seq<u8>, p: int) -> Option<int> {
    if 0 <= p < b.len() && b[p] == quote() {
        literal_end(b, p + 1)
    } else {
        None
    }
}

/// `b` is one complete string literal.
pub open spec fn is_literal(b: Seq<u8>) -> bool {
    literal_at(b, 0) == Some(b.len() as int)
}

/// `b` holds `pat` at position `p`.
pub open spec fn bytes_at(b: Seq<u8>, p: int, pat: Seq<u8>) -> bool {
    0 <= p && p + pat.len() <= b.len() && b.subrange(p, p + pat.len()) == pat
}

/// `{"Set":{"key":`
pub open spec fn set_prefix() -> Seq<u8> {
    seq![123u8, 34, 83, 101, 116, 34, 58, 123, 34, 107, 101, 121, 34, 58]
}

/// `{"Remove":{"key":`
pub open spec fn remove_prefix() -> Seq<u8> {
    seq![123u8, 34, 82, 101, 109, 111, 118, 101, 34, 58, 123, 34, 107, 101, 121, 34, 58]
}

/// `,"value":`
pub open spec fn value_sep() -> Seq<u8> {
    seq![44u8, 34, 118, 97, 108, 117, 101, 34, 58]
}

/// `}}`
pub open spec fn record_close() -> Seq<u8> {
    seq![125u8, 125]
}

/// The bytes of a record.
pub open spec fn encode_spec(c: CommandModel) -> Seq<u8> {
    match c {
        CommandModel::Put { key, value } => set_prefix() + json_string_of(key) + value_sep()
            + json_string_of(value) + record_close(),
        CommandModel::Remove { key } => remove_prefix() + json_string_of(key) + record_close(),
    }
}

/// The record that starts at position `p` of `b`, and the position where it
/// ends; `None` where no well-formed record starts there.
pub open spec fn decode_at(b: Seq<u8>, p: int) -> Option<(CommandModel, int)> {
    if bytes_at(b, p, set_prefix()) {
        let k0 = p + set_prefix().len();
        match literal_at(b, k0) {
            Some(k1) => if bytes_at(b, k1, value_sep()) {
                let v0 = k1 + value_sep().len();
                match literal_at(b, v0) {
                    Some(v1) => if bytes_at(b, v1, record_close()) {
                        match (
                            json_string_value(b.subrange(k0, k1)),
                            json_string_value(b.subrange(v0, v1)),
                        ) {
                            (Some(k), Some(v)) => Some(
                                (CommandModel::Put { key: k, value: v }, v1 + 2),
                            ),
                            _ => None,
                        }
                    } else {
                        None
                    },
                    None => None,
                }
            } else {
                None
            },
            None => None,
        }
    } else if bytes_at(b, p, remove_prefix()) {
        let k0 = p + remove_prefix().len();
        match literal_at(b, k0) {
            Some(k1) => if bytes_at(b, k1, record_close()) {
                match json_string_value(b.subrange(k0, k1)) {
                    Some(k) => Some((CommandModel::Remove { key: k }, k1 + 2)),
                    None => None,
                }
            } else {
                None
            },
            None => None,
        }
    } else {
        None
    }
}

/// What serde_json writes for a string reads back as that string, as one
/// literal, whatever bytes follow it.
pub open spec fn quotes_well(s: Seq<char>) -> bool {
    is_literal(json_string_of(s)) && json_string_value(json_string_of(s)) == Some(s)
}

/// Relies on serde_json::to_vec of a `str`: a quote, the text with each quote
/// and backslash escaped by a backslash, and a closing quote, so that the
/// literal's first unescaped quote after the opening one is its last byte;
/// serde_json::from_slice reads the same text back from it. Writing a `str`
/// into a `Vec` cannot fail: the only error serialize_str gives is one of
/// the writer, and a `Vec` gives none.
#[verifier::external_body]
fn json_quote(s: &str) -> (r: Result<Vec<u8>, serde_json::Error>)
    ensures
        r is Ok,
        r matches Ok(b) ==> b@ == json_string_of(s@) && is_literal(b@) && json_string_value(b@)
            == Some(s@),
{
    serde_json::to_vec(s)
}

/// Relies on serde_json::from_slice::<String>: the text that a JSON string
/// literal stands for, which depends on the bytes alone.
#[verifier::external_body]
fn json_unquote(lit: &[u8]) -> (r: Result<String, serde_json::Error>)
    ensures
        r matches Ok(s) ==> json_string_value(lit@) == Some(s@),
        r is Err ==> json_string_value(lit@) is None,
{
    serde_json::from_slice::<String>(lit)
}

/// A literal keeps its end inside any sequence that holds it.
proof fn lemma_literal_end_shift(lit: Seq<u8>, b: Seq<u8>, off: int, i: int)
    requires
        0 <= off,
        off + lit.len() <= b.len(),
        b.subrange(off, off + lit.len()) == lit,
        0 <= i,
        literal_end(lit, i) == Some(lit.len() as int),
    ensures
        literal_end(b, off + i) == Some(off + lit.len()),
    decreases lit.len() - i,
{
    assert(b[off + i] == lit[i]);
    if lit[i] == quote() {
    } else if lit[i] == backslash() {
        lemma_literal_end_shift(lit, b, off, i + 2);
    } else {
        lemma_literal_end_shift(lit, b, off, i + 1);
    }
}

proof fn lemma_literal_at_shift(lit: Seq<u8>, b: Seq<u8>, off: int)
    requires
        0 <= off,
        off + lit.len() <= b.len(),
        b.subrange(off, off + lit.len()) == lit,
        is_literal(lit),
    ensures
        literal_at(b, off) == Some(off + lit.len()),
{
    assert(b[off] == lit[0]);
    lemma_literal_end_shift(lit, b, off, 1);
}

/// The record codec's law: a record, wherever it stands in a byte stream,
/// decodes to itself and ends where its bytes end, provided its strings
/// quote well.
pub proof fn lemma_decode_encode(c: CommandModel, pre: Seq<u8>, rest: Seq<u8>)
    requires
        quotes_well(c.key()),
        c matches CommandModel::Put { value, .. } ==> quotes_well(value),
    ensures
        decode_at(pre + encode_spec(c) + rest, pre.len() as int) == Some(
            (c, (pre.len() + encode_spec(c).len()) as int),
        ),
{
    let b = pre + encode_spec(c) + rest;
    let p = pre.len() as int;
    match c {
        CommandModel::Put { key, value } => {
            let qk = json_string_of(key);
            let qv = json_string_of(value);
            let k0 = p + set_prefix().len();
            let k1 = k0 + qk.len();
            let v0 = k1 + value_sep().len();
            let v1 = v0 + qv.len();
            assert(b.subrange(p, k0) =~= set_prefix());
            assert(b.subrange(k0, k1) =~= qk);
            assert(b.subrange(k1, v0) =~= value_sep());
            assert(b.subrange(v0, v1) =~= qv);
            assert(b.subrange(v1, v1 + 2) =~= record_close());
            lemma_literal_at_shift(qk, b, k0);
            lemma_literal_at_shift(qv, b, v0);
        },
        CommandModel::Remove { key } => {
            let qk = json_string_of(key);
            let k0 = p + remove_prefix().len();
            let k1 = k0 + qk.len();
            assert(b.subrange(p, k0) =~= remove_prefix());
            assert(b.subrange(k0, k1) =~= qk);
            assert(b.subrange(k1, k1 + 2) =~= record_close());
            assert(b[p + 2] == remove_prefix()[2]);
            assert(!bytes_at(b, p, set_prefix())) by {
                if bytes_at(b, p, set_prefix()) {
                    assert(b.subrange(p, p + set_prefix().len())[2] == b[p + 2]);
                }
            }
            lemma_literal_at_shift(qk, b, k0);
        },
    }
}

fn set_prefix_bytes() -> (r: Vec<u8>)
    ensures
        r@ == set_prefix(),
{
    let r = vec![123u8, 34, 83, 101, 116, 34, 58, 123, 34, 107, 101, 121, 34, 58];
    assert(r@ =~= set_prefix());
    r
}

fn remove_prefix_bytes() -> (r: Vec<u8>)
    ensures
        r@ == remove_prefix(),
{
    let r = vec![123u8, 34, 82, 101, 109, 111, 118, 101, 34, 58, 123, 34, 107, 101, 121, 34, 58];
    assert(r@ =~= remove_prefix());
    r
}

fn value_sep_bytes() -> (r: Vec<u8>)
    ensures
        r@ == value_sep(),
{
    let r = vec![44u8, 34, 118, 97, 108, 117, 101, 34, 58];
    assert(r@ =~= value_sep());
    r
}

fn record_close_bytes() -> (r: Vec<u8>)
    ensures
        r@ == record_close(),
{
    let r = vec![125u8, 125];
    assert(r@ =~= record_close());
    r
}

/// Encodes a record. The bytes decode back to the same record wherever they
/// stand in a stream.
pub fn encode_command(c: &Command) -> (r: Result<Vec<u8>, KvsError>)
    ensures
        r is Ok,
        r matches Ok(b) ==> b@ == encode_spec(c@) && quotes_well(c@.key()) && (c@ matches CommandModel::Put { value, .. } ==> quotes_well(value)),
{
    let mut out: Vec<u8>;
    match c {
        Command::Put { key, value } => {
            let qk = match json_quote(key.as_str()) {
                Ok(q) => q,
                Err(e) => return Err(KvsError::SerdeJson(e)),
            };
            let qv = match json_quote(value.as_str()) {
                Ok(q) => q,
                Err(e) => return Err(KvsError::SerdeJson(e)),
            };
            out = set_prefix_bytes();
            out.extend_from_slice(qk.as_slice());
            out.extend_from_slice(value_sep_bytes().as_slice());
            out.extend_from_slice(qv.as_slice());
            out.extend_from_slice(record_close_bytes().as_slice());
        },
        Command::Remove { key } => {
            let qk = match json_quote(key.as_str()) {
                Ok(q) => q,
                Err(e) => return Err(KvsError::SerdeJson(e)),
            };
            out = remove_prefix_bytes();
            out.extend_from_slice(qk.as_slice());
            out.extend_from_slice(record_close_bytes().as_slice());
        },
    }
    assert(out@ =~= encode_spec(c@));
    Ok(out)
}

/// Whether `b` holds `pat` at position `p`.
fn has_bytes_at(b: &[u8], p: usize, pat: &[u8]) -> (r: bool)
    ensures
        r == bytes_at(b@, p as int, pat@),
{
    if p > b.len() || pat.len() > b.len() - p {
        return false;
    }
    let mut i: usize = 0;
    while i < pat.len()
        invariant
            p + pat@.len() <= b@.len() <= usize::MAX,
            0 <= i <= pat@.len(),
            forall|j: int| 0 <= j < i ==> b@[p + j] == pat@[j],
        decreases pat@.len() - i,
    {
        assert(p + i < b@.len());
        if b[p + i] != pat[i] {
            assert(b@.subrange(p as int, p + pat@.len())[i as int] != pat@[i as int]);
            return false;
        }
        i = i + 1;
    }
    assert(b@.subrange(p as int, p + pat@.len()) =~= pat@);
    true
}

/// The end of the string literal that starts at `p`, if one does.
fn scan_literal(b: &[u8], p: usize) -> (r: Option<usize>)
    ensures
        r matches Some(e) ==> literal_at(b@, p as int) == Some(e as int) && p < e <= b@.len(),
        r is None ==> literal_at(b@, p as int) is None,
{
    if p >= b.len() || b[p] != 34u8 {
        return None;
    }
    let mut i: usize = p + 1;
    while i < b.len()
        invariant
            p + 1 <= i <= b@.len(),
            literal_end(b@, i as int) == literal_at(b@, p as int),
        decreases b@.len() - i,
    {
        if b[i] == 34u8 {
            return Some(i + 1);
        } else if b[i] == 92u8 {
            if i + 1 >= b.len() {
                return None;
            }
            i = i + 2;
        } else {
            i = i + 1;
        }
    }
    None
}

/// The string that the literal `b[from..to]` stands for.
fn read_literal(b: &[u8], from: usize, to: usize) -> (r: Result<String, KvsError>)
    requires
        from <= to <= b@.len(),
    ensures
        r matches Ok(s) ==> json_string_value(b@.subrange(from as int, to as int)) == Some(s@),
        r is Err ==> json_string_value(b@.subrange(from as int, to as int)) is None,
        r matches Err(e) ==> e is SerdeJson,
{
    match json_unquote(&b[from..to]) {
        Ok(s) => Ok(s),
        Err(e) => Err(KvsError::SerdeJson(e)),
    }
}

/// Decodes the record that starts at `start`, giving it and the position
/// where it ends; fails where no well-formed record starts there.
pub fn decode_command(bytes: &[u8], start: usize) -> (r: Result<(Command, usize), KvsError>)
    ensures
        match decode_at(bytes@, start as int) {
            Some((c, e)) => r matches Ok((cmd, end)) && cmd@ == c && end == e,
            None => r is Err,
        },
        r matches Ok((_, end)) ==> start < end <= bytes@.len(),
        r matches Err(e) ==> e is CorruptLog || e is SerdeJson,
{
    if start >= bytes.len() {
        return Err(KvsError::CorruptLog);
    }
    let set_p = set_prefix_bytes();
    let remove_p = remove_prefix_bytes();
    let sep = value_sep_bytes();
    let close = record_close_bytes();
    assert(set_prefix().len() == 14 && remove_prefix().len() == 17);
    assert(value_sep().len() == 9 && record_close().len() == 2);
    if has_bytes_at(bytes, start, set_p.as_slice()) {
        let k0 = start + 14;
        let k1 = match scan_literal(bytes, k0) {
            Some(e) => e,
            None => return Err(KvsError::CorruptLog),
        };
        if !has_bytes_at(bytes, k1, sep.as_slice()) {
            return Err(KvsError::CorruptLog);
        }
        let v0 = k1 + 9;
        let v1 = match scan_literal(bytes, v0) {
            Some(e) => e,
            None => return Err(KvsError::CorruptLog),
        };
        if !has_bytes_at(bytes, v1, close.as_slice()) {
            return Err(KvsError::CorruptLog);
        }
        let key = match read_literal(bytes, k0, k1) {
            Ok(t) => t,
            Err(e) => return Err(e),
        };
        let value = match read_literal(bytes, v0, v1) {
            Ok(t) => t,
            Err(e) => return Err(e),
        };
        Ok((Command::Put { key, value }, v1 + 2))
    } else if has_bytes_at(bytes, start, remove_p.as_slice()) {
        let k0 = start + 17;
        let k1 = match scan_literal(bytes, k0) {
            Some(e) => e,
            None => return Err(KvsError::CorruptLog),
        };
        if !has_bytes_at(bytes, k1, close.as_slice()) {
            return Err(KvsError::CorruptLog);
        }
        let key = match read_literal(bytes, k0, k1) {
            Ok(t) => t,
            Err(e) => return Err(e),
        };
        Ok((Command::Remove { key }, k1 + 2))
    } else {
        Err(KvsError::CorruptLog)
    }
}

/// A record's bytes are never empty.
pub proof fn lemma_encode_nonempty(c: CommandModel)
    ensures
        encode_spec(c).len() > 0,
{
    match c {
        CommandModel::Put { .. } => assert(encode_spec(c)[0] == set_prefix()[0]),
        CommandModel::Remove { .. } => assert(encode_spec(c)[0] == remove_prefix()[0]),
    }
}

/// Bytes appended after a literal do not move its end.
pub proof fn lemma_literal_end_append(b: Seq<u8>, x: Seq<u8>, i: int)
    requires
        literal_end(b, i) is Some,
    ensures
        literal_end(b + x, i) == literal_end(b, i),
        i < literal_end(b, i)->0 <= b.len(),
    decreases b.len() - i,
{
    assert((b + x)[i] == b[i]);
    if b[i] == quote() {
    } else if b[i] == backslash() {
        lemma_literal_end_append(b, x, i + 2);
    } else {
        lemma_literal_end_append(b, x, i + 1);
    }
}

/// Bytes appended after a pattern do not move it.
pub proof fn lemma_bytes_at_append(b: Seq<u8>, x: Seq<u8>, p: int, pat: Seq<u8>)
    requires
        bytes_at(b, p, pat),
    ensures
        bytes_at(b + x, p, pat),
{
    assert((b + x).subrange(p, p + pat.len()) =~= b.subrange(p, p + pat.len()));
}

/// A record keeps decoding the same when bytes are appended after it.
pub proof fn lemma_decode_append(b: Seq<u8>, x: Seq<u8>, p: int)
    requires
        decode_at(b, p) is Some,
    ensures
        decode_at(b + x, p) == decode_at(b, p),
        decode_at(b, p) matches Some((_c, e)) && e <= b.len(),
{
    let bx = b + x;
    if bytes_at(b, p, set_prefix()) {
        lemma_bytes_at_append(b, x, p, set_prefix());
        let k0 = p + set_prefix().len();
        assert(b[k0] == quote());
        assert(bx[k0] == b[k0]);
        lemma_literal_end_append(b, x, k0 + 1);
        let k1 = literal_at(b, k0)->0;
        lemma_bytes_at_append(b, x, k1, value_sep());
        let v0 = k1 + value_sep().len();
        assert(bx[v0] == b[v0]);
        lemma_literal_end_append(b, x, v0 + 1);
        let v1 = literal_at(b, v0)->0;
        lemma_bytes_at_append(b, x, v1, record_close());
        assert(bx.subrange(k0, k1) =~= b.subrange(k0, k1));
        assert(bx.subrange(v0, v1) =~= b.subrange(v0, v1));
    } else {
        lemma_bytes_at_append(b, x, p, remove_prefix());
        assert(b.subrange(p, p + remove_prefix().len())[2] == b[p + 2]);
        assert(!bytes_at(bx, p, set_prefix())) by {
            if bytes_at(bx, p, set_prefix()) {
                assert(bx.subrange(p, p + set_prefix().len())[2] == bx[p + 2]);
            }
        }
        let k0 = p + remove_prefix().len();
        assert(bx[k0] == b[k0]);
        lemma_literal_end_append(b, x, k0 + 1);
        let k1 = literal_at(b, k0)->0;
        lemma_bytes_at_append(b, x, k1, record_close());
        assert(bx.subrange(k0, k1) =~= b.subrange(k0, k1));
    }
}

} // verus!
